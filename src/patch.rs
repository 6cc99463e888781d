//! Hunks: the changes of an edit script grouped with a little surrounding
//! context, and how to apply them to the original sequence.

use vstd::prelude::*;

use crate::myers::{
    all_equals, is_script, lemma_sides_concat, lemma_sides_prepend, models, new_side, old_side, Edit, Element,
};
use crate::text::{decimal, decimal_string, has_prefix};
use crate::serialization::PatchError;

verus! {

/// How many unchanged elements a hunk keeps on either side of its changes.
pub const CONTEXT: usize = 3;

/// A contiguous region of an edit script: its changes with up to three
/// `Equal` edits of context before and after them.
#[derive(Debug, Clone, PartialEq, Eq)]
pub struct Hunk<T> {
    pub old_start: usize,
    pub new_start: usize,
    pub changes: Vec<Edit<T>>,
}

/// The abstract value of a hunk.
pub struct HunkView<A> {
    pub old_start: int,
    pub new_start: int,
    pub changes: Seq<Edit<A>>,
}

impl<T: DeepView> DeepView for Hunk<T> {
    type V = HunkView<T::V>;

    open spec fn deep_view(&self) -> HunkView<T::V> {
        HunkView {
            old_start: self.old_start as int,
            new_start: self.new_start as int,
            changes: models(self.changes@),
        }
    }
}

/// The state of the hunk builder after a prefix of an edit script.
pub struct BuildState<A> {
    /// Elements of the original consumed so far.
    pub old_line: int,
    /// Elements of the new sequence produced so far.
    pub new_line: int,
    /// The hunk being filled, if one is open.
    pub current: Option<HunkView<A>>,
    /// Consecutive `Equal`s at the end of the open hunk.
    pub trailing: int,
    /// The last (at most three) unchanged elements seen while no hunk was open.
    pub context: Seq<A>,
    /// The hunks closed so far.
    pub done: Seq<HunkView<A>>,
}

pub open spec fn initial_state<A>() -> BuildState<A> {
    BuildState {
        old_line: 0,
        new_line: 0,
        current: None,
        trailing: 0,
        context: Seq::empty(),
        done: Seq::empty(),
    }
}

/// Keeps the last `CONTEXT` elements of `c`.
pub open spec fn window<A>(c: Seq<A>) -> Seq<A> {
    if c.len() > CONTEXT {
        c.subrange(c.len() - CONTEXT, c.len() as int)
    } else {
        c
    }
}

/// One edit fed to the hunk builder.
pub open spec fn step<A>(s: BuildState<A>, e: Edit<A>) -> BuildState<A> {
    match e {
        Edit::Equal(t) => match s.current {
            Some(h) => {
                let h2 = HunkView { changes: h.changes.push(e), ..h };
                if s.trailing + 1 >= CONTEXT {
                    BuildState {
                        old_line: s.old_line + 1,
                        new_line: s.new_line + 1,
                        current: None,
                        trailing: s.trailing + 1,
                        done: s.done.push(h2),
                        ..s
                    }
                } else {
                    BuildState {
                        old_line: s.old_line + 1,
                        new_line: s.new_line + 1,
                        current: Some(h2),
                        trailing: s.trailing + 1,
                        ..s
                    }
                }
            },
            None => BuildState {
                old_line: s.old_line + 1,
                new_line: s.new_line + 1,
                context: window(s.context.push(t)),
                ..s
            },
        },
        _ => {
            let opened = match s.current {
                Some(h) => HunkView { changes: h.changes.push(e), ..h },
                None => HunkView {
                    old_start: s.old_line - s.context.len(),
                    new_start: s.new_line - s.context.len(),
                    changes: all_equals(s.context).push(e),
                },
            };
            BuildState {
                old_line: if e is Insert { s.old_line } else { s.old_line + 1 },
                new_line: if e is Delete { s.new_line } else { s.new_line + 1 },
                current: Some(opened),
                trailing: 0,
                context: Seq::empty(),
                done: s.done,
            }
        },
    }
}

/// The builder's state after the whole of `edits`.
pub open spec fn run<A>(edits: Seq<Edit<A>>) -> BuildState<A>
    decreases edits.len(),
{
    if edits.len() == 0 {
        initial_state()
    } else {
        step(run(edits.drop_last()), edits.last())
    }
}

/// The closed hunks, and the open one closed at the end.
pub open spec fn finish<A>(s: BuildState<A>) -> Seq<HunkView<A>> {
    match s.current {
        Some(h) => s.done.push(h),
        None => s.done,
    }
}

/// The hunks of an edit script.
pub open spec fn hunks_of<A>(edits: Seq<Edit<A>>) -> Seq<HunkView<A>> {
    finish(run(edits))
}

pub open spec fn hunk_models<T: DeepView>(hs: Seq<Hunk<T>>) -> Seq<HunkView<T::V>> {
    hs.map_values(|h: Hunk<T>| h.deep_view())
}

struct HunkBuilder<T> {
    old_line: usize,
    new_line: usize,
    current: Option<Hunk<T>>,
    trailing_equal_count: usize,
    context_buffer: Vec<T>,
    hunks: Vec<Hunk<T>>,
}

impl<T: Element> HunkBuilder<T> {
    spec fn view(&self) -> BuildState<T::V> {
        BuildState {
            old_line: self.old_line as int,
            new_line: self.new_line as int,
            current: match self.current {
                Some(h) => Some(h.deep_view()),
                None => None,
            },
            trailing: self.trailing_equal_count as int,
            context: models(self.context_buffer@),
            done: hunk_models(self.hunks@),
        }
    }

    spec fn inv(&self) -> bool {
        &&& self.context_buffer@.len() <= CONTEXT
        &&& self.context_buffer@.len() <= self.old_line
        &&& self.context_buffer@.len() <= self.new_line
        &&& self.trailing_equal_count <= self.old_line
        &&& self.current is Some ==> self.context_buffer@.len() == 0
    }

    fn new() -> (r: Self)
        ensures
            r.view() == initial_state::<T::V>(),
            r.inv(),
    {
        let r = HunkBuilder {
            old_line: 0,
            new_line: 0,
            current: None,
            trailing_equal_count: 0,
            context_buffer: Vec::new(),
            hunks: Vec::new(),
        };
        assert(models(r.context_buffer@) =~= Seq::<T::V>::empty());
        assert(hunk_models(r.hunks@) =~= Seq::<HunkView<T::V>>::empty());
        r
    }

    fn process(&mut self, edit: Edit<T>)
        requires
            old(self).inv(),
            old(self).old_line < usize::MAX,
            old(self).new_line < usize::MAX,
        ensures
            final(self).inv(),
            final(self).view() == step(old(self).view(), edit.deep_view()),
            final(self).old_line <= old(self).old_line + 1,
            final(self).new_line <= old(self).new_line + 1,
    {
        let ghost s0 = self.view();
        match edit {
            Edit::Equal(el) => {
                match self.current.take() {
                    Some(mut c) => {
                        let ghost h0 = c.deep_view();
                        c.changes.push(Edit::Equal(el));
                        assert(models(c.changes@) =~= h0.changes.push(edit.deep_view()));
                        self.trailing_equal_count += 1;
                        if self.trailing_equal_count >= CONTEXT {
                            let ghost before = self.hunks@;
                            self.hunks.push(c);
                            assert(hunk_models(self.hunks@) =~= hunk_models(before).push(c.deep_view()));
                        } else {
                            self.current = Some(c);
                        }
                    },
                    None => {
                        let ghost before = self.context_buffer@;
                        self.context_buffer.push(el);
                        assert(models(self.context_buffer@) =~= models(before).push(el.deep_view()));
                        if self.context_buffer.len() > CONTEXT {
                            let ghost pushed = self.context_buffer@;
                            self.context_buffer.remove(0);
                            assert(models(self.context_buffer@) =~= window(models(pushed)));
                        } else {
                            assert(models(self.context_buffer@) =~= window(models(self.context_buffer@)));
                        }
                    },
                }
                self.old_line += 1;
                self.new_line += 1;
            },
            modify => {
                let is_insert = matches!(modify, Edit::Insert(_));
                self.trailing_equal_count = 0;
                match self.current.take() {
                    Some(mut c) => {
                        let ghost h0 = c.deep_view();
                        c.changes.push(modify);
                        assert(models(c.changes@) =~= h0.changes.push(edit.deep_view()));
                        self.current = Some(c);
                    },
                    None => {
                        let old_start = self.old_line - self.context_buffer.len();
                        let new_start = self.new_line - self.context_buffer.len();
                        let ghost ctx = models(self.context_buffer@);
                        let mut changes: Vec<Edit<T>> = Vec::new();
                        while self.context_buffer.len() > 0
                            invariant
                                models(changes@) + all_equals(models(self.context_buffer@)) == all_equals(ctx),
                                self.old_line == old(self).old_line,
                                self.new_line == old(self).new_line,
                                self.hunks@ == old(self).hunks@,
                                self.current is None,
                                self.trailing_equal_count == 0,
                                old(self).old_line < usize::MAX,
                                old(self).new_line < usize::MAX,
                            decreases self.context_buffer@.len(),
                        {
                            let ghost rest = self.context_buffer@;
                            let t = self.context_buffer.remove(0);
                            let ghost before = changes@;
                            changes.push(Edit::Equal(t));
                            assert(rest =~= seq![t] + self.context_buffer@);
                            assert(all_equals(models(rest)) =~= seq![Edit::Equal(t.deep_view())] + all_equals(
                                models(self.context_buffer@),
                            ));
                            assert(models(changes@) =~= models(before).push(Edit::Equal(t.deep_view())));
                            assert(models(changes@) + all_equals(models(self.context_buffer@)) =~= models(before)
                                + all_equals(models(rest)));
                        }
                        assert(models(changes@) =~= all_equals(ctx));
                        let ghost before = changes@;
                        changes.push(modify);
                        assert(models(changes@) =~= models(before).push(edit.deep_view()));
                        assert(models(self.context_buffer@) =~= Seq::<T::V>::empty());
                        self.current = Some(Hunk { old_start, new_start, changes });
                    },
                }
                if is_insert {
                    self.new_line += 1;
                } else {
                    self.old_line += 1;
                }
            },
        }
        assert(self.view().context =~= step(s0, edit.deep_view()).context);
    }

    fn finish(self) -> (r: Vec<Hunk<T>>)
        ensures
            hunk_models(r@) == finish(self.view()),
    {
        let mut hunks = self.hunks;
        match self.current {
            Some(c) => {
                let ghost before = hunks@;
                hunks.push(c);
                assert(hunk_models(hunks@) =~= hunk_models(before).push(c.deep_view()));
            },
            None => {},
        }
        hunks
    }
}

/// Groups the changes of an edit script into hunks with at most three
/// unchanged elements of context on either side. A script of only `Equal`s
/// gives no hunk.
pub fn hunks<T: Element>(edits: Vec<Edit<T>>) -> (r: Vec<Hunk<T>>)
    ensures
        hunk_models(r@) == hunks_of(models(edits@)),
{
    let mut builder = HunkBuilder::new();
    let mut edits = edits;
    let ghost all = models(edits@);
    let total = edits.len();
    assert(all.len() == total);
    let mut rest: Vec<Edit<T>> = Vec::new();
    // Take the edits from the back so that each one moves out of the vector.
    while edits.len() > 0
        invariant
            edits@.len() + rest@.len() == all.len(),
            forall|i: int| 0 <= i < edits@.len() ==> edits@[i].deep_view() == all[i],
            forall|i: int| 0 <= i < rest@.len() ==> rest@[i].deep_view() == all[all.len() - 1 - i],
        decreases edits@.len(),
    {
        let e = edits.pop().unwrap();
        rest.push(e);
    }
    let mut i: usize = 0;
    while rest.len() > 0
        invariant
            i + rest@.len() == all.len(),
            all.len() <= usize::MAX,
            forall|q: int| 0 <= q < rest@.len() ==> rest@[q].deep_view() == all[all.len() - 1 - q],
            builder.inv(),
            builder.old_line <= i,
            builder.new_line <= i,
            builder.view() == run(all.subrange(0, i as int)),
        decreases rest@.len(),
    {
        let e = rest.pop().unwrap();
        assert(e.deep_view() == all[i as int]);
        builder.process(e);
        i += 1;
        assert(all.subrange(0, i as int).drop_last() =~= all.subrange(0, i - 1));
    }
    assert(all.subrange(0, i as int) =~= all);
    builder.finish()
}

/// Runs the edits of one hunk against `old` from index `i`, appending what
/// they produce to `out`; or the index in `old` where an `Equal` does not
/// match or an `Equal` or `Delete` reaches past the end of `old`.
pub open spec fn run_hunk<A>(old: Seq<A>, changes: Seq<Edit<A>>, i: int, out: Seq<A>) -> Result<Seq<A>, int>
    decreases changes.len(),
{
    if changes.len() == 0 {
        Ok(out)
    } else {
        let rest = changes.drop_first();
        match changes[0] {
            Edit::Equal(t) => if 0 <= i < old.len() && old[i] == t {
                run_hunk(old, rest, i + 1, out.push(t))
            } else {
                Err(i)
            },
            Edit::Insert(t) => run_hunk(old, rest, i, out.push(t)),
            Edit::Delete(_) => if 0 <= i < old.len() {
                run_hunk(old, rest, i + 1, out)
            } else {
                Err(i)
            },
        }
    }
}

/// Walks `old` from index `i` with the hunks from index `h` on still to come;
/// on failure, the index in `old` where a hunk does not fit.
/// A hunk applies where the walk reaches its `old_start`, the end of `old`
/// included.
pub open spec fn walk<A>(old: Seq<A>, hunks: Seq<HunkView<A>>, i: int, h: int, out: Seq<A>) -> Result<Seq<A>, int>
    decreases (if 0 <= i < old.len() { old.len() - i } else { 0 }),
        (if 0 <= h < hunks.len() { hunks.len() - h } else { 0 }),
{
    if i < 0 {
        Ok(out)
    } else if 0 <= h < hunks.len() && i == hunks[h].old_start {
        match run_hunk(old, hunks[h].changes, i, out) {
            Ok(next) => walk(old, hunks, i + old_side(hunks[h].changes).len(), h + 1, next),
            Err(j) => Err(j),
        }
    } else if i >= old.len() {
        if 0 <= h < hunks.len() {
            Err(i)
        } else {
            Ok(out)
        }
    } else if 0 <= h < hunks.len() {
        if i < hunks[h].old_start {
            walk(old, hunks, i + 1, h, out.push(old[i]))
        } else {
            Err(i)
        }
    } else {
        walk(old, hunks, i + 1, h, out.push(old[i]))
    }
}

/// The payloads of the inserts of a list of edits.
pub open spec fn inserted<A>(changes: Seq<Edit<A>>) -> Seq<A>
    decreases changes.len(),
{
    if changes.len() == 0 {
        Seq::empty()
    } else {
        let rest = inserted(changes.drop_first());
        match changes[0] {
            Edit::Insert(t) => seq![t] + rest,
            _ => rest,
        }
    }
}

/// The inserts of all hunks, in order.
pub open spec fn all_inserted<A>(hunks: Seq<HunkView<A>>) -> Seq<A>
    decreases hunks.len(),
{
    if hunks.len() == 0 {
        Seq::empty()
    } else {
        all_inserted(hunks.drop_last()) + inserted(hunks.last().changes)
    }
}

/// The sequence that applying `hunks` to `old` gives, or the index in `old`
/// where they do not fit it.
pub open spec fn apply_model<A>(old: Seq<A>, hunks: Seq<HunkView<A>>) -> Result<Seq<A>, int> {
    if old.len() == 0 {
        Ok(all_inserted(hunks))
    } else if hunks.len() == 0 {
        Ok(old)
    } else {
        walk(old, hunks, 0, 0, Seq::empty())
    }
}

proof fn lemma_inserted_push<A>(changes: Seq<Edit<A>>, e: Edit<A>)
    ensures
        inserted(changes.push(e)) == inserted(changes) + (if e is Insert { seq![e.payload()] } else { Seq::empty() }),
    decreases changes.len(),
{
    if changes.len() == 0 {
        assert(changes.push(e).drop_first() =~= Seq::<Edit<A>>::empty());
        assert(changes.push(e)[0] == e);
        assert(inserted(changes.push(e).drop_first()) == Seq::<A>::empty());
        assert(inserted(changes) == Seq::<A>::empty());
        match e {
            Edit::Insert(t) => {
                assert(inserted(changes.push(e)) == seq![t] + Seq::<A>::empty());
            },
            _ => {},
        }
        assert(inserted(changes.push(e)) =~= inserted(changes) + (if e is Insert { seq![e.payload()] } else { Seq::empty() }));
    } else {
        lemma_inserted_push(changes.drop_first(), e);
        assert(changes.push(e).drop_first() =~= changes.drop_first().push(e));
        assert(inserted(changes.push(e)) =~= inserted(changes) + (if e is Insert { seq![e.payload()] } else { Seq::empty() }));
    }
}

proof fn lemma_run_hunk_step<A>(old: Seq<A>, changes: Seq<Edit<A>>, q: int, i: int, out: Seq<A>)
    requires
        0 <= q < changes.len(),
    ensures
        run_hunk(old, changes.subrange(q, changes.len() as int), i, out) == ({
            let rest = changes.subrange(q + 1, changes.len() as int);
            match changes[q] {
                Edit::Equal(t) => if 0 <= i < old.len() && old[i] == t {
                    run_hunk(old, rest, i + 1, out.push(t))
                } else {
                    Err(i)
                },
                Edit::Insert(t) => run_hunk(old, rest, i, out.push(t)),
                Edit::Delete(_) => if 0 <= i < old.len() {
                    run_hunk(old, rest, i + 1, out)
                } else {
                    Err(i)
                },
            }
        }),
{
    assert(changes.subrange(q, changes.len() as int).drop_first() =~= changes.subrange(q + 1, changes.len() as int));
}

proof fn lemma_old_side_push<A>(changes: Seq<Edit<A>>, e: Edit<A>)
    ensures
        old_side(changes.push(e)).len() == old_side(changes).len() + (if e is Insert { 0int } else { 1int }),
{
    crate::myers::lemma_sides_concat(changes, seq![e]);
    assert(changes.push(e) =~= changes + seq![e]);
    crate::myers::lemma_sides_prepend(e, Seq::empty());
    assert(seq![e] =~= seq![e] + Seq::<Edit<A>>::empty());
}

/// How every message about a hunk that does not fit at index `i` begins.
pub open spec fn fault_prefix(i: int) -> Seq<char> {
    seq!['a', 't', ' ', 'l', 'i', 'n', 'e', ' '] + decimal(i as nat) + seq![':']
}

fn fault_message(line: usize, detail: &str) -> (r: String)
    ensures
        r@ == fault_prefix(line as int) + detail@,
        has_prefix(r@, fault_prefix(line as int)),
{
    let mut r = String::from_str("at line ");
    let num = decimal_string(line);
    r.append(num.as_str());
    r.append(":");
    r.append(detail);
    proof {
        reveal_strlit("at line ");
        reveal_strlit(":");
    }
    assert(r@ =~= fault_prefix(line as int) + detail@);
    assert(r@.subrange(0, fault_prefix(line as int).len() as int) =~= fault_prefix(line as int));
    r
}

fn mismatch_detail(expected: &String, found: Option<&String>) -> (r: String) {
    let mut r = String::from_str(" expected '");
    r.append(expected.as_str());
    match found {
        Some(f) => {
            r.append("', found '");
            r.append(f.as_str());
            r.append("'");
        },
        None => {
            r.append("', found the end");
        },
    }
    r
}

/// Applies hunks to the original sequence of strings.
///
/// Elements before a hunk's `old_start` are copied; from there each `Equal`
/// must match the original (else `InvalidFormat`), each `Insert` is emitted
/// and each `Delete` skips an element. A hunk that starts at the end of the
/// original still applies there. A hunk that starts before the current
/// position, or past the end of the original, gives `InvalidFormat`. An empty original gives the inserts of all
/// hunks, and no hunks give the original back. An `Equal` or `Delete` past
/// the end of the original gives `InvalidFormat`.
pub fn apply(old: &[String], hunks: &[Hunk<String>]) -> (r: Result<Vec<String>, PatchError>)
    ensures
        match r {
            Ok(v) => apply_model(models(old@), hunk_models(hunks@)) == Ok::<Seq<Seq<char>>, int>(models(v@)),
            Err(e) => {
                &&& apply_model(models(old@), hunk_models(hunks@)) is Err
                &&& e is InvalidFormat
                &&& has_prefix(e->InvalidFormat_0@, fault_prefix(apply_model(models(old@), hunk_models(hunks@))->Err_0))
            },
        },
{
    let ghost mo = models(old@);
    let ghost mh = hunk_models(hunks@);
    if old.len() == 0 {
        let mut result: Vec<String> = Vec::new();
        let mut h: usize = 0;
        while h < hunks.len()
            invariant
                h <= hunks@.len(),
                mh == hunk_models(hunks@),
                models(result@) == all_inserted(mh.subrange(0, h as int)),
            decreases hunks@.len() - h,
        {
            let changes = &hunks[h].changes;
            let ghost mc = models(changes@);
            let mut q: usize = 0;
            let ghost base = models(result@);
            while q < changes.len()
                invariant
                    q <= changes@.len(),
                    mc == models(changes@),
                    models(result@) == base + inserted(mc.subrange(0, q as int)),
                decreases changes@.len() - q,
            {
                proof { lemma_inserted_push(mc.subrange(0, q as int), mc[q as int]); }
                assert(mc.subrange(0, q + 1) =~= mc.subrange(0, q as int).push(mc[q as int]));
                match &changes[q] {
                    Edit::Insert(t) => {
                        let ghost before = models(result@);
                        result.push(t.clone());
                        assert(models(result@) =~= before.push(t@));
                        assert(models(result@) =~= base + inserted(mc.subrange(0, q + 1)));
                    },
                    _ => {
                        assert(models(result@) =~= base + inserted(mc.subrange(0, q + 1)));
                    },
                }
                q += 1;
            }
            assert(mc.subrange(0, q as int) =~= mc);
            assert(mh.subrange(0, h + 1).drop_last() =~= mh.subrange(0, h as int));
            h += 1;
            assert(models(result@) =~= all_inserted(mh.subrange(0, h as int)));
        }
        assert(mh.subrange(0, h as int) =~= mh);
        return Ok(result);
    }
    if hunks.len() == 0 {
        let mut result: Vec<String> = Vec::new();
        let mut i: usize = 0;
        while i < old.len()
            invariant
                i <= old@.len(),
                models(result@) == mo.subrange(0, i as int),
                mo == models(old@),
            decreases old@.len() - i,
        {
            let ghost before = models(result@);
            result.push(old[i].clone());
            assert(models(result@) =~= before.push(mo[i as int]));
            i += 1;
            assert(models(result@) =~= mo.subrange(0, i as int));
        }
        assert(mo.subrange(0, i as int) =~= mo);
        return Ok(result);
    }
    let mut result: Vec<String> = Vec::new();
    let mut h: usize = 0;
    let mut i: usize = 0;
    assert(models(result@) =~= Seq::<Seq<char>>::empty());
    while i < old.len() || (h < hunks.len() && i == hunks[h].old_start)
        invariant
            mo == models(old@),
            mh == hunk_models(hunks@),
            old@.len() > 0,
            hunks@.len() > 0,
            h <= hunks@.len(),
            i <= old@.len(),
            apply_model(mo, mh) == walk(mo, mh, i as int, h as int, models(result@)),
        decreases (if i <= old@.len() { old@.len() - i } else { 0 }), hunks@.len() - h,
    {
        if h < hunks.len() {
            let hunk = &hunks[h];
            if i == hunk.old_start {
                let changes = &hunk.changes;
                let ghost mc = models(changes@);
                let ghost i0 = i as int;
                let ghost out0 = models(result@);
                let mut q: usize = 0;
                assert(mc.subrange(0, 0) =~= Seq::<Edit<Seq<char>>>::empty());
                assert(mc.subrange(0, mc.len() as int) =~= mc);
                while q < changes.len()
                    invariant
                        mo == models(old@),
                        q <= changes@.len(),
                        mc == models(changes@),
                        mc == mh[h as int].changes,
                        h < hunks@.len(),
                        mh == hunk_models(hunks@),
                        i0 == mh[h as int].old_start,
                        apply_model(mo, mh) == walk(mo, mh, i0, h as int, out0),
                        i0 <= old@.len(),
                        i <= old@.len(),
                        i == i0 + old_side(mc.subrange(0, q as int)).len(),
                        run_hunk(mo, mc, i0, out0) == run_hunk(mo, mc.subrange(q as int, mc.len() as int), i as int, models(result@)),
                    decreases changes@.len() - q,
                {
                    proof {
                        lemma_run_hunk_step(mo, mc, q as int, i as int, models(result@));
                        lemma_old_side_push(mc.subrange(0, q as int), mc[q as int]);
                    }
                    assert(mc.subrange(0, q + 1) =~= mc.subrange(0, q as int).push(mc[q as int]));
                    match &changes[q] {
                        Edit::Equal(t) => {
                            if i >= old.len() {
                                let detail = mismatch_detail(t, None);
                                return Err(PatchError::InvalidFormat(fault_message(i, detail.as_str())));
                            }
                            if !(old[i] == *t) {
                                let detail = mismatch_detail(t, Some(&old[i]));
                                return Err(PatchError::InvalidFormat(fault_message(i, detail.as_str())));
                            }
                            let ghost before = models(result@);
                            result.push(old[i].clone());
                            assert(models(result@) =~= before.push(t@));
                            i += 1;
                        },
                        Edit::Insert(t) => {
                            let ghost before = models(result@);
                            result.push(t.clone());
                            assert(models(result@) =~= before.push(t@));
                        },
                        Edit::Delete(_) => {
                            if i >= old.len() {
                                return Err(PatchError::InvalidFormat(fault_message(i, " nothing left to delete")));
                            }
                            i += 1;
                        },
                    }
                    q += 1;
                }
                assert(mc.subrange(q as int, mc.len() as int) =~= Seq::<Edit<Seq<char>>>::empty());
                assert(mc.subrange(0, q as int) =~= mc);
                h += 1;
            } else if i < hunk.old_start {
                let ghost before = models(result@);
                result.push(old[i].clone());
                assert(models(result@) =~= before.push(mo[i as int]));
                i += 1;
            } else {
                return Err(PatchError::InvalidFormat(fault_message(i, " a hunk starts before this line")));
            }
        } else {
            let ghost before = models(result@);
            result.push(old[i].clone());
            assert(models(result@) =~= before.push(mo[i as int]));
            i += 1;
        }
    }
    if h < hunks.len() {
        return Err(PatchError::InvalidFormat(fault_message(i, " a hunk starts past the end")));
    }
    Ok(result)
}

/// `x` is one of the edits of one of the hunks.
pub open spec fn in_hunks<A>(hs: Seq<HunkView<A>>, x: Edit<A>) -> bool {
    exists|h: int| 0 <= h < hs.len() && (#[trigger] hs[h]).changes.contains(x)
}

/// `x` is in a closed hunk or in the open one.
pub open spec fn in_state<A>(s: BuildState<A>, x: Edit<A>) -> bool {
    in_hunks(s.done, x) || (s.current is Some && s.current->Some_0.changes.contains(x))
}

proof fn lemma_push_contains<A>(c: Seq<Edit<A>>, e: Edit<A>, x: Edit<A>)
    requires
        c.contains(x) || x == e,
    ensures
        c.push(e).contains(x),
{
    if x == e {
        assert(c.push(e)[c.len() as int] == e);
    } else {
        let i = choose|i: int| 0 <= i < c.len() && c[i] == x;
        assert(c.push(e)[i] == x);
    }
}

proof fn lemma_in_hunks_push<A>(hs: Seq<HunkView<A>>, h: HunkView<A>, x: Edit<A>)
    requires
        in_hunks(hs, x) || h.changes.contains(x),
    ensures
        in_hunks(hs.push(h), x),
{
    if h.changes.contains(x) {
        assert(hs.push(h)[hs.len() as int] == h);
    } else {
        let k = choose|k: int| 0 <= k < hs.len() && (#[trigger] hs[k]).changes.contains(x);
        assert(hs.push(h)[k] == hs[k]);
    }
}

proof fn lemma_step_keeps<A>(s: BuildState<A>, e: Edit<A>, x: Edit<A>)
    requires
        in_state(s, x) || !(e is Equal) && x == e,
    ensures
        in_state(step(s, e), x),
{
    let t = step(s, e);
    match e {
        Edit::Equal(_) => {
            match s.current {
                Some(h) => {
                    if h.changes.contains(x) {
                        lemma_push_contains(h.changes, e, x);
                    }
                    if s.trailing + 1 >= CONTEXT {
                        if in_hunks(s.done, x) {
                            lemma_in_hunks_push(s.done, HunkView { changes: h.changes.push(e), ..h }, x);
                        } else {
                            lemma_in_hunks_push(s.done, HunkView { changes: h.changes.push(e), ..h }, x);
                        }
                    }
                },
                None => {},
            }
        },
        _ => {
            match s.current {
                Some(h) => {
                    if h.changes.contains(x) || x == e {
                        lemma_push_contains(h.changes, e, x);
                    }
                },
                None => {
                    if x == e {
                        lemma_push_contains(all_equals(s.context), e, x);
                    }
                },
            }
        },
    }
}

proof fn lemma_run_covers<A>(edits: Seq<Edit<A>>, i: int)
    requires
        0 <= i < edits.len(),
        !(edits[i] is Equal),
    ensures
        in_state(run(edits), edits[i]),
    decreases edits.len(),
{
    let prev = edits.drop_last();
    if i < edits.len() - 1 {
        lemma_run_covers(prev, i);
        lemma_step_keeps(run(prev), edits.last(), edits[i]);
    } else {
        lemma_step_keeps(run(prev), edits.last(), edits[i]);
    }
}

/// Hunk coverage: every edit of a script that is not `Equal` (in particular
/// every such edit that `diff` emits) appears in one of its hunks.
pub proof fn lemma_hunks_cover_changes<A>(edits: Seq<Edit<A>>, i: int)
    requires
        0 <= i < edits.len(),
        !(edits[i] is Equal),
    ensures
        in_hunks(hunks_of(edits), edits[i]),
{
    lemma_run_covers(edits, i);
    let s = run(edits);
    match s.current {
        Some(h) => {
            lemma_in_hunks_push(s.done, h, edits[i]);
        },
        None => {},
    }
}

/// How many elements of the original the first `k` edits consume.
pub open spec fn old_pos<A>(e: Seq<Edit<A>>, k: int) -> int {
    old_side(e.subrange(0, k)).len() as int
}

pub open spec fn equal_between<A>(e: Seq<Edit<A>>, lo: int, hi: int) -> bool {
    forall|j: int| lo <= j < hi ==> (#[trigger] e[j]) is Equal
}

/// The end of the span before span `k` (0 for the first).
pub open spec fn span_before(sb: Seq<int>, k: int) -> int {
    if k == 0 { 0 } else { sb[k - 1] }
}

/// The hunks `hs` are the spans `e[sa[k]..sb[k]]` of the script `e`, in
/// order, each starting in the original where its first edit does, with
/// only `Equal`s outside them.
pub open spec fn spans_of<A>(e: Seq<Edit<A>>, hs: Seq<HunkView<A>>, sa: Seq<int>, sb: Seq<int>) -> bool {
    &&& sa.len() == hs.len()
    &&& sb.len() == hs.len()
    &&& forall|k: int| 0 <= k < hs.len() ==> #[trigger] span_ok(e, hs, sa, sb, k)
    &&& 0 <= span_before(sb, hs.len() as int) <= e.len()
}

/// Hunk `k` is the span `e[sa[k]..sb[k]]`, after only `Equal`s since the
/// previous span.
pub open spec fn span_ok<A>(e: Seq<Edit<A>>, hs: Seq<HunkView<A>>, sa: Seq<int>, sb: Seq<int>, k: int) -> bool {
    &&& 0 <= span_before(sb, k) <= sa[k] < sb[k] <= e.len()
    &&& hs[k].changes == e.subrange(sa[k], sb[k])
    &&& hs[k].old_start == old_pos(e, sa[k])
    &&& equal_between(e, span_before(sb, k), sa[k])
}

/// What the builder knows after the first `n` edits, with the spans of its
/// closed hunks and the start of its open one.
pub open spec fn run_inv<A>(e: Seq<Edit<A>>, n: int, s: BuildState<A>, sa: Seq<int>, sb: Seq<int>, cur: int) -> bool {
    let last = span_before(sb, s.done.len() as int);
    &&& 0 <= n <= e.len()
    &&& s.old_line == old_pos(e, n)
    &&& spans_of(e.subrange(0, n), s.done, sa, sb)
    &&& match s.current {
        Some(c) => {
            &&& last <= cur < n
            &&& c.changes == e.subrange(cur, n)
            &&& c.old_start == old_pos(e, cur)
            &&& equal_between(e, last, cur)
            &&& s.context.len() == 0
        },
        None => {
            &&& last <= n - s.context.len()
            &&& equal_between(e, last, n)
            &&& all_equals(s.context) == e.subrange(n - s.context.len(), n)
        },
    }
}

proof fn lemma_old_pos_step<A>(e: Seq<Edit<A>>, j: int)
    requires
        0 <= j < e.len(),
    ensures
        old_pos(e, j + 1) == old_pos(e, j) + (if e[j] is Insert { 0int } else { 1int }),
        old_side(e.subrange(0, j + 1)) == old_side(e.subrange(0, j)) + (if e[j] is Insert { Seq::empty() } else { seq![e[j].payload()] }),
        new_side(e.subrange(0, j + 1)) == new_side(e.subrange(0, j)) + (if e[j] is Delete { Seq::empty() } else { seq![e[j].payload()] }),
{
    assert(e.subrange(0, j + 1) =~= e.subrange(0, j) + seq![e[j]]);
    lemma_sides_concat(e.subrange(0, j), seq![e[j]]);
    lemma_sides_prepend(e[j], Seq::empty());
    assert(seq![e[j]] + Seq::<Edit<A>>::empty() =~= seq![e[j]]);
    assert(old_side(Seq::<Edit<A>>::empty()) =~= Seq::<A>::empty());
    assert(new_side(Seq::<Edit<A>>::empty()) =~= Seq::<A>::empty());
    assert(seq![e[j].payload()] + Seq::<A>::empty() =~= seq![e[j].payload()]);
}

proof fn lemma_old_pos_mono<A>(e: Seq<Edit<A>>, j: int, k: int)
    requires
        0 <= j <= k <= e.len(),
    ensures
        old_pos(e, j) <= old_pos(e, k),
        equal_between(e, j, k) ==> old_pos(e, k) == old_pos(e, j) + (k - j),
    decreases k - j,
{
    if j < k {
        lemma_old_pos_mono(e, j, k - 1);
        lemma_old_pos_step(e, k - 1);
    }
}

/// The element the original holds where edit `j` reads it.
proof fn lemma_old_at<A>(e: Seq<Edit<A>>, j: int)
    requires
        0 <= j < e.len(),
        !(e[j] is Insert),
    ensures
        0 <= old_pos(e, j) < old_side(e).len(),
        old_side(e)[old_pos(e, j)] == e[j].payload(),
{
    lemma_old_pos_step(e, j);
    assert(e.subrange(0, e.len() as int) =~= e);
    assert(e =~= e.subrange(0, j + 1) + e.subrange(j + 1, e.len() as int));
    lemma_sides_concat(e.subrange(0, j + 1), e.subrange(j + 1, e.len() as int));
}

proof fn lemma_old_pos_prefix<A>(e: Seq<Edit<A>>, m: int, a: int)
    requires
        0 <= a <= m <= e.len(),
    ensures
        old_pos(e.subrange(0, m), a) == old_pos(e, a),
        e.subrange(0, m).subrange(0, a) == e.subrange(0, a),
{
    assert(e.subrange(0, m).subrange(0, a) =~= e.subrange(0, a));
}

proof fn lemma_spans_grow<A>(e: Seq<Edit<A>>, m: int, n: int, hs: Seq<HunkView<A>>, sa: Seq<int>, sb: Seq<int>)
    requires
        0 <= m <= n <= e.len(),
        spans_of(e.subrange(0, m), hs, sa, sb),
        forall|k: int| 0 <= k < hs.len() ==> hs[k].old_start == old_pos(e, sa[k]),
    ensures
        spans_of(e.subrange(0, n), hs, sa, sb),
{
    assert forall|k: int| 0 <= k < hs.len() implies #[trigger] span_ok(e.subrange(0, n), hs, sa, sb, k) by {
        assert(span_ok(e.subrange(0, m), hs, sa, sb, k));
        let (a, b) = (sa[k], sb[k]);
        assert(0 <= span_before(sb, k) <= a < b <= m);
        assert(e.subrange(0, m).subrange(a, b) =~= e.subrange(0, n).subrange(a, b));
        lemma_old_pos_prefix(e, n, a);
        assert forall|j: int| span_before(sb, k) <= j < a implies (#[trigger] e.subrange(0, n)[j]) is Equal by {
            assert(e.subrange(0, m)[j] == e.subrange(0, n)[j]);
        }
    }
    assert(0 <= span_before(sb, hs.len() as int) <= e.subrange(0, n).len());
}

proof fn lemma_spans_push<A>(e: Seq<Edit<A>>, n: int, hs: Seq<HunkView<A>>, sa: Seq<int>, sb: Seq<int>, h: HunkView<A>, a: int)
    requires
        0 <= n <= e.len(),
        spans_of(e.subrange(0, n), hs, sa, sb),
        span_before(sb, hs.len() as int) <= a < n,
        h.changes == e.subrange(a, n),
        h.old_start == old_pos(e, a),
        equal_between(e, span_before(sb, hs.len() as int), a),
    ensures
        spans_of(e.subrange(0, n), hs.push(h), sa.push(a), sb.push(n)),
{
    let hs2 = hs.push(h);
    let sa2 = sa.push(a);
    let sb2 = sb.push(n);
    assert forall|k: int| 0 <= k < hs2.len() implies #[trigger] span_ok(e.subrange(0, n), hs2, sa2, sb2, k) by {
        if k < hs.len() {
            assert(span_ok(e.subrange(0, n), hs, sa, sb, k));
            assert(sa2[k] == sa[k] && sb2[k] == sb[k] && hs2[k] == hs[k]);
            assert(span_before(sb2, k) == span_before(sb, k));
        } else {
            assert(span_before(sb2, k) == span_before(sb, hs.len() as int));
            assert(e.subrange(0, n).subrange(a, n) =~= e.subrange(a, n));
            lemma_old_pos_prefix(e, n, a);
            assert forall|j: int| span_before(sb2, k) <= j < a implies (#[trigger] e.subrange(0, n)[j]) is Equal by {
                assert(e[j] is Equal);
            }
        }
    }
    assert(span_before(sb2, hs2.len() as int) == n);
}

/// What the builder knows after the first `n` edits: the spans of its
/// closed hunks, and the start of its open one.
proof fn lemma_run_inv<A>(e: Seq<Edit<A>>, n: int) -> (w: (Seq<int>, Seq<int>, int))
    requires
        0 <= n <= e.len(),
    ensures
        run_inv(e, n, run(e.subrange(0, n)), w.0, w.1, w.2),
        forall|k: int| 0 <= k < run(e.subrange(0, n)).done.len() ==> run(e.subrange(0, n)).done[k].old_start == old_pos(e, w.0[k]),
    decreases n,
{
    if n == 0 {
        assert(e.subrange(0, 0) =~= Seq::<Edit<A>>::empty());
        assert(old_side(e.subrange(0, 0)) =~= Seq::<A>::empty());
        assert(all_equals(Seq::<A>::empty()) =~= e.subrange(0, 0));
        (Seq::<int>::empty(), Seq::<int>::empty(), 0)
    } else {
        let (sa, sb, cur) = lemma_run_inv(e, n - 1);
        let pre = e.subrange(0, n);
        assert(pre.drop_last() =~= e.subrange(0, n - 1));
        let s = run(e.subrange(0, n - 1));
        let x = e[n - 1];
        let t = step(s, x);
        assert(run(pre) == t);
        lemma_old_pos_step(e, n - 1);
        lemma_spans_grow(e, n - 1, n, s.done, sa, sb);
        let last = span_before(sb, s.done.len() as int);
        match x {
            Edit::Equal(v) => {
                match s.current {
                    Some(c) => {
                        let h2 = HunkView { changes: c.changes.push(x), ..c };
                        assert(h2.changes =~= e.subrange(cur, n));
                        if s.trailing + 1 >= CONTEXT {
                            lemma_spans_push(e, n, s.done, sa, sb, h2, cur);
                            assert(span_before(sb.push(n), t.done.len() as int) == n);
                            assert(e.subrange(n - 0, n) =~= Seq::<Edit<A>>::empty());
                            assert(all_equals(t.context) =~= Seq::<Edit<A>>::empty());
                            (sa.push(cur), sb.push(n), cur)
                        } else {
                            (sa, sb, cur)
                        }
                    },
                    None => {
                        let c2 = s.context.push(v);
                        assert(all_equals(c2) =~= e.subrange(n - c2.len(), n));
                        if c2.len() > CONTEXT {
                            let w = window(c2);
                            let l = c2.len() as int;
                            assert(all_equals(w) =~= all_equals(c2).subrange(l - 3, l));
                            assert(e.subrange(n - l, n).subrange(l - 3, l) =~= e.subrange(n - 3, n));
                        }
                        (sa, sb, cur)
                    },
                }
            },
            _ => {
                match s.current {
                    Some(c) => {
                        assert(c.changes.push(x) =~= e.subrange(cur, n));
                        (sa, sb, cur)
                    },
                    None => {
                        let start = n - 1 - s.context.len();
                        assert(all_equals(s.context).push(x) =~= e.subrange(start, n));
                        lemma_old_pos_mono(e, start, n - 1);
                        (sa, sb, start)
                    },
                }
            },
        }
    }
}

proof fn lemma_hunks_spans<A>(e: Seq<Edit<A>>) -> (w: (Seq<int>, Seq<int>))
    ensures
        spans_of(e, hunks_of(e), w.0, w.1),
        equal_between(e, span_before(w.1, hunks_of(e).len() as int), e.len() as int),
{
    let n = e.len() as int;
    let (sa, sb, cur) = lemma_run_inv(e, n);
    assert(e.subrange(0, n) =~= e);
    let s = run(e);
    match s.current {
        Some(c) => {
            lemma_spans_push(e, n, s.done, sa, sb, c, cur);
            assert(span_before(sb.push(n), s.done.push(c).len() as int) == n);
            (sa.push(cur), sb.push(n))
        },
        None => (sa, sb),
    }
}

proof fn lemma_old_pos_end<A>(e: Seq<Edit<A>>, j: int)
    requires
        0 <= j <= e.len(),
    ensures
        old_pos(e, j) <= old_side(e).len(),
        old_pos(e, e.len() as int) == old_side(e).len(),
        old_pos(e, 0) == 0,
        new_side(e.subrange(0, 0)) == Seq::<A>::empty(),
        new_side(e.subrange(0, e.len() as int)) == new_side(e),
{
    assert(e.subrange(0, e.len() as int) =~= e);
    assert(e.subrange(0, 0) =~= Seq::<Edit<A>>::empty());
    assert(old_side(Seq::<Edit<A>>::empty()) =~= Seq::<A>::empty());
    assert(new_side(Seq::<Edit<A>>::empty()) =~= Seq::<A>::empty());
    lemma_old_pos_mono(e, j, e.len() as int);
}

proof fn lemma_run_span<A>(e: Seq<Edit<A>>, a: int, b: int, out: Seq<A>)
    requires
        0 <= a <= b <= e.len(),
    ensures
        run_hunk(old_side(e), e.subrange(a, b), old_pos(e, a), out) == Ok::<Seq<A>, int>(out + new_side(e.subrange(a, b))),
    decreases b - a,
{
    let old = old_side(e);
    let seg = e.subrange(a, b);
    if a == b {
        assert(seg =~= Seq::<Edit<A>>::empty());
        assert(new_side(seg) =~= Seq::<A>::empty());
        assert(out + Seq::<A>::empty() =~= out);
    } else {
        assert(seg.drop_first() =~= e.subrange(a + 1, b));
        assert(seg[0] == e[a]);
        assert(seg =~= seq![e[a]] + e.subrange(a + 1, b));
        lemma_sides_prepend(e[a], e.subrange(a + 1, b));
        lemma_old_pos_step(e, a);
        let t = e[a].payload();
        match e[a] {
            Edit::Insert(_) => {
                lemma_run_span(e, a + 1, b, out.push(t));
                assert(out.push(t) + new_side(e.subrange(a + 1, b)) =~= out + new_side(seg));
            },
            Edit::Equal(_) => {
                lemma_old_at(e, a);
                lemma_run_span(e, a + 1, b, out.push(t));
                assert(out.push(t) + new_side(e.subrange(a + 1, b)) =~= out + new_side(seg));
            },
            Edit::Delete(_) => {
                lemma_old_at(e, a);
                lemma_run_span(e, a + 1, b, out);
            },
        }
    }
}

proof fn lemma_walk_gap<A>(e: Seq<Edit<A>>, hs: Seq<HunkView<A>>, sa: Seq<int>, sb: Seq<int>, k: int, j: int, target: int)
    requires
        spans_of(e, hs, sa, sb),
        0 <= k <= hs.len(),
        target == (if k < hs.len() { sa[k] } else { e.len() as int }),
        span_before(sb, k) <= j <= target,
        equal_between(e, j, target),
    ensures
        walk(old_side(e), hs, old_pos(e, j), k, new_side(e.subrange(0, j)))
            == walk(old_side(e), hs, old_pos(e, target), k, new_side(e.subrange(0, target))),
    decreases target - j,
{
    if j < target {
        if k < hs.len() {
            assert(span_ok(e, hs, sa, sb, k));
        }
        lemma_old_pos_mono(e, j, target);
        lemma_old_pos_mono(e, j + 1, target);
        lemma_old_pos_end(e, target);
        lemma_old_pos_step(e, j);
        lemma_old_at(e, j);
        lemma_walk_gap(e, hs, sa, sb, k, j + 1, target);
        let old = old_side(e);
        let i = old_pos(e, j);
        let out = new_side(e.subrange(0, j));
        assert(i < old_pos(e, target));
        assert(out.push(old[i]) =~= new_side(e.subrange(0, j + 1)));
        assert(walk(old, hs, i, k, out) == walk(old, hs, i + 1, k, out.push(old[i])));
    }
}

proof fn lemma_walk_from<A>(e: Seq<Edit<A>>, hs: Seq<HunkView<A>>, sa: Seq<int>, sb: Seq<int>, k: int)
    requires
        spans_of(e, hs, sa, sb),
        equal_between(e, span_before(sb, hs.len() as int), e.len() as int),
        0 <= k <= hs.len(),
    ensures
        walk(old_side(e), hs, old_pos(e, span_before(sb, k)), k, new_side(e.subrange(0, span_before(sb, k))))
            == Ok::<Seq<A>, int>(new_side(e)),
    decreases hs.len() - k,
{
    let p = span_before(sb, k);
    if k == hs.len() {
        lemma_walk_gap(e, hs, sa, sb, k, p, e.len() as int);
        lemma_old_pos_end(e, p);
    } else {
        assert(span_ok(e, hs, sa, sb, k));
        let (a, b) = (sa[k], sb[k]);
        lemma_walk_gap(e, hs, sa, sb, k, p, a);
        lemma_run_span(e, a, b, new_side(e.subrange(0, a)));
        assert(e.subrange(0, b) =~= e.subrange(0, a) + e.subrange(a, b));
        lemma_sides_concat(e.subrange(0, a), e.subrange(a, b));
        lemma_old_pos_end(e, a);
        lemma_walk_from(e, hs, sa, sb, k + 1);
        assert(span_before(sb, k + 1) == b);
    }
}

proof fn lemma_inserted_concat<A>(a: Seq<Edit<A>>, b: Seq<Edit<A>>)
    ensures
        inserted(a + b) == inserted(a) + inserted(b),
    decreases a.len(),
{
    if a.len() == 0 {
        assert(a + b =~= b);
        assert(inserted(a) + inserted(b) =~= inserted(b));
    } else {
        lemma_inserted_concat(a.drop_first(), b);
        assert((a + b).drop_first() =~= a.drop_first() + b);
        assert((a + b)[0] == a[0]);
        match a[0] {
            Edit::Insert(t) => {
                assert(seq![t] + (inserted(a.drop_first()) + inserted(b)) =~= (seq![t] + inserted(a.drop_first())) + inserted(b));
            },
            _ => {},
        }
    }
}

proof fn lemma_inserted_is_new_side<A>(e: Seq<Edit<A>>)
    requires
        old_side(e).len() == 0,
    ensures
        inserted(e) == new_side(e),
        forall|j: int| 0 <= j < e.len() ==> !(#[trigger] e[j] is Equal),
    decreases e.len(),
{
    if e.len() > 0 {
        lemma_inserted_is_new_side(e.drop_first());
        assert forall|j: int| 0 <= j < e.len() implies !(#[trigger] e[j] is Equal) by {
            if j > 0 {
                assert(e[j] == e.drop_first()[j - 1]);
            }
        }
    }
}

proof fn lemma_all_inserted_spans<A>(e: Seq<Edit<A>>, hs: Seq<HunkView<A>>, sa: Seq<int>, sb: Seq<int>, k: int)
    requires
        spans_of(e, hs, sa, sb),
        forall|j: int| 0 <= j < e.len() ==> !(#[trigger] e[j] is Equal),
        0 <= k <= hs.len(),
    ensures
        all_inserted(hs.subrange(0, k)) == inserted(e.subrange(0, span_before(sb, k))),
    decreases k,
{
    if k == 0 {
        assert(hs.subrange(0, 0) =~= Seq::<HunkView<A>>::empty());
        assert(e.subrange(0, 0) =~= Seq::<Edit<A>>::empty());
    } else {
        lemma_all_inserted_spans(e, hs, sa, sb, k - 1);
        assert(span_ok(e, hs, sa, sb, k - 1));
        let (a, b) = (sa[k - 1], sb[k - 1]);
        let p = span_before(sb, k - 1);
        if p < a {
            assert(e[p] is Equal);
        }
        assert(hs.subrange(0, k).drop_last() =~= hs.subrange(0, k - 1));
        assert(e.subrange(0, b) =~= e.subrange(0, a) + e.subrange(a, b));
        lemma_inserted_concat(e.subrange(0, a), e.subrange(a, b));
    }
}

/// Apply round trip on sequences: applying the hunks of any script from
/// `old` to `new` (so those of `diff(old, new)`) to `old` gives `new`.
pub proof fn lemma_apply_round_trip<A>(e: Seq<Edit<A>>, old: Seq<A>, new: Seq<A>)
    requires
        is_script(e, old, new),
    ensures
        apply_model(old, hunks_of(e)) == Ok::<Seq<A>, int>(new),
{
    let hs = hunks_of(e);
    let (sa, sb) = lemma_hunks_spans(e);
    if old.len() == 0 {
        lemma_inserted_is_new_side(e);
        lemma_all_inserted_spans(e, hs, sa, sb, hs.len() as int);
        assert(hs.subrange(0, hs.len() as int) =~= hs);
        let p = span_before(sb, hs.len() as int);
        if p < e.len() {
            assert(e[p] is Equal);
        }
        assert(e.subrange(0, e.len() as int) =~= e);
    } else if hs.len() == 0 {
        crate::myers::lemma_all_equal_sides(e);
    } else {
        lemma_walk_from(e, hs, sa, sb, 0);
        lemma_old_pos_end(e, 0);
    }
}

} // verus!
