//! Edit scripts and Myers' shortest-edit-script algorithm.

use vstd::prelude::*;

use crate::text::{chars_of, lemma_split_lines_len, lines_of, split_lines};

verus! {

/// One step of an edit script.
#[derive(Debug, Clone, PartialEq, Eq)]
pub enum Edit<T> {
    Insert(T),
    Delete(T),
    Equal(T),
}

impl<T> Edit<T> {
    pub open spec fn payload(self) -> T {
        match self {
            Edit::Insert(t) => t,
            Edit::Delete(t) => t,
            Edit::Equal(t) => t,
        }
    }
}

impl<T: DeepView> DeepView for Edit<T> {
    type V = Edit<T::V>;

    open spec fn deep_view(&self) -> Edit<T::V> {
        match self {
            Edit::Insert(t) => Edit::Insert(t.deep_view()),
            Edit::Delete(t) => Edit::Delete(t.deep_view()),
            Edit::Equal(t) => Edit::Equal(t.deep_view()),
        }
    }
}

/// The abstract values of a sequence of elements.
pub open spec fn models<T: DeepView>(s: Seq<T>) -> Seq<T::V> {
    s.map_values(|t: T| t.deep_view())
}

/// What an edit script reads from the original: the payloads of every edit but inserts.
pub open spec fn old_side<A>(edits: Seq<Edit<A>>) -> Seq<A>
    decreases edits.len(),
{
    if edits.len() == 0 {
        Seq::empty()
    } else {
        let rest = old_side(edits.drop_first());
        match edits[0] {
            Edit::Insert(_) => rest,
            Edit::Delete(t) => seq![t] + rest,
            Edit::Equal(t) => seq![t] + rest,
        }
    }
}

/// What an edit script produces: the payloads of every edit but deletes.
pub open spec fn new_side<A>(edits: Seq<Edit<A>>) -> Seq<A>
    decreases edits.len(),
{
    if edits.len() == 0 {
        Seq::empty()
    } else {
        let rest = new_side(edits.drop_first());
        match edits[0] {
            Edit::Insert(t) => seq![t] + rest,
            Edit::Delete(_) => rest,
            Edit::Equal(t) => seq![t] + rest,
        }
    }
}

/// `edits` turns `old` into `new`.
pub open spec fn is_script<A>(edits: Seq<Edit<A>>, old: Seq<A>, new: Seq<A>) -> bool {
    old_side(edits) == old && new_side(edits) == new
}

/// How many edits of a script keep an element.
pub open spec fn count_equal<A>(edits: Seq<Edit<A>>) -> nat
    decreases edits.len(),
{
    if edits.len() == 0 {
        0
    } else {
        (if edits[0] is Equal { 1nat } else { 0nat }) + count_equal(edits.drop_first())
    }
}

/// How many edits of a script insert an element.
pub open spec fn count_insert<A>(edits: Seq<Edit<A>>) -> nat
    decreases edits.len(),
{
    if edits.len() == 0 {
        0
    } else {
        (if edits[0] is Insert { 1nat } else { 0nat }) + count_insert(edits.drop_first())
    }
}

/// How many edits of a script delete an element.
pub open spec fn count_delete<A>(edits: Seq<Edit<A>>) -> nat
    decreases edits.len(),
{
    if edits.len() == 0 {
        0
    } else {
        (if edits[0] is Delete { 1nat } else { 0nat }) + count_delete(edits.drop_first())
    }
}

pub open spec fn all_inserts<A>(s: Seq<A>) -> Seq<Edit<A>> {
    s.map_values(|t: A| Edit::Insert(t))
}

pub open spec fn all_deletes<A>(s: Seq<A>) -> Seq<Edit<A>> {
    s.map_values(|t: A| Edit::Delete(t))
}

pub open spec fn all_equals<A>(s: Seq<A>) -> Seq<Edit<A>> {
    s.map_values(|t: A| Edit::Equal(t))
}

pub proof fn lemma_sides_prepend<A>(e: Edit<A>, s: Seq<Edit<A>>)
    ensures
        old_side(seq![e] + s) == (if e is Insert { old_side(s) } else { seq![e.payload()] + old_side(s) }),
        new_side(seq![e] + s) == (if e is Delete { new_side(s) } else { seq![e.payload()] + new_side(s) }),
{
    assert((seq![e] + s).drop_first() =~= s);
}

pub proof fn lemma_sides_concat<A>(a: Seq<Edit<A>>, b: Seq<Edit<A>>)
    ensures
        old_side(a + b) == old_side(a) + old_side(b),
        new_side(a + b) == new_side(a) + new_side(b),
    decreases a.len(),
{
    if a.len() == 0 {
        assert(a + b =~= b);
        assert(old_side(a) + old_side(b) =~= old_side(b));
        assert(new_side(a) + new_side(b) =~= new_side(b));
    } else {
        lemma_sides_concat(a.drop_first(), b);
        assert((a + b).drop_first() =~= a.drop_first() + b);
        assert(old_side(a) + old_side(b) =~= (if a[0] is Insert { old_side(a.drop_first()) + old_side(b) } else {
            seq![a[0].payload()] + (old_side(a.drop_first()) + old_side(b))
        }));
        assert(new_side(a) + new_side(b) =~= (if a[0] is Delete { new_side(a.drop_first()) + new_side(b) } else {
            seq![a[0].payload()] + (new_side(a.drop_first()) + new_side(b))
        }));
    }
}

/// Length conservation: in every script from `old` to `new` (every result
/// of `diff` is one), deletes and equals together number `|old|`, and
/// inserts and equals together number `|new|`.
pub proof fn lemma_length_conservation<A>(d: Seq<Edit<A>>, old: Seq<A>, new: Seq<A>)
    requires
        is_script(d, old, new),
    ensures
        count_delete(d) + count_equal(d) == old.len(),
        count_insert(d) + count_equal(d) == new.len(),
{
    lemma_side_lengths(d);
}

/// Each side of a script is as long as the edits that touch it.
pub proof fn lemma_side_lengths<A>(edits: Seq<Edit<A>>)
    ensures
        old_side(edits).len() == count_delete(edits) + count_equal(edits),
        new_side(edits).len() == count_insert(edits) + count_equal(edits),
    decreases edits.len(),
{
    if edits.len() > 0 {
        lemma_side_lengths(edits.drop_first());
    }
}

/// A value that edit scripts can carry: it can be compared with another of
/// its type and copied, both faithfully to its abstract value.
pub trait Element: DeepView + Sized {
    fn same(&self, other: &Self) -> (r: bool)
        ensures
            r == (self.deep_view() == other.deep_view()),
    ;

    fn duplicate(&self) -> (r: Self)
        ensures
            r.deep_view() == self.deep_view(),
    ;
}

impl Element for u8 {
    fn same(&self, other: &u8) -> (r: bool) {
        *self == *other
    }

    fn duplicate(&self) -> (r: u8) {
        *self
    }
}

impl Element for u16 {
    fn same(&self, other: &u16) -> (r: bool) {
        *self == *other
    }

    fn duplicate(&self) -> (r: u16) {
        *self
    }
}

impl Element for u32 {
    fn same(&self, other: &u32) -> (r: bool) {
        *self == *other
    }

    fn duplicate(&self) -> (r: u32) {
        *self
    }
}

impl Element for u64 {
    fn same(&self, other: &u64) -> (r: bool) {
        *self == *other
    }

    fn duplicate(&self) -> (r: u64) {
        *self
    }
}

impl Element for u128 {
    fn same(&self, other: &u128) -> (r: bool) {
        *self == *other
    }

    fn duplicate(&self) -> (r: u128) {
        *self
    }
}

impl Element for usize {
    fn same(&self, other: &usize) -> (r: bool) {
        *self == *other
    }

    fn duplicate(&self) -> (r: usize) {
        *self
    }
}

impl Element for i8 {
    fn same(&self, other: &i8) -> (r: bool) {
        *self == *other
    }

    fn duplicate(&self) -> (r: i8) {
        *self
    }
}

impl Element for i16 {
    fn same(&self, other: &i16) -> (r: bool) {
        *self == *other
    }

    fn duplicate(&self) -> (r: i16) {
        *self
    }
}

impl Element for i32 {
    fn same(&self, other: &i32) -> (r: bool) {
        *self == *other
    }

    fn duplicate(&self) -> (r: i32) {
        *self
    }
}

impl Element for i64 {
    fn same(&self, other: &i64) -> (r: bool) {
        *self == *other
    }

    fn duplicate(&self) -> (r: i64) {
        *self
    }
}

impl Element for i128 {
    fn same(&self, other: &i128) -> (r: bool) {
        *self == *other
    }

    fn duplicate(&self) -> (r: i128) {
        *self
    }
}

impl Element for isize {
    fn same(&self, other: &isize) -> (r: bool) {
        *self == *other
    }

    fn duplicate(&self) -> (r: isize) {
        *self
    }
}

impl Element for bool {
    fn same(&self, other: &bool) -> (r: bool) {
        *self == *other
    }

    fn duplicate(&self) -> (r: bool) {
        *self
    }
}

impl Element for char {
    fn same(&self, other: &char) -> (r: bool) {
        *self == *other
    }

    fn duplicate(&self) -> (r: char) {
        *self
    }
}

impl Element for String {
    fn same(&self, other: &String) -> (r: bool) {
        *self == *other
    }

    fn duplicate(&self) -> (r: String) {
        self.clone()
    }
}

/// Two string slices are equal exactly when they hold the same characters.
fn str_eq(a: &str, b: &str) -> (r: bool)
    ensures
        r == (a@ == b@),
{
    let x = chars_of(a);
    let y = chars_of(b);
    if x.len() != y.len() {
        return false;
    }
    let mut i: usize = 0;
    while i < x.len()
        invariant
            x@ == a@,
            y@ == b@,
            x@.len() == y@.len(),
            i <= x@.len(),
            forall|q: int| 0 <= q < i ==> x@[q] == y@[q],
        decreases x@.len() - i,
    {
        if x[i] != y[i] {
            return false;
        }
        i += 1;
    }
    assert(x@ =~= y@);
    true
}

impl<'a> Element for &'a str {
    fn same(&self, other: &&'a str) -> (r: bool) {
        str_eq(*self, *other)
    }

    fn duplicate(&self) -> (r: &'a str) {
        *self
    }
}

/// The longest pair of inputs the engine takes, counted in elements on both
/// sides together: its diagonal arithmetic runs on `isize`.
pub open spec fn fits(n: int, m: int) -> bool {
    n + m <= isize::MAX / 8
}

/// The furthest-reaching endpoint on each diagonal `k` of the edit graph,
/// stored at `k + offset`.
struct V {
    data: Vec<usize>,
    offset: isize,
}

impl V {
    spec fn wf(&self, size: int) -> bool {
        &&& self.offset == size
        &&& self.data@.len() == 2 * size + 1
    }

    spec fn vals(&self) -> Seq<int> {
        self.data@.map_values(|x: usize| x as int)
    }

    spec fn at(&self, k: int) -> usize {
        self.data@[k + self.offset]
    }

    spec fn bounded(&self, b: int) -> bool {
        forall|i: int| 0 <= i < self.data@.len() ==> self.data@[i] <= b
    }

    fn new(size: usize) -> (r: V)
        requires
            size <= isize::MAX / 8,
        ensures
            r.wf(size as int),
            r.bounded(0),
    {
        let len: usize = 2 * size + 1;
        let mut data: Vec<usize> = Vec::new();
        while data.len() < len
            invariant
                data@.len() <= len,
                forall|i: int| 0 <= i < data@.len() ==> data@[i] == 0,
            decreases len - data@.len(),
        {
            data.push(0);
        }
        V { data, offset: size as isize }
    }

    fn get(&self, k: isize) -> (r: usize)
        requires
            self.data@.len() == 2 * self.offset + 1,
            0 <= self.offset <= isize::MAX / 8,
            -self.offset <= k <= self.offset,
        ensures
            r == self.at(k as int),
    {
        self.data[(k + self.offset) as usize]
    }

    fn set(&mut self, k: isize, val: usize)
        requires
            old(self).data@.len() == 2 * old(self).offset + 1,
            0 <= old(self).offset <= isize::MAX / 8,
            -old(self).offset <= k <= old(self).offset,
        ensures
            final(self).offset == old(self).offset,
            final(self).data@ == old(self).data@.update(k + old(self).offset, val),
    {
        self.data.set((k + self.offset) as usize, val);
    }

    fn snapshot(&self) -> (r: V)
        ensures
            r.offset == self.offset,
            r.data@ == self.data@,
    {
        let mut data: Vec<usize> = Vec::new();
        let mut i: usize = 0;
        while i < self.data.len()
            invariant
                i <= self.data@.len(),
                data@ == self.data@.subrange(0, i as int),
            decreases self.data@.len() - i,
        {
            data.push(self.data[i]);
            i += 1;
            assert(data@ =~= self.data@.subrange(0, i as int));
        }
        assert(data@ =~= self.data@);
        V { data, offset: self.offset }
    }
}

/// How far the snake on diagonal `k` runs from `x`: it follows equal
/// elements of `a` and `b`.
pub open spec fn snake_end<A>(a: Seq<A>, b: Seq<A>, x: int, k: int) -> int
    decreases a.len() - x,
{
    if 0 <= x < a.len() && 0 <= x - k < b.len() && a[x] == b[x - k] {
        snake_end(a, b, x + 1, k)
    } else {
        x
    }
}

/// Where diagonal `k` starts in round `d`: one step down from `k + 1`, or one
/// step right from `k - 1` when that reaches at least as far.
pub open spec fn start_x(v: Seq<int>, off: int, d: int, k: int) -> int {
    if k == -d {
        v[k + 1 + off]
    } else if k == d {
        v[k - 1 + off] + 1
    } else if v[k + 1 + off] >= v[k - 1 + off] + 1 {
        v[k + 1 + off]
    } else {
        v[k - 1 + off] + 1
    }
}

/// Round `d` of the forward pass from diagonal `k` on: the furthest points,
/// and whether the end of both sequences was reached.
pub open spec fn round<A>(a: Seq<A>, b: Seq<A>, v: Seq<int>, off: int, d: int, k: int) -> (Seq<int>, bool)
    decreases d + 2 - k,
{
    if k > d {
        (v, false)
    } else {
        let x = snake_end(a, b, start_x(v, off, d, k), k);
        let v2 = v.update(k + off, x);
        if x >= a.len() && x - k >= b.len() {
            (v2, true)
        } else {
            round(a, b, v2, off, d, k + 2)
        }
    }
}

/// The furthest points after each round from `d` on, until the end is
/// reached or `maxi` rounds are done.
pub open spec fn forward<A>(a: Seq<A>, b: Seq<A>, v: Seq<int>, off: int, d: int, maxi: int) -> Seq<Seq<int>>
    decreases maxi + 1 - d,
{
    if d > maxi {
        Seq::empty()
    } else {
        let (v2, done) = round(a, b, v, off, d, -d);
        if done {
            seq![v2]
        } else {
            seq![v2] + forward(a, b, v2, off, d + 1, maxi)
        }
    }
}

/// How many equal elements lie before `(x, y)` going back towards
/// `(px, py)`.
pub open spec fn unsnake<A>(a: Seq<A>, b: Seq<A>, x: int, y: int, px: int, py: int) -> nat
    decreases x,
{
    if x > px && y > py && y > 0 && x > 0 && x <= a.len() && y <= b.len() && a[x - 1] == b[y - 1] {
        1 + unsnake(a, b, x - 1, y - 1, px, py)
    } else {
        0
    }
}

/// What remains before `(x, y)` once the trace is used up: equal elements,
/// and what is left of each side, inserted and deleted.
pub open spec fn back_tail<A>(a: Seq<A>, b: Seq<A>, x: int, y: int) -> Seq<Edit<A>> {
    let s = unsnake(a, b, x, y, 0, 0) as int;
    all_inserts(b.subrange(0, y - s)) + all_deletes(a.subrange(0, x - s)) + all_equals(a.subrange(x - s, x))
}

/// The edits of the path that the trace levels below `d` record, ending at
/// `(x, y)`.
pub open spec fn back<A>(a: Seq<A>, b: Seq<A>, trace: Seq<Seq<int>>, off: int, d: int, x: int, y: int) -> Seq<Edit<A>>
    decreases d,
{
    if d <= 0 {
        back_tail(a, b, x, y)
    } else {
        let dd = d - 1;
        let tr = trace[dd];
        let k = x - y;
        let pk = if k == -dd {
            k + 1
        } else if k == dd || tr[k - 1 + off] + 1 >= tr[k + 1 + off] {
            k - 1
        } else {
            k + 1
        };
        let px = tr[pk + off];
        let py = px - pk;
        let s = unsnake(a, b, x, y, px, py) as int;
        let x1 = x - s;
        let y1 = y - s;
        let eqs = all_equals(a.subrange(x1, x));
        if dd > 0 && pk == k - 1 && x1 > 0 {
            back(a, b, trace, off, dd, x1 - 1, y1) + seq![Edit::Delete(a[x1 - 1])] + eqs
        } else if dd > 0 && y1 > 0 {
            back(a, b, trace, off, dd, x1, y1 - 1) + seq![Edit::Insert(b[y1 - 1])] + eqs
        } else if dd > 0 && x1 > 0 {
            back(a, b, trace, off, dd, x1 - 1, y1) + seq![Edit::Delete(a[x1 - 1])] + eqs
        } else {
            back(a, b, trace, off, dd, x1, y1) + eqs
        }
    }
}

/// The script Myers' algorithm gives: the forward pass records the furthest
/// point on each diagonal after each round, and the walk back follows those
/// points, preferring at a tie the step that came from a deletion.
pub open spec fn myers_script<A>(a: Seq<A>, b: Seq<A>) -> Seq<Edit<A>> {
    if a.len() == 0 {
        all_inserts(b)
    } else if b.len() == 0 {
        all_deletes(a)
    } else {
        let maxi = (a.len() + b.len()) as int;
        let v0 = Seq::new((2 * maxi + 1) as nat, |i: int| 0int);
        let trace = forward(a, b, v0, maxi, 0, maxi);
        back(a, b, trace, maxi, trace.len() as int, a.len() as int, b.len() as int)
    }
}

spec fn trace_vals(t: Seq<V>) -> Seq<Seq<int>> {
    t.map_values(|v: V| v.vals())
}

/// Computes the edit script from `old` to `new` that Myers' algorithm
/// gives (`myers_script`).
///
/// Non-insert payloads spell `old`, non-delete payloads spell `new`. An
/// empty side gives only inserts or only deletes; equal inputs give only
/// `Equal`s. When an insertion and a deletion meet at one place the
/// insertion comes first.
pub fn diff<T: Element>(old: &[T], new: &[T]) -> (r: Vec<Edit<T>>)
    requires
        fits(old@.len() as int, new@.len() as int),
    ensures
        is_script(models(r@), models(old@), models(new@)),
        old@.len() == 0 ==> models(r@) == all_inserts(models(new@)),
        new@.len() == 0 ==> models(r@) == all_deletes(models(old@)),
        models(old@) == models(new@) ==> models(r@) == all_equals(models(old@)),
        models(r@) == myers_script(models(old@), models(new@)),
{
    if old.len() == 0 {
        let mut r: Vec<Edit<T>> = Vec::new();
        let mut j: usize = 0;
        while j < new.len()
            invariant
                j <= new@.len(),
                r@.len() == j,
                forall|q: int| 0 <= q < j ==> r@[q].deep_view() == Edit::Insert(new@[q].deep_view()),
            decreases new@.len() - j,
        {
            let t = new[j].duplicate();
            r.push(Edit::Insert(t));
            j += 1;
        }
        assert(models(r@) =~= all_inserts(models(new@)));
        proof { lemma_inserts_script(models(new@)); }
        assert(models(old@) =~= Seq::<T::V>::empty());
        return r;
    }
    if new.len() == 0 {
        let mut r: Vec<Edit<T>> = Vec::new();
        let mut i: usize = 0;
        while i < old.len()
            invariant
                i <= old@.len(),
                r@.len() == i,
                forall|q: int| 0 <= q < i ==> r@[q].deep_view() == Edit::Delete(old@[q].deep_view()),
            decreases old@.len() - i,
        {
            let t = old[i].duplicate();
            r.push(Edit::Delete(t));
            i += 1;
        }
        assert(models(r@) =~= all_deletes(models(old@)));
        proof { lemma_deletes_script(models(old@)); }
        assert(models(new@) =~= Seq::<T::V>::empty());
        return r;
    }
    let n = old.len();
    let m = new.len();
    let maxi = n + m;
    let ghost mo = models(old@);
    let ghost mn = models(new@);
    let ghost same_inputs = mo == mn;
    assert(same_inputs ==> mo.len() == mn.len());
    let mut v = V::new(maxi);
    let mut trace: Vec<V> = Vec::new();
    let mut d: usize = 0;
    let mut done = false;
    let ghost off = maxi as int;
    let ghost v0 = Seq::new((2 * off + 1) as nat, |i: int| 0int);
    let ghost full = forward(mo, mn, v0, off, 0, off);
    assert(v.vals() =~= v0);
    assert(trace_vals(trace@) + full =~= full);
    while d <= maxi && !done
        invariant
            off == maxi as int,
            full == forward(mo, mn, v0, off, 0, off),
            !done ==> trace_vals(trace@) + forward(mo, mn, v.vals(), off, d as int, off) == full,
            done ==> trace_vals(trace@) == full,
            n == old@.len(),
            m == new@.len(),
            n > 0,
            m > 0,
            maxi == n + m,
            fits(n as int, m as int),
            v.wf(maxi as int),
            v.bounded(n + d),
            d <= maxi + 1,
            d == 0 ==> v.bounded(0),
            trace@.len() <= d,
            forall|t: int| 0 <= t < trace@.len() ==> trace@[t].wf(maxi as int) && trace@[t].bounded(
                2 * maxi + 1,
            ),
            same_inputs ==> n == m,
            same_inputs == (mo == mn),
            mo == models(old@),
            mn == models(new@),
            same_inputs ==> (done && trace@.len() == 1) || (!done && d == 0 && trace@.len() == 0),
        decreases maxi + 1 - d,
    {
        let di = d as isize;
        let mut k: isize = -di;
        let ghost vstart = v.vals();
        let ghost tv0 = trace_vals(trace@);
        while k <= di && !done
            invariant
                off == maxi as int,
                full == forward(mo, mn, v0, off, 0, off),
                tv0 + forward(mo, mn, vstart, off, d as int, off) == full,
                !done ==> trace_vals(trace@) == tv0 && round(mo, mn, vstart, off, d as int, -d) == round(
                    mo,
                    mn,
                    v.vals(),
                    off,
                    d as int,
                    k as int,
                ),
                done ==> trace_vals(trace@) == tv0.push(v.vals()) && round(mo, mn, vstart, off, d as int, -d) == (
                v.vals(),
                true,
                ),
                n == old@.len(),
                m == new@.len(),
                n > 0,
                m > 0,
                maxi == n + m,
                fits(n as int, m as int),
                d <= maxi,
                di == d,
                -di <= k <= di + 2,
                v.wf(maxi as int),
                (k + di) % 2 == 0,
                forall|i: int|
                    0 <= i < v.data@.len() ==> #[trigger] v.data@[i] <= (if (i - maxi + d) % 2 == 0 && -di <= i
                        - maxi < k { n + d + 1 } else { n + d }),
                d == 0 && k == 0 ==> v.bounded(0),
                trace@.len() <= d + 1,
                !done ==> trace@.len() <= d,
                forall|t: int| 0 <= t < trace@.len() ==> trace@[t].wf(maxi as int) && trace@[t].bounded(
                    2 * maxi + 1,
                ),
                same_inputs ==> n == m,
                same_inputs == (mo == mn),
                mo == models(old@),
                mn == models(new@),
                same_inputs ==> (done && trace@.len() == 1) || (!done && d == 0 && k == 0 && trace@.len() == 0),
            decreases di + 2 - k,
        {
            let mut x: usize = if k == -di {
                v.get(k + 1)
            } else if k == di {
                v.get(k - 1) + 1
            } else {
                let down = v.get(k + 1);
                let right = v.get(k - 1) + 1;
                if down >= right {
                    down
                } else {
                    right
                }
            };
            let ghost vcur = v.vals();
            let ghost x0 = x as int;
            assert(x0 == start_x(vcur, off, d as int, k as int));
            let mut y: isize = x as isize - k;
            while x < n && 0 <= y && (y as usize) < m && old[x].same(&new[y as usize])
                invariant
                    snake_end(mo, mn, x0, k as int) == snake_end(mo, mn, x as int, k as int),
                    n == old@.len(),
                    m == new@.len(),
                    y == x - k,
                    x <= n + d + 1,
                    -di <= k <= di,
                    fits(n as int, m as int),
                    d <= maxi,
                    maxi == n + m,
                    same_inputs ==> x == y,
                    same_inputs ==> n == m,
                    same_inputs == (mo == mn),
                    mo == models(old@),
                    mn == models(new@),
                decreases n - x,
            {
                x += 1;
                y += 1;
            }
            proof {
                if same_inputs && x < n {
                    assert(mo[x as int] == mn[x as int]);
                }
                if x < n && 0 <= y < m {
                    assert(mo[x as int] != mn[y as int]);
                }
                assert(snake_end(mo, mn, x as int, k as int) == x as int);
            }
            v.set(k, x);
            assert(v.vals() =~= vcur.update(k + off, x as int));
            if x >= n && y >= m as isize {
                let snap = v.snapshot();
                let ghost tb = trace@;
                trace.push(snap);
                assert(trace_vals(trace@) =~= trace_vals(tb).push(snap.vals()));
                assert(snap.vals() =~= v.vals());
                done = true;
            }
            k += 2;
        }
        if !done {
            let snap = v.snapshot();
            let ghost tb = trace@;
            trace.push(snap);
            assert(trace_vals(trace@) =~= trace_vals(tb).push(snap.vals()));
            assert(snap.vals() =~= v.vals());
            assert(tv0 + forward(mo, mn, vstart, off, d as int, off) =~= trace_vals(trace@) + forward(
                mo,
                mn,
                v.vals(),
                off,
                d + 1,
                off,
            ));
        } else {
            assert(tv0 + forward(mo, mn, vstart, off, d as int, off) =~= trace_vals(trace@));
        }
        d += 1;
    }
    assert(trace_vals(trace@) == full) by {
        if !done {
            assert(forward(mo, mn, v.vals(), off, d as int, off) =~= Seq::<Seq<int>>::empty());
            assert(trace_vals(trace@) + Seq::<Seq<int>>::empty() =~= trace_vals(trace@));
        }
    }
    let ghost tr_full = trace_vals(trace@);
    let ghost tlen = trace@.len() as int;
    let r = traceback(old, new, trace, n, m);
    proof {
        let maxi2 = (mo.len() + mn.len()) as int;
        assert(v0 =~= Seq::new((2 * maxi2 + 1) as nat, |i: int| 0int));
        assert(tr_full.len() == tlen);
        if same_inputs {
            lemma_equal_script(models(r@));
        }
    }
    r
}

pub proof fn lemma_equal_script<A>(e: Seq<Edit<A>>)
    requires
        forall|i: int| 0 <= i < e.len() ==> e[i] is Equal,
    ensures
        e == all_equals(old_side(e)),
    decreases e.len(),
{
    if e.len() > 0 {
        let rest = e.drop_first();
        lemma_equal_script(rest);
        let t = e[0].payload();
        assert(e[0] == Edit::Equal(t));
        assert(old_side(e) == seq![t] + old_side(rest));
        assert(all_equals(seq![t] + old_side(rest)) =~= seq![Edit::Equal(t)] + all_equals(old_side(rest)));
        assert(e =~= seq![e[0]] + rest);
    } else {
        assert(e =~= all_equals(old_side(e)));
    }
}

/// A script of only `Equal`s reads what it writes.
pub proof fn lemma_all_equal_sides<A>(e: Seq<Edit<A>>)
    requires
        forall|i: int| 0 <= i < e.len() ==> (#[trigger] e[i]) is Equal,
    ensures
        old_side(e) == new_side(e),
    decreases e.len(),
{
    if e.len() > 0 {
        assert forall|i: int| 0 <= i < e.drop_first().len() implies (#[trigger] e.drop_first()[i]) is Equal by {
            assert(e.drop_first()[i] == e[i + 1]);
        }
        lemma_all_equal_sides(e.drop_first());
    }
}

pub proof fn lemma_equals_script<A>(s: Seq<A>)
    ensures
        is_script(all_equals(s), s, s),
    decreases s.len(),
{
    if s.len() > 0 {
        lemma_equals_script(s.drop_first());
        assert(all_equals(s) =~= seq![Edit::Equal(s[0])] + all_equals(s.drop_first()));
        lemma_sides_prepend(Edit::Equal(s[0]), all_equals(s.drop_first()));
        assert(s =~= seq![s[0]] + s.drop_first());
    } else {
        assert(all_equals(s) =~= Seq::<Edit<A>>::empty());
        assert(s =~= Seq::<A>::empty());
    }
}

pub proof fn lemma_inserts_script<A>(s: Seq<A>)
    ensures
        is_script(all_inserts(s), Seq::empty(), s),
    decreases s.len(),
{
    if s.len() > 0 {
        lemma_inserts_script(s.drop_first());
        assert(all_inserts(s) =~= seq![Edit::Insert(s[0])] + all_inserts(s.drop_first()));
        lemma_sides_prepend(Edit::Insert(s[0]), all_inserts(s.drop_first()));
        assert(s =~= seq![s[0]] + s.drop_first());
    } else {
        assert(all_inserts(s) =~= Seq::<Edit<A>>::empty());
        assert(s =~= Seq::<A>::empty());
    }
}

pub proof fn lemma_deletes_script<A>(s: Seq<A>)
    ensures
        is_script(all_deletes(s), s, Seq::empty()),
    decreases s.len(),
{
    if s.len() > 0 {
        lemma_deletes_script(s.drop_first());
        assert(all_deletes(s) =~= seq![Edit::Delete(s[0])] + all_deletes(s.drop_first()));
        lemma_sides_prepend(Edit::Delete(s[0]), all_deletes(s.drop_first()));
        assert(s =~= seq![s[0]] + s.drop_first());
    } else {
        assert(all_deletes(s) =~= Seq::<Edit<A>>::empty());
        assert(s =~= Seq::<A>::empty());
    }
}

/// Walks the trace of the forward pass back from `(x, y)` and emits the
/// edits of the path it recorded, first to last.
#[verifier::rlimit(100)]
fn traceback<T: Element>(old: &[T], new: &[T], trace: Vec<V>, x: usize, y: usize) -> (r: Vec<Edit<T>>)
    requires
        old@.len() > 0,
        new@.len() > 0,
        fits(old@.len() as int, new@.len() as int),
        x == old@.len(),
        y == new@.len(),
        trace@.len() <= old@.len() + new@.len() + 1,
        forall|t: int| 0 <= t < trace@.len() ==> trace@[t].wf((old@.len() + new@.len()) as int) && trace@[t].bounded(
            (2 * (old@.len() + new@.len()) + 1) as int,
        ),
    ensures
        is_script(models(r@), models(old@), models(new@)),
        models(old@) == models(new@) && trace@.len() == 1 ==> forall|i: int| 0 <= i < r@.len() ==> r@[i] is Equal,
        models(r@) == back(
            models(old@),
            models(new@),
            trace_vals(trace@),
            (old@.len() + new@.len()) as int,
            trace@.len() as int,
            old@.len() as int,
            new@.len() as int,
        ),
{
    let n = old.len();
    let m = new.len();
    let ghost maxi = n + m;
    let ghost mo = models(old@);
    let ghost mn = models(new@);
    let ghost single = mo == mn && trace@.len() == 1;
    let mut x = x;
    let mut y = y;
    let mut rev: Vec<Edit<T>> = Vec::new();
    let ghost mut acc: Seq<Edit<T::V>> = Seq::empty();
    assert(mo.subrange(x as int, n as int) =~= Seq::<T::V>::empty());
    assert(mn.subrange(y as int, m as int) =~= Seq::<T::V>::empty());
    let mut d: usize = trace.len();
    let ghost tv = trace_vals(trace@);
    let ghost off = (n + m) as int;
    let ghost goal = back(mo, mn, tv, off, d as int, n as int, m as int);
    assert(goal + acc =~= goal);
    while d > 0
        invariant
            tv == trace_vals(trace@),
            off == (n + m) as int,
            goal == back(mo, mn, tv, off, d as int, x as int, y as int) + acc,
            n == old@.len(),
            m == new@.len(),
            n > 0,
            m > 0,
            fits(n as int, m as int),
            mo == models(old@),
            mn == models(new@),
            x <= n,
            y <= m,
            d <= trace@.len(),
            trace@.len() <= n + m + 1,
            forall|t: int| 0 <= t < trace@.len() ==> trace@[t].wf(n + m) && trace@[t].bounded(2 * (n + m) + 1),
            rev@.len() == acc.len(),
            forall|i: int| 0 <= i < acc.len() ==> rev@[i].deep_view() == acc[acc.len() - 1 - i],
            is_script(acc, mo.subrange(x as int, n as int), mn.subrange(y as int, m as int)),
            single ==> x == y && d <= 1 && forall|i: int| 0 <= i < acc.len() ==> acc[i] is Equal,
        decreases d,
    {
        d -= 1;
        let di = d as isize;
        let k: isize = x as isize - y as isize;
        let prev_k: isize = if k == -di {
            k + 1
        } else if k == di || trace[d].get(k - 1) + 1 >= trace[d].get(k + 1) {
            k - 1
        } else {
            k + 1
        };
        let prev_x: usize = trace[d].get(prev_k);
        let prev_y: isize = prev_x as isize - prev_k;
        let ghost x0 = x as int;
        let ghost y0 = y as int;
        let ghost acc0 = acc;
        assert(acc =~= all_equals(mo.subrange(x as int, x0)) + acc0);
        while x > prev_x && y as isize > prev_y && y > 0 && old[x - 1].same(&new[y - 1])
            invariant
                unsnake(mo, mn, x0, y0, prev_x as int, prev_y as int) == (x0 - x) + unsnake(
                    mo,
                    mn,
                    x as int,
                    y as int,
                    prev_x as int,
                    prev_y as int,
                ),
                x0 - x == y0 - y,
                x <= x0,
                acc == all_equals(mo.subrange(x as int, x0)) + acc0,
                n == old@.len(),
                m == new@.len(),
                mo == models(old@),
                mn == models(new@),
                x <= n,
                y <= m,
                fits(n as int, m as int),
                prev_x <= 2 * (n + m) + 1,
                rev@.len() == acc.len(),
                forall|i: int| 0 <= i < acc.len() ==> rev@[i].deep_view() == acc[acc.len() - 1 - i],
                is_script(acc, mo.subrange(x as int, n as int), mn.subrange(y as int, m as int)),
                single ==> x == y && forall|i: int| 0 <= i < acc.len() ==> acc[i] is Equal,
            decreases x,
        {
            let e = Edit::Equal(old[x - 1].duplicate());
            proof {
                lemma_sides_prepend(e.deep_view(), acc);
                acc = seq![e.deep_view()] + acc;
            }
            rev.push(e);
            x -= 1;
            y -= 1;
            assert(mo.subrange(x as int, n as int) =~= seq![mo[x as int]] + mo.subrange(x + 1, n as int));
            assert(mn.subrange(y as int, m as int) =~= seq![mn[y as int]] + mn.subrange(y + 1, m as int));
            assert(all_equals(mo.subrange(x as int, x0)) =~= seq![Edit::Equal(mo[x as int])] + all_equals(
                mo.subrange(x + 1, x0),
            ));
        }
        proof {
            if x > prev_x && y as int > prev_y as int && y > 0 {
                assert(mo[x - 1] != mn[y - 1]);
            }
            assert(unsnake(mo, mn, x as int, y as int, prev_x as int, prev_y as int) == 0);
            assert(tv[d as int] == trace@[d as int].vals());
        }
        let ghost xs = x as int;
        let ghost ys = y as int;
        let ghost eqs_acc = acc;
        // One step back along the recorded path: a move right is a deletion,
        // a move down an insertion. Each step moves one position, so every
        // emitted edit reads an element that is there.
        if d > 0 {
            if prev_k == k - 1 && x > 0 {
                let e = Edit::Delete(old[x - 1].duplicate());
                proof {
                    lemma_sides_prepend(e.deep_view(), acc);
                    acc = seq![e.deep_view()] + acc;
                }
                rev.push(e);
                x -= 1;
                assert(mo.subrange(x as int, n as int) =~= seq![mo[x as int]] + mo.subrange(x + 1, n as int));
            } else if y > 0 {
                let e = Edit::Insert(new[y - 1].duplicate());
                proof {
                    lemma_sides_prepend(e.deep_view(), acc);
                    acc = seq![e.deep_view()] + acc;
                }
                rev.push(e);
                y -= 1;
                assert(mn.subrange(y as int, m as int) =~= seq![mn[y as int]] + mn.subrange(y + 1, m as int));
            } else if x > 0 {
                let e = Edit::Delete(old[x - 1].duplicate());
                proof {
                    lemma_sides_prepend(e.deep_view(), acc);
                    acc = seq![e.deep_view()] + acc;
                }
                rev.push(e);
                x -= 1;
                assert(mo.subrange(x as int, n as int) =~= seq![mo[x as int]] + mo.subrange(x + 1, n as int));
            }
        }
        proof {
            let dd = d as int;
            let stepped = if acc.len() > eqs_acc.len() { seq![acc[0]] } else { Seq::<Edit<T::V>>::empty() };
            assert(back(mo, mn, tv, off, dd + 1, x0, y0) == back(mo, mn, tv, off, dd, x as int, y as int) + stepped
                + all_equals(mo.subrange(xs, x0)));
            if acc.len() > eqs_acc.len() {
                assert(acc =~= seq![acc[0]] + eqs_acc);
            }
            assert(back(mo, mn, tv, off, dd, x as int, y as int) + stepped + all_equals(mo.subrange(xs, x0))
                + acc0 =~= back(mo, mn, tv, off, dd, x as int, y as int) + acc);
        }
    }
    let ghost x0 = x as int;
    let ghost y0 = y as int;
    let ghost acc0 = acc;
    assert(acc =~= all_equals(mo.subrange(x as int, x0)) + acc0);
    while x > 0 && y > 0 && old[x - 1].same(&new[y - 1])
        invariant
            unsnake(mo, mn, x0, y0, 0, 0) == (x0 - x) + unsnake(mo, mn, x as int, y as int, 0, 0),
            x0 - x == y0 - y,
            x <= x0,
            acc == all_equals(mo.subrange(x as int, x0)) + acc0,
            n == old@.len(),
            m == new@.len(),
            mo == models(old@),
            mn == models(new@),
            x <= n,
            y <= m,
            rev@.len() == acc.len(),
            forall|i: int| 0 <= i < acc.len() ==> rev@[i].deep_view() == acc[acc.len() - 1 - i],
            is_script(acc, mo.subrange(x as int, n as int), mn.subrange(y as int, m as int)),
            single ==> x == y && forall|i: int| 0 <= i < acc.len() ==> acc[i] is Equal,
        decreases x,
    {
        let e = Edit::Equal(old[x - 1].duplicate());
        proof {
            lemma_sides_prepend(e.deep_view(), acc);
            acc = seq![e.deep_view()] + acc;
        }
        rev.push(e);
        x -= 1;
        y -= 1;
        assert(mo.subrange(x as int, n as int) =~= seq![mo[x as int]] + mo.subrange(x + 1, n as int));
        assert(mn.subrange(y as int, m as int) =~= seq![mn[y as int]] + mn.subrange(y + 1, m as int));
        assert(all_equals(mo.subrange(x as int, x0)) =~= seq![Edit::Equal(mo[x as int])] + all_equals(
            mo.subrange(x + 1, x0),
        ));
    }
    proof {
        if x > 0 && y > 0 {
            assert(mo[x - 1] != mn[y - 1]);
        }
        assert(unsnake(mo, mn, x as int, y as int, 0, 0) == 0);
        assert(all_inserts(mn.subrange(0, y as int)) + all_deletes(mo.subrange(0, x as int)) + all_equals(
            mo.subrange(x as int, x0),
        ) + acc0 =~= all_inserts(mn.subrange(0, y as int)) + all_deletes(mo.subrange(0, x as int)) + acc);
    }
    proof {
        if single && x > 0 {
            assert(mo[x - 1] == mn[x - 1]);
        }
    }
    // The path ends at the origin; should any prefix be left, it is deleted
    // and inserted, which keeps the script valid.
    while x > 0
        invariant
            n == old@.len(),
            m == new@.len(),
            mo == models(old@),
            mn == models(new@),
            x <= n,
            y <= m,
            rev@.len() == acc.len(),
            forall|i: int| 0 <= i < acc.len() ==> rev@[i].deep_view() == acc[acc.len() - 1 - i],
            is_script(acc, mo.subrange(x as int, n as int), mn.subrange(y as int, m as int)),
            single ==> x == 0 && y == 0 && forall|i: int| 0 <= i < acc.len() ==> acc[i] is Equal,
            goal == all_inserts(mn.subrange(0, y as int)) + all_deletes(mo.subrange(0, x as int)) + acc,
        decreases x,
    {
        let e = Edit::Delete(old[x - 1].duplicate());
        proof {
            lemma_sides_prepend(e.deep_view(), acc);
            acc = seq![e.deep_view()] + acc;
        }
        rev.push(e);
        x -= 1;
        assert(mo.subrange(x as int, n as int) =~= seq![mo[x as int]] + mo.subrange(x + 1, n as int));
        assert(all_deletes(mo.subrange(0, x + 1)) =~= all_deletes(mo.subrange(0, x as int)) + seq![
            Edit::Delete(mo[x as int]),
        ]);
        assert(all_inserts(mn.subrange(0, y as int)) + all_deletes(mo.subrange(0, x + 1)) + acc.drop_first()
            =~= all_inserts(mn.subrange(0, y as int)) + all_deletes(mo.subrange(0, x as int)) + acc);
    }
    assert(all_deletes(mo.subrange(0, 0)) =~= Seq::<Edit<T::V>>::empty());
    assert(goal =~= all_inserts(mn.subrange(0, y as int)) + acc);
    while y > 0
        invariant
            n == old@.len(),
            m == new@.len(),
            mo == models(old@),
            mn == models(new@),
            x == 0,
            y <= m,
            rev@.len() == acc.len(),
            forall|i: int| 0 <= i < acc.len() ==> rev@[i].deep_view() == acc[acc.len() - 1 - i],
            is_script(acc, mo.subrange(x as int, n as int), mn.subrange(y as int, m as int)),
            single ==> y == 0 && forall|i: int| 0 <= i < acc.len() ==> acc[i] is Equal,
            goal == all_inserts(mn.subrange(0, y as int)) + acc,
        decreases y,
    {
        let e = Edit::Insert(new[y - 1].duplicate());
        proof {
            lemma_sides_prepend(e.deep_view(), acc);
            acc = seq![e.deep_view()] + acc;
        }
        rev.push(e);
        y -= 1;
        assert(mn.subrange(y as int, m as int) =~= seq![mn[y as int]] + mn.subrange(y + 1, m as int));
        assert(all_inserts(mn.subrange(0, y + 1)) =~= all_inserts(mn.subrange(0, y as int)) + seq![
            Edit::Insert(mn[y as int]),
        ]);
        assert(all_inserts(mn.subrange(0, y + 1)) + acc.drop_first() =~= all_inserts(mn.subrange(0, y as int)) + acc);
    }
    assert(all_inserts(mn.subrange(0, 0)) + acc =~= acc);
    assert(mo.subrange(0, n as int) =~= mo);
    assert(mn.subrange(0, m as int) =~= mn);
    let mut r: Vec<Edit<T>> = Vec::new();
    while rev.len() > 0
        invariant
            r@.len() + rev@.len() == acc.len(),
            forall|i: int| 0 <= i < r@.len() ==> r@[i].deep_view() == acc[i],
            forall|i: int| 0 <= i < rev@.len() ==> rev@[i].deep_view() == acc[acc.len() - 1 - i],
        decreases rev@.len(),
    {
        let e = rev.pop().unwrap();
        r.push(e);
    }
    assert(models(r@) =~= acc);
    proof {
        if single {
            assert forall|i: int| 0 <= i < r@.len() implies r@[i] is Equal by {
                assert(r@[i].deep_view() == acc[i]);
            }
        }
    }
    r
}

/// Splits both texts on `'\n'` and diffs their lines.
pub fn diff_lines(old: &str, new: &str) -> (r: Vec<Edit<String>>)
    requires
        fits(old@.len() + 1int, new@.len() + 1int),
    ensures
        is_script(models(r@), split_lines(old@), split_lines(new@)),
        split_lines(old@) == split_lines(new@) ==> models(r@) == all_equals(split_lines(old@)),
        models(r@) == myers_script(split_lines(old@), split_lines(new@)),
{
    let old_lines = lines_of(old);
    let new_lines = lines_of(new);
    proof {
        lemma_split_lines_len(old@);
        lemma_split_lines_len(new@);
        assert(models(old_lines@) =~= old_lines@.map_values(|l: String| l@));
        assert(models(new_lines@) =~= new_lines@.map_values(|l: String| l@));
    }
    diff(old_lines.as_slice(), new_lines.as_slice())
}

} // verus!
