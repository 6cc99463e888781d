//! The unified-diff text form of a list of hunks.

use vstd::prelude::*;

use crate::myers::{models, new_side, old_side, Edit, Element};
use crate::patch::{finish, hunk_models, Hunk, HunkView};
use crate::text::{
    chars_of, decimal, decimal_string, digits_value, has_prefix, has_suffix, lemma_decimal_digits, lemma_decimal_value,
    lemma_strip_leading_once, lemma_strip_trailing_once, lemma_split_concat, lemma_split_no_sep,
    lines_of, parse_unsigned, parse_usize, split_chars, split_lines, split_on, starts_with, strip_leading,
    strip_trailing, trim_leading, trim_trailing,
};

verus! {

/// What can go wrong when reading a patch or applying hunks.
#[derive(Debug, PartialEq)]
pub enum PatchError {
    /// The patch is structurally invalid (a missing `---`/`+++` header, a
    /// malformed `@@` header), or the hunks do not fit the sequence they are
    /// applied to.
    InvalidFormat(String),
    /// A line in the patch starts with an unexpected character.
    UnexpectedToken(String),
}

/// The abstract value of a [`PatchError`]: its kind and the text it names.
pub enum ErrorKind {
    InvalidFormat(Seq<char>),
    UnexpectedToken(Seq<char>),
}

impl PatchError {
    pub open spec fn kind(&self) -> ErrorKind {
        match self {
            PatchError::InvalidFormat(m) => ErrorKind::InvalidFormat(m@),
            PatchError::UnexpectedToken(m) => ErrorKind::UnexpectedToken(m@),
        }
    }
}

/// Text that a patch can carry.
pub trait Text: Element + DeepView<V = Seq<char>> {
    fn as_text(&self) -> (r: &str)
        ensures
            r@ == self.deep_view(),
    ;
}

impl Text for String {
    fn as_text(&self) -> (r: &str) {
        self.as_str()
    }
}

impl<'a> Text for &'a str {
    fn as_text(&self) -> (r: &str) {
        *self
    }
}

/// The line of a patch that stands for one edit.
pub open spec fn edit_line(e: Edit<Seq<char>>) -> Seq<char> {
    match e {
        Edit::Equal(t) => seq![' '] + t,
        Edit::Insert(t) => seq!['+'] + t,
        Edit::Delete(t) => seq!['-'] + t,
    }
}

/// Lines joined with `'\n'` between them.
pub open spec fn join_lines(ls: Seq<Seq<char>>) -> Seq<char>
    decreases ls.len(),
{
    if ls.len() == 0 {
        Seq::empty()
    } else if ls.len() == 1 {
        ls[0]
    } else {
        join_lines(ls.drop_last()) + seq!['\n'] + ls.last()
    }
}

/// `@@ -<old_start>,<old count> +<new_start>,<new count> @@`
pub open spec fn hunk_header(h: HunkView<Seq<char>>) -> Seq<char> {
    seq!['@', '@', ' ', '-'] + decimal(h.old_start as nat) + seq![','] + decimal(
        old_side(h.changes).len(),
    ) + seq![' ', '+'] + decimal(h.new_start as nat) + seq![','] + decimal(new_side(h.changes).len())
        + seq![' ', '@', '@']
}

/// A hunk as text: its header line, then one line per edit.
pub open spec fn hunk_text(h: HunkView<Seq<char>>) -> Seq<char> {
    hunk_header(h) + seq!['\n'] + join_lines(h.changes.map_values(|e: Edit<Seq<char>>| edit_line(e)))
}

/// A list of hunks as a unified diff; no hunks give the empty text.
pub open spec fn patch_text(hs: Seq<HunkView<Seq<char>>>, old_name: Seq<char>, new_name: Seq<char>) -> Seq<char> {
    if hs.len() == 0 {
        Seq::empty()
    } else {
        seq!['-', '-', '-', ' '] + old_name + seq!['\n', '+', '+', '+', ' '] + new_name + seq!['\n']
            + join_lines(hs.map_values(|h: HunkView<Seq<char>>| hunk_text(h)))
    }
}

pub open spec fn name_or(name: Option<&str>, default: Seq<char>) -> Seq<char> {
    match name {
        Some(n) => n@,
        None => default,
    }
}

/// Serializes a value into the unified diff format. `old_name` and
/// `new_name` name the two sides in the `---`/`+++` header and default to
/// `old` and `new`.
pub trait ToPatch: Sized {
    spec fn patch_spec(&self, old_name: Seq<char>, new_name: Seq<char>) -> Seq<char>;

    fn to_patch(&self, old_name: Option<&str>, new_name: Option<&str>) -> (r: String)
        ensures
            r@ == self.patch_spec(name_or(old_name, seq!['o', 'l', 'd']), name_or(new_name, seq!['n', 'e', 'w'])),
    ;
}

fn literal(s: &str) -> (r: String)
    ensures
        r@ == s@,
{
    String::from_str(s)
}

impl<T: Text> ToPatch for Edit<T> {
    open spec fn patch_spec(&self, old_name: Seq<char>, new_name: Seq<char>) -> Seq<char> {
        edit_line(self.deep_view())
    }

    fn to_patch(&self, old_name: Option<&str>, new_name: Option<&str>) -> (r: String) {
        match self {
            Edit::Equal(t) => {
                let mut r = literal(" ");
                proof { reveal_strlit(" "); }
                r.append(t.as_text());
                r
            },
            Edit::Insert(t) => {
                let mut r = literal("+");
                proof { reveal_strlit("+"); }
                r.append(t.as_text());
                r
            },
            Edit::Delete(t) => {
                let mut r = literal("-");
                proof { reveal_strlit("-"); }
                r.append(t.as_text());
                r
            },
        }
    }
}

impl<T: Text> ToPatch for Hunk<T> {
    open spec fn patch_spec(&self, old_name: Seq<char>, new_name: Seq<char>) -> Seq<char> {
        hunk_text(self.deep_view())
    }

    fn to_patch(&self, old_name: Option<&str>, new_name: Option<&str>) -> (r: String) {
        let ghost mc = models(self.changes@);
        let mut old_edits: usize = 0;
        let mut new_edits: usize = 0;
        let mut body = String::new();
        let mut i: usize = 0;
        while i < self.changes.len()
            invariant
                i <= self.changes@.len(),
                mc == models(self.changes@),
                old_edits == old_side(mc.subrange(0, i as int)).len(),
                new_edits == new_side(mc.subrange(0, i as int)).len(),
                old_edits <= i,
                new_edits <= i,
                body@ == join_lines(mc.subrange(0, i as int).map_values(|e: Edit<Seq<char>>| edit_line(e))),
            decreases self.changes@.len() - i,
        {
            let e = &self.changes[i];
            proof {
                lemma_sides_push_len(mc.subrange(0, i as int), mc[i as int]);
            }
            assert(mc.subrange(0, i + 1) =~= mc.subrange(0, i as int).push(mc[i as int]));
            let ghost lines = mc.subrange(0, i as int).map_values(|e: Edit<Seq<char>>| edit_line(e));
            assert(mc.subrange(0, i + 1).map_values(|e: Edit<Seq<char>>| edit_line(e)) =~= lines.push(
                edit_line(mc[i as int]),
            ));
            match e {
                Edit::Insert(_) => {
                    new_edits += 1;
                },
                Edit::Delete(_) => {
                    old_edits += 1;
                },
                Edit::Equal(_) => {
                    old_edits += 1;
                    new_edits += 1;
                },
            }
            let line = e.to_patch(None, None);
            if i > 0 {
                body.append("\n");
                proof { reveal_strlit("\n"); }
            }
            body.append(line.as_str());
            i += 1;
            assert(lines.push(edit_line(mc[i - 1])).drop_last() =~= lines);
        }
        assert(mc.subrange(0, i as int) =~= mc);
        let mut r = literal("@@ -");
        let a = decimal_string(self.old_start);
        let b = decimal_string(old_edits);
        let c = decimal_string(self.new_start);
        let d = decimal_string(new_edits);
        r.append(a.as_str());
        r.append(",");
        r.append(b.as_str());
        r.append(" +");
        r.append(c.as_str());
        r.append(",");
        r.append(d.as_str());
        r.append(" @@\n");
        r.append(body.as_str());
        proof {
            reveal_strlit("@@ -");
            reveal_strlit(",");
            reveal_strlit(" +");
            reveal_strlit(" @@\n");
        }
        assert(r@ =~= hunk_text(self.deep_view()));
        r
    }
}

proof fn lemma_sides_push_len(s: Seq<Edit<Seq<char>>>, e: Edit<Seq<char>>)
    ensures
        old_side(s.push(e)).len() == old_side(s).len() + (if e is Insert { 0int } else { 1int }),
        new_side(s.push(e)).len() == new_side(s).len() + (if e is Delete { 0int } else { 1int }),
{
    crate::myers::lemma_sides_concat(s, seq![e]);
    assert(s.push(e) =~= s + seq![e]);
    crate::myers::lemma_sides_prepend(e, Seq::empty());
    assert(seq![e] =~= seq![e] + Seq::<Edit<Seq<char>>>::empty());
}

impl<T: Text> ToPatch for Vec<Hunk<T>> {
    open spec fn patch_spec(&self, old_name: Seq<char>, new_name: Seq<char>) -> Seq<char> {
        patch_text(hunk_models(self@), old_name, new_name)
    }

    fn to_patch(&self, old_name: Option<&str>, new_name: Option<&str>) -> (r: String) {
        if self.len() == 0 {
            return String::new();
        }
        let ghost mh = hunk_models(self@);
        let mut r = literal("--- ");
        match old_name {
            Some(n) => r.append(n),
            None => r.append("old"),
        }
        r.append("\n+++ ");
        match new_name {
            Some(n) => r.append(n),
            None => r.append("new"),
        }
        r.append("\n");
        proof {
            reveal_strlit("--- ");
            reveal_strlit("old");
            reveal_strlit("\n+++ ");
            reveal_strlit("new");
            reveal_strlit("\n");
        }
        let ghost head = r@;
        let mut i: usize = 0;
        while i < self.len()
            invariant
                i <= self@.len(),
                mh == hunk_models(self@),
                r@ == head + join_lines(mh.subrange(0, i as int).map_values(|h: HunkView<Seq<char>>| hunk_text(h))),
            decreases self@.len() - i,
        {
            let ghost texts = mh.subrange(0, i as int).map_values(|h: HunkView<Seq<char>>| hunk_text(h));
            assert(mh.subrange(0, i + 1).map_values(|h: HunkView<Seq<char>>| hunk_text(h)) =~= texts.push(
                hunk_text(mh[i as int]),
            ));
            let text = self[i].to_patch(None, None);
            assert(text@ == hunk_text(mh[i as int]));
            if i > 0 {
                r.append("\n");
                proof { reveal_strlit("\n"); }
            }
            r.append(text.as_str());
            i += 1;
            assert(texts.push(hunk_text(mh[i - 1])).drop_last() =~= texts);
            assert(r@ =~= head + join_lines(mh.subrange(0, i as int).map_values(|h: HunkView<Seq<char>>| hunk_text(h))));
        }
        assert(mh.subrange(0, i as int) =~= mh);
        r
    }
}

/// The edit that one line of a patch stands for, by its first character.
pub open spec fn parse_edit(l: Seq<char>) -> Option<Edit<Seq<char>>> {
    if l.len() > 0 && l[0] == ' ' {
        Some(Edit::Equal(l.drop_first()))
    } else if l.len() > 0 && l[0] == '+' {
        Some(Edit::Insert(l.drop_first()))
    } else if l.len() > 0 && l[0] == '-' {
        Some(Edit::Delete(l.drop_first()))
    } else {
        None
    }
}

/// One side of a hunk header: `sign` characters stripped, then the number
/// before the first comma.
pub open spec fn header_field(part: Seq<char>, sign: char) -> Option<usize> {
    parse_unsigned(split_on(strip_leading(part, seq![sign]), ',')[0])
}

/// The two start positions of a `@@ -a,b +c,d @@` header.
pub open spec fn parse_header(l: Seq<char>) -> Option<(usize, usize)> {
    let body = strip_trailing(strip_leading(l, seq!['@', '@', ' ']), seq![' ', '@', '@']);
    let parts = split_on(body, ' ');
    match header_field(parts[0], '-') {
        None => None,
        Some(a) => if parts.len() < 2 {
            None
        } else {
            match header_field(parts[1], '+') {
                Some(b) => Some((a, b)),
                None => None,
            }
        },
    }
}

pub open spec fn close<A>(done: Seq<HunkView<A>>, cur: Option<HunkView<A>>) -> Seq<HunkView<A>> {
    match cur {
        Some(c) => done.push(c),
        None => done,
    }
}

/// The hunks read from the lines after the two file headers: the closed
/// ones and the one still open.
pub open spec fn parse_body(lines: Seq<Seq<char>>) -> Result<
    (Seq<HunkView<Seq<char>>>, Option<HunkView<Seq<char>>>),
    ErrorKind,
>
    decreases lines.len(),
{
    if lines.len() == 0 {
        Ok((Seq::empty(), None))
    } else {
        match parse_body(lines.drop_last()) {
            Err(k) => Err(k),
            Ok((done, cur)) => {
                let l = lines.last();
                if has_prefix(l, seq!['@', '@']) {
                    match parse_header(l) {
                        None => Err(ErrorKind::InvalidFormat(l)),
                        Some((a, b)) => Ok(
                            (
                                close(done, cur),
                                Some(HunkView { old_start: a as int, new_start: b as int, changes: Seq::empty() }),
                            ),
                        ),
                    }
                } else {
                    match cur {
                        Some(c) => match parse_edit(l) {
                            Some(e) => Ok((done, Some(HunkView { changes: c.changes.push(e), ..c }))),
                            None => Err(ErrorKind::UnexpectedToken(l)),
                        },
                        None => Err(ErrorKind::InvalidFormat(l)),
                    }
                }
            },
        }
    }
}

/// The hunks a unified diff holds. The text is split on `'\n'` alone; it
/// must begin with a `---` line and a `+++` line. The empty text holds no
/// hunks.
pub open spec fn parse_patch(s: Seq<char>) -> Result<Seq<HunkView<Seq<char>>>, ErrorKind> {
    if s.len() == 0 {
        Ok(Seq::empty())
    } else {
        let ls = split_lines(s);
        let second = if ls.len() > 1 { ls[1] } else { Seq::empty() };
        if !has_prefix(ls[0], seq!['-', '-', '-']) || !has_prefix(second, seq!['+', '+', '+']) {
            Err(ErrorKind::InvalidFormat(ls[0] + seq!['\n'] + second))
        } else {
            match parse_body(ls.subrange(2, ls.len() as int)) {
                Ok((done, cur)) => Ok(close(done, cur)),
                Err(k) => Err(k),
            }
        }
    }
}

proof fn lemma_parse_body_err(lines: Seq<Seq<char>>, j: int)
    requires
        0 <= j <= lines.len(),
        parse_body(lines.subrange(0, j)) is Err,
    ensures
        parse_body(lines) == parse_body(lines.subrange(0, j)),
    decreases lines.len(),
{
    if j < lines.len() {
        assert(lines.drop_last().subrange(0, j) =~= lines.subrange(0, j));
        lemma_parse_body_err(lines.drop_last(), j);
    } else {
        assert(lines.subrange(0, j) =~= lines);
    }
}

/// Reads a value back from its unified diff text.
pub trait FromPatch: Sized {
    spec fn parses_as(s: Seq<char>, r: Result<Self, PatchError>) -> bool;

    /// Fails with `InvalidFormat` when the patch header is missing or
    /// malformed, and with `UnexpectedToken` when a line starts with an
    /// unexpected character.
    fn from_patch(s: &str) -> (r: Result<Self, PatchError>)
        ensures
            Self::parses_as(s@, r),
    ;
}

impl FromPatch for Edit<String> {
    open spec fn parses_as(s: Seq<char>, r: Result<Self, PatchError>) -> bool {
        match parse_edit(s) {
            Some(e) => r is Ok && r->Ok_0.deep_view() == e,
            None => r is Err && r->Err_0.kind() == ErrorKind::UnexpectedToken(s),
        }
    }

    fn from_patch(s: &str) -> (r: Result<Self, PatchError>) {
        let n = s.unicode_len();
        if n == 0 {
            return Err(PatchError::UnexpectedToken(String::from_str(s)));
        }
        let c = s.get_char(0);
        let rest = String::from_str(s.substring_char(1, n));
        assert(rest@ =~= s@.drop_first());
        if c == ' ' {
            Ok(Edit::Equal(rest))
        } else if c == '+' {
            Ok(Edit::Insert(rest))
        } else if c == '-' {
            Ok(Edit::Delete(rest))
        } else {
            Err(PatchError::UnexpectedToken(String::from_str(s)))
        }
    }
}

fn header_value(part: &Vec<char>, sign: char) -> (r: Option<usize>)
    ensures
        r == header_field(part@, sign),
{
    let mut sign_seq: Vec<char> = Vec::new();
    sign_seq.push(sign);
    assert(sign_seq@ =~= seq![sign]);
    let stripped = trim_leading(part, &sign_seq);
    let pieces = split_chars(&stripped, ',');
    proof { crate::text::lemma_split_on_len(stripped@, ','); }
    assert(pieces@.map_values(|p: Vec<char>| p@)[0] == pieces@[0]@);
    parse_usize(&pieces[0])
}

/// Reads the old and new start positions of a hunk header line.
pub fn parse_hunk_header(s: &str) -> (r: Result<(usize, usize), PatchError>)
    ensures
        match parse_header(s@) {
            Some(p) => r == Ok::<(usize, usize), PatchError>(p),
            None => r is Err && r->Err_0.kind() == ErrorKind::InvalidFormat(s@),
        },
{
    let cs = chars_of(s);
    let opening = chars_of("@@ ");
    let closing = chars_of(" @@");
    proof {
        reveal_strlit("@@ ");
        reveal_strlit(" @@");
    }
    assert(opening@ =~= seq!['@', '@', ' ']);
    assert(closing@ =~= seq![' ', '@', '@']);
    let front = trim_leading(&cs, &opening);
    let body = trim_trailing(&front, &closing);
    let parts = split_chars(&body, ' ');
    proof { crate::text::lemma_split_on_len(body@, ' '); }
    let ghost ps = parts@.map_values(|p: Vec<char>| p@);
    assert(ps[0] == parts@[0]@);
    let old_start = match header_value(&parts[0], '-') {
        Some(v) => v,
        None => {
            return Err(PatchError::InvalidFormat(String::from_str(s)));
        },
    };
    if parts.len() < 2 {
        return Err(PatchError::InvalidFormat(String::from_str(s)));
    }
    assert(ps[1] == parts@[1]@);
    let new_start = match header_value(&parts[1], '+') {
        Some(v) => v,
        None => {
            return Err(PatchError::InvalidFormat(String::from_str(s)));
        },
    };
    Ok((old_start, new_start))
}

pub open spec fn current_model(c: Option<Hunk<String>>) -> Option<HunkView<Seq<char>>> {
    match c {
        Some(h) => Some(h.deep_view()),
        None => None,
    }
}

impl FromPatch for Vec<Hunk<String>> {
    open spec fn parses_as(s: Seq<char>, r: Result<Self, PatchError>) -> bool {
        match parse_patch(s) {
            Ok(hs) => r is Ok && hunk_models(r->Ok_0@) == hs,
            Err(k) => r is Err && r->Err_0.kind() == k,
        }
    }

    fn from_patch(s: &str) -> (r: Result<Self, PatchError>) {
        if s.is_empty() {
            let r: Vec<Hunk<String>> = Vec::new();
            assert(hunk_models(r@) =~= Seq::<HunkView<Seq<char>>>::empty());
            return Ok(r);
        }
        let lines = lines_of(s);
        let ghost ls = lines@.map_values(|l: String| l@);
        proof { crate::text::lemma_split_lines_len(s@); }
        let first = chars_of(lines[0].as_str());
        let second = if lines.len() > 1 {
            chars_of(lines[1].as_str())
        } else {
            Vec::new()
        };
        assert(second@ == (if ls.len() > 1 { ls[1] } else { Seq::<char>::empty() }));
        let dashes = chars_of("---");
        let pluses = chars_of("+++");
        let at = chars_of("@@");
        proof {
            reveal_strlit("---");
            reveal_strlit("+++");
            reveal_strlit("@@");
        }
        assert(dashes@ =~= seq!['-', '-', '-']);
        assert(pluses@ =~= seq!['+', '+', '+']);
        assert(at@ =~= seq!['@', '@']);
        if !starts_with(&first, &dashes) || !starts_with(&second, &pluses) {
            let mut msg = lines[0].clone();
            msg.append("\n");
            proof { reveal_strlit("\n"); }
            if lines.len() > 1 {
                msg.append(lines[1].as_str());
            }
            assert(msg@ =~= ls[0] + seq!['\n'] + second@);
            return Err(PatchError::InvalidFormat(msg));
        }
        let mut current: Option<Hunk<String>> = None;
        let mut hunks: Vec<Hunk<String>> = Vec::new();
        let mut i: usize = 2;
        assert(ls.subrange(2, 2) =~= Seq::<Seq<char>>::empty());
        assert(ls[0] == first@);
        assert(hunk_models(hunks@) =~= Seq::<HunkView<Seq<char>>>::empty());
        while i < lines.len()
            invariant
                2 <= i <= lines@.len(),
                ls == lines@.map_values(|l: String| l@),
                ls == split_lines(s@),
                s@.len() > 0,
                has_prefix(ls[0], seq!['-', '-', '-']),
                has_prefix(if ls.len() > 1 { ls[1] } else { Seq::<char>::empty() }, seq!['+', '+', '+']),
                at@ == seq!['@', '@'],
                parse_body(ls.subrange(2, i as int)) == Ok::<_, ErrorKind>((hunk_models(hunks@), current_model(current))),
            decreases lines@.len() - i,
        {
            let line = &lines[i];
            let lc = chars_of(line.as_str());
            assert(ls.subrange(2, i + 1).drop_last() =~= ls.subrange(2, i as int));
            assert(ls.subrange(2, i + 1).last() == line@);
            if starts_with(&lc, &at) {
                let ghost before = hunks@;
                let ghost cur0 = current_model(current);
                match current.take() {
                    Some(c) => {
                        hunks.push(c);
                        assert(hunk_models(hunks@) =~= hunk_models(before).push(c.deep_view()));
                    },
                    None => {},
                }
                match parse_hunk_header(line.as_str()) {
                    Ok((a, b)) => {
                        let fresh: Vec<Edit<String>> = Vec::new();
                        assert(models(fresh@) =~= Seq::<Edit<Seq<char>>>::empty());
                        current = Some(Hunk { old_start: a, new_start: b, changes: fresh });
                    },
                    Err(e) => {
                        proof {
                            let body = ls.subrange(2, ls.len() as int);
                            assert(body.subrange(0, i - 1) =~= ls.subrange(2, i + 1));
                            lemma_parse_body_err(body, i - 1);
                        }
                        return Err(e);
                    },
                }
            } else {
                match current.take() {
                    Some(mut c) => {
                        match Edit::<String>::from_patch(line.as_str()) {
                            Ok(e) => {
                                let ghost h0 = c.deep_view();
                                c.changes.push(e);
                                assert(models(c.changes@) =~= h0.changes.push(e.deep_view()));
                                current = Some(c);
                            },
                            Err(e) => {
                                proof {
                                    let body = ls.subrange(2, ls.len() as int);
                                    assert(body.subrange(0, i - 1) =~= ls.subrange(2, i + 1));
                                    lemma_parse_body_err(body, i - 1);
                                }
                                return Err(e);
                            },
                        }
                    },
                    None => {
                        proof {
                            let body = ls.subrange(2, ls.len() as int);
                            assert(body.subrange(0, i - 1) =~= ls.subrange(2, i + 1));
                            lemma_parse_body_err(body, i - 1);
                        }
                        return Err(PatchError::InvalidFormat(line.clone()));
                    },
                }
            }
            i += 1;
        }
        assert(ls.subrange(2, i as int) =~= ls.subrange(2, ls.len() as int));
        let ghost done = hunks@;
        match current {
            Some(c) => {
                hunks.push(c);
                assert(hunk_models(hunks@) =~= hunk_models(done).push(c.deep_view()));
            },
            None => {},
        }
        Ok(hunks)
    }
}

pub open spec fn no_newline(s: Seq<char>) -> bool {
    !s.contains('\n')
}

/// The lines of one hunk in a patch: its header, then one line per edit (an
/// empty line where it has no edit).
pub open spec fn hunk_lines(h: HunkView<Seq<char>>) -> Seq<Seq<char>> {
    if h.changes.len() == 0 {
        seq![hunk_header(h), Seq::empty()]
    } else {
        seq![hunk_header(h)] + h.changes.map_values(|e: Edit<Seq<char>>| edit_line(e))
    }
}

/// The lines of all hunks, in order.
pub open spec fn patch_lines(hs: Seq<HunkView<Seq<char>>>) -> Seq<Seq<char>>
    decreases hs.len(),
{
    if hs.len() == 0 {
        Seq::empty()
    } else {
        patch_lines(hs.drop_last()) + hunk_lines(hs.last())
    }
}

/// Every hunk has an edit.
pub open spec fn has_edits(hs: Seq<HunkView<Seq<char>>>) -> bool {
    forall|k: int| 0 <= k < hs.len() ==> (#[trigger] hs[k]).changes.len() > 0
}

/// No payload holds a newline, and the start positions are in range.
pub open spec fn printable(hs: Seq<HunkView<Seq<char>>>) -> bool {
    forall|k: int| 0 <= k < hs.len() ==> {
        &&& 0 <= (#[trigger] hs[k]).old_start <= usize::MAX
        &&& 0 <= hs[k].new_start <= usize::MAX
        &&& forall|q: int| 0 <= q < hs[k].changes.len() ==> no_newline(#[trigger] hs[k].changes[q].payload())
    }
}

proof fn lemma_join_concat(a: Seq<Seq<char>>, b: Seq<Seq<char>>)
    requires
        a.len() > 0,
        b.len() > 0,
    ensures
        join_lines(a + b) == join_lines(a) + seq!['\n'] + join_lines(b),
    decreases b.len(),
{
    let w = a + b;
    assert(w.drop_last() =~= a + b.drop_last());
    assert(w.last() == b.last());
    if b.len() == 1 {
        assert(b.drop_last() =~= Seq::<Seq<char>>::empty());
        assert(w.drop_last() =~= a);
    } else {
        lemma_join_concat(a, b.drop_last());
        assert(join_lines(a) + seq!['\n'] + join_lines(b.drop_last()) + seq!['\n'] + b.last() =~= join_lines(a)
            + seq!['\n'] + (join_lines(b.drop_last()) + seq!['\n'] + b.last()));
    }
}

proof fn lemma_split_join(ls: Seq<Seq<char>>)
    requires
        ls.len() > 0,
        forall|i: int| 0 <= i < ls.len() ==> no_newline(#[trigger] ls[i]),
    ensures
        split_on(join_lines(ls), '\n') == ls,
    decreases ls.len(),
{
    if ls.len() == 1 {
        lemma_split_no_sep(ls[0], '\n');
        assert(seq![ls[0]] =~= ls);
    } else {
        lemma_split_join(ls.drop_last());
        lemma_split_concat(join_lines(ls.drop_last()), ls.last(), '\n');
        lemma_split_no_sep(ls.last(), '\n');
        assert(ls.drop_last() + seq![ls.last()] =~= ls);
    }
}

proof fn lemma_line_no_newline(h: HunkView<Seq<char>>)
    requires
        forall|q: int| 0 <= q < h.changes.len() ==> no_newline(#[trigger] h.changes[q].payload()),
    ensures
        forall|i: int| 0 <= i < hunk_lines(h).len() ==> no_newline(#[trigger] hunk_lines(h)[i]),
{
    let ls = hunk_lines(h);
    assert forall|i: int| 0 <= i < ls.len() implies no_newline(#[trigger] ls[i]) by {
        if i == 0 {
            lemma_decimal_digits(h.old_start as nat);
            lemma_decimal_digits(old_side(h.changes).len());
            lemma_decimal_digits(h.new_start as nat);
            lemma_decimal_digits(new_side(h.changes).len());
            if ls[0].contains('\n') {
                let j = choose|j: int| 0 <= j < ls[0].len() && ls[0][j] == '\n';
                assert(false);
            }
        } else if h.changes.len() == 0 {
            assert(ls[i] =~= Seq::<char>::empty());
        } else {
            let e = h.changes[i - 1];
            assert(ls[i] == edit_line(e));
            assert(no_newline(e.payload()));
            if ls[i].contains('\n') {
                let j = choose|j: int| 0 <= j < ls[i].len() && ls[i][j] == '\n';
                if j > 0 {
                    assert(ls[i][j] == e.payload()[j - 1]);
                }
            }
        }
    }
}

proof fn lemma_hunk_text_lines(h: HunkView<Seq<char>>)
    ensures
        hunk_text(h) == join_lines(hunk_lines(h)),
{
    let body = h.changes.map_values(|e: Edit<Seq<char>>| edit_line(e));
    assert(join_lines(seq![hunk_header(h)]) == hunk_header(h));
    if h.changes.len() == 0 {
        let ls = seq![hunk_header(h), Seq::<char>::empty()];
        assert(ls.drop_last() =~= seq![hunk_header(h)]);
        assert(body =~= Seq::<Seq<char>>::empty());
        assert(join_lines(ls) == join_lines(ls.drop_last()) + seq!['\n'] + ls.last());
        assert(hunk_text(h) =~= join_lines(ls));
    } else {
        lemma_join_concat(seq![hunk_header(h)], body);
    }
}

proof fn lemma_patch_lines(hs: Seq<HunkView<Seq<char>>>)
    requires
        hs.len() > 0,
        printable(hs),
    ensures
        join_lines(hs.map_values(|h: HunkView<Seq<char>>| hunk_text(h))) == join_lines(patch_lines(hs)),
        patch_lines(hs).len() > 0,
        forall|i: int| 0 <= i < patch_lines(hs).len() ==> no_newline(#[trigger] patch_lines(hs)[i]),
    decreases hs.len(),
{
    let texts = hs.map_values(|h: HunkView<Seq<char>>| hunk_text(h));
    let h = hs.last();
    assert(h == hs[hs.len() - 1]);
    lemma_hunk_text_lines(h);
    lemma_line_no_newline(h);
    if hs.len() == 1 {
        assert(patch_lines(hs.drop_last()) =~= Seq::<Seq<char>>::empty());
        assert(patch_lines(hs) =~= hunk_lines(h));
    } else {
        let prev = hs.drop_last();
        assert(printable(prev)) by {
            assert forall|k: int| 0 <= k < prev.len() implies #[trigger] prev[k] == hs[k] by {}
        }
        lemma_patch_lines(prev);
        assert(texts.drop_last() =~= prev.map_values(|h: HunkView<Seq<char>>| hunk_text(h)));
        lemma_join_concat(patch_lines(prev), hunk_lines(h));
        let pl = patch_lines(hs);
        assert forall|i: int| 0 <= i < pl.len() implies no_newline(#[trigger] pl[i]) by {
            if i < patch_lines(prev).len() {
                assert(pl[i] == patch_lines(prev)[i]);
            } else {
                assert(pl[i] == hunk_lines(h)[i - patch_lines(prev).len()]);
            }
        }
    }
}

/// Header layout: when neither the payloads nor the two names hold a
/// newline, a patch splits on `'\n'` into the `---` and `+++` lines and
/// then, hunk by hunk, the hunk's `@@` header and one line per edit (an
/// empty line for a hunk without edits). So every `@@` header is a line of
/// its own.
pub proof fn lemma_header_layout(hs: Seq<HunkView<Seq<char>>>, old_name: Seq<char>, new_name: Seq<char>)
    requires
        hs.len() > 0,
        printable(hs),
        no_newline(old_name),
        no_newline(new_name),
    ensures
        split_lines(patch_text(hs, old_name, new_name)) == seq![
            seq!['-', '-', '-', ' '] + old_name,
            seq!['+', '+', '+', ' '] + new_name,
        ] + patch_lines(hs),
{
    let l0 = seq!['-', '-', '-', ' '] + old_name;
    let l1 = seq!['+', '+', '+', ' '] + new_name;
    let heads = seq![l0, l1];
    lemma_patch_lines(hs);
    lemma_join_concat(heads, patch_lines(hs));
    assert(heads.drop_last() =~= seq![l0]);
    assert(heads.last() == l1);
    assert(join_lines(seq![l0]) == l0);
    assert(join_lines(heads) == join_lines(heads.drop_last()) + seq!['\n'] + heads.last());
    assert(join_lines(heads) == l0 + seq!['\n'] + l1);
    assert(patch_text(hs, old_name, new_name) =~= join_lines(heads + patch_lines(hs)));
    let all = heads + patch_lines(hs);
    assert forall|i: int| 0 <= i < all.len() implies no_newline(#[trigger] all[i]) by {
        if i == 0 {
            if l0.contains('\n') {
                let j = choose|j: int| 0 <= j < l0.len() && l0[j] == '\n';
                if j >= 4 {
                    assert(old_name[j - 4] == '\n');
                }
            }
        } else if i == 1 {
            if l1.contains('\n') {
                let j = choose|j: int| 0 <= j < l1.len() && l1[j] == '\n';
                if j >= 4 {
                    assert(new_name[j - 4] == '\n');
                }
            }
        } else {
            assert(all[i] == patch_lines(hs)[i - 2]);
        }
    }
    lemma_split_join(all);
}

proof fn lemma_without(s: Seq<char>, c: char)
    requires
        forall|i: int| 0 <= i < s.len() ==> #[trigger] s[i] != c,
    ensures
        !s.contains(c),
{
}

/// One side of a written header, `sign` then `start`, a comma and a count.
proof fn lemma_header_side(sign: char, start: nat, count: nat)
    requires
        sign == '-' || sign == '+',
        start <= usize::MAX,
    ensures
        !(seq![sign] + decimal(start) + seq![','] + decimal(count)).contains(' '),
        header_field(seq![sign] + decimal(start) + seq![','] + decimal(count), sign) == Some(start as usize),
{
    let da = decimal(start);
    let dx = decimal(count);
    lemma_decimal_digits(start);
    lemma_decimal_digits(count);
    lemma_decimal_value(start);
    let u = seq![sign] + da + seq![','] + dx;
    assert forall|i: int| 0 <= i < u.len() implies #[trigger] u[i] != ' ' by {
        if 1 <= i <= da.len() {
            assert(u[i] == da[i - 1]);
        } else if i > da.len() + 1 {
            assert(u[i] == dx[i - da.len() - 2]);
        }
    }
    lemma_without(u, ' ');
    let q = seq![sign];
    let rest = u.subrange(1, u.len() as int);
    assert(rest =~= da + seq![','] + dx);
    assert(u.subrange(0, 1) =~= q);
    assert(!has_prefix(rest, q)) by {
        if has_prefix(rest, q) {
            assert(rest.subrange(0, 1)[0] == sign);
            assert(rest[0] == da[0]);
        }
    }
    lemma_strip_leading_once(u, q);
    lemma_split_concat(da, dx, ',');
    assert forall|i: int| 0 <= i < da.len() implies #[trigger] da[i] != ',' by {}
    assert forall|i: int| 0 <= i < dx.len() implies #[trigger] dx[i] != ',' by {}
    lemma_without(da, ',');
    lemma_without(dx, ',');
    lemma_split_no_sep(da, ',');
    lemma_split_no_sep(dx, ',');
    assert(split_on(rest, ',')[0] == da);
    assert(da[0] != '+');
}

/// A written hunk header reads back as its two start positions.
#[verifier::rlimit(60)]
proof fn lemma_parse_header(h: HunkView<Seq<char>>)
    requires
        0 <= h.old_start <= usize::MAX,
        0 <= h.new_start <= usize::MAX,
    ensures
        parse_header(hunk_header(h)) == Some((h.old_start as usize, h.new_start as usize)),
{
    let da = decimal(h.old_start as nat);
    let dx = decimal(old_side(h.changes).len());
    let db = decimal(h.new_start as nat);
    let dy = decimal(new_side(h.changes).len());
    lemma_decimal_digits(old_side(h.changes).len());
    lemma_decimal_digits(new_side(h.changes).len());
    lemma_decimal_digits(h.old_start as nat);
    lemma_header_side('-', h.old_start as nat, old_side(h.changes).len());
    lemma_header_side('+', h.new_start as nat, new_side(h.changes).len());
    let u = seq!['-'] + da + seq![','] + dx;
    let v = seq!['+'] + db + seq![','] + dy;
    let body = u + seq![' '] + v;
    let hd = hunk_header(h);
    let p1 = seq!['@', '@', ' '];
    let p2 = seq![' ', '@', '@'];
    assert(hd =~= p1 + body + p2);
    let t1 = hd.subrange(3, hd.len() as int);
    assert(t1 =~= body + p2);
    assert(hd.subrange(0, 3) =~= p1);
    assert(!has_prefix(t1, p1)) by {
        if has_prefix(t1, p1) {
            assert(t1.subrange(0, 3)[0] == '@');
            assert(t1[0] == '-');
        }
    }
    lemma_strip_leading_once(hd, p1);
    assert(t1.subrange(t1.len() - 3, t1.len() as int) =~= p2);
    let t2 = t1.subrange(0, t1.len() - 3);
    assert(t2 =~= body);
    assert(!has_suffix(t2, p2)) by {
        if has_suffix(t2, p2) {
            assert(t2.subrange(t2.len() - 3, t2.len() as int)[2] == '@');
            assert(t2[t2.len() - 1] == dy[dy.len() - 1]);
        }
    }
    lemma_strip_trailing_once(t1, p2);
    lemma_split_concat(u, v, ' ');
    lemma_split_no_sep(u, ' ');
    lemma_split_no_sep(v, ' ');
    assert(split_on(body, ' ') =~= seq![u, v]);
}

proof fn lemma_parse_edit_line(e: Edit<Seq<char>>)
    ensures
        parse_edit(edit_line(e)) == Some(e),
        !has_prefix(edit_line(e), seq!['@', '@']),
{
    let l = edit_line(e);
    assert(l.drop_first() =~= e.payload());
    if has_prefix(l, seq!['@', '@']) {
        assert(l.subrange(0, 2)[0] == '@');
    }
}

proof fn lemma_parse_hunk(x: Seq<Seq<char>>, h: HunkView<Seq<char>>, q: int)
    requires
        parse_body(x) is Ok,
        0 <= h.old_start <= usize::MAX,
        0 <= h.new_start <= usize::MAX,
        0 <= q <= h.changes.len(),
        h.changes.len() > 0,
    ensures
        parse_body(x + hunk_lines(h).subrange(0, q + 1)) == Ok::<_, ErrorKind>(
            (
                close(parse_body(x)->Ok_0.0, parse_body(x)->Ok_0.1),
                Some(HunkView { old_start: h.old_start, new_start: h.new_start, changes: h.changes.subrange(0, q) }),
            ),
        ),
    decreases q,
{
    let ls = hunk_lines(h);
    let z = x + ls.subrange(0, q + 1);
    assert(z.drop_last() =~= x + ls.subrange(0, q));
    assert(z.last() == ls[q]);
    if q == 0 {
        assert(x + ls.subrange(0, 0) =~= x);
        lemma_parse_header(h);
        let hd = hunk_header(h);
        assert(ls[0] == hd);
        assert(hd.subrange(0, 2) =~= seq!['@', '@']);
        assert(h.changes.subrange(0, 0) =~= Seq::<Edit<Seq<char>>>::empty());
    } else {
        lemma_parse_hunk(x, h, q - 1);
        let e = h.changes[q - 1];
        assert(ls[q] == edit_line(e));
        lemma_parse_edit_line(e);
        assert(h.changes.subrange(0, q - 1).push(e) =~= h.changes.subrange(0, q));
    }
}

proof fn lemma_parse_lines(hs: Seq<HunkView<Seq<char>>>)
    requires
        forall|k: int| 0 <= k < hs.len() ==> 0 <= (#[trigger] hs[k]).old_start <= usize::MAX && 0 <= hs[k].new_start <= usize::MAX,
        has_edits(hs),
    ensures
        parse_body(patch_lines(hs)) == (if hs.len() == 0 {
            Ok::<_, ErrorKind>((Seq::<HunkView<Seq<char>>>::empty(), None::<HunkView<Seq<char>>>))
        } else {
            Ok::<_, ErrorKind>((hs.drop_last(), Some(hs.last())))
        }),
    decreases hs.len(),
{
    if hs.len() > 0 {
        let prev = hs.drop_last();
        let h = hs.last();
        assert(h == hs[hs.len() - 1]);
        lemma_parse_lines(prev);
        let n = h.changes.len() as int;
        lemma_parse_hunk(patch_lines(prev), h, n);
        assert(hunk_lines(h).subrange(0, n + 1) =~= hunk_lines(h));
        assert(h.changes.subrange(0, n) =~= h.changes);
        assert(HunkView { old_start: h.old_start, new_start: h.new_start, changes: h.changes.subrange(0, n) } == h);
        assert(patch_lines(hs) == patch_lines(prev) + hunk_lines(h));
        if prev.len() > 0 {
            assert(prev.drop_last().push(prev.last()) =~= prev);
        } else {
            assert(prev =~= Seq::<HunkView<Seq<char>>>::empty());
        }
    } else {
        assert(patch_lines(hs) =~= Seq::<Seq<char>>::empty());
    }
}

/// Textual round trip: reading back the patch of a list of hunks (every
/// one with an edit, no payload and neither name holding a newline) gives
/// the same hunks.
pub proof fn lemma_patch_round_trip(hs: Seq<HunkView<Seq<char>>>, old_name: Seq<char>, new_name: Seq<char>)
    requires
        printable(hs),
        has_edits(hs),
        no_newline(old_name),
        no_newline(new_name),
    ensures
        parse_patch(patch_text(hs, old_name, new_name)) == Ok::<_, ErrorKind>(hs),
{
    if hs.len() > 0 {
        let text = patch_text(hs, old_name, new_name);
        lemma_header_layout(hs, old_name, new_name);
        let l0 = seq!['-', '-', '-', ' '] + old_name;
        let l1 = seq!['+', '+', '+', ' '] + new_name;
        let ls = split_lines(text);
        assert(ls[0] == l0);
        assert(ls[1] == l1);
        assert(l0.subrange(0, 3) =~= seq!['-', '-', '-']);
        assert(l1.subrange(0, 3) =~= seq!['+', '+', '+']);
        assert(ls.subrange(2, ls.len() as int) =~= patch_lines(hs));
        assert(text.len() > 0) by {
            assert(text[0] == '-');
        }
        lemma_parse_lines(hs);
        assert(parse_body(ls.subrange(2, ls.len() as int)) == Ok::<_, ErrorKind>((hs.drop_last(), Some(hs.last()))));
        assert(hs.drop_last().push(hs.last()) =~= hs);
        assert(close(hs.drop_last(), Some(hs.last())) == hs);
        assert(has_prefix(ls[0], seq!['-', '-', '-']));
        assert(ls.len() > 1);
        assert(has_prefix(ls[1], seq!['+', '+', '+']));
    } else {
        assert(patch_text(hs, old_name, new_name).len() == 0);
        assert(hs =~= Seq::<HunkView<Seq<char>>>::empty());
    }
}

} // verus!
