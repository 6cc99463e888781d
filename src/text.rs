//! Character-level helpers on strings.

use vstd::prelude::*;

verus! {

/// The pieces of `s` between newline characters, in order. A string with no
/// newline is one piece; an empty string is one empty piece.
pub open spec fn split_lines(s: Seq<char>) -> Seq<Seq<char>> {
    split_on(s, '\n')
}

pub proof fn lemma_split_lines_len(s: Seq<char>)
    ensures
        1 <= split_lines(s).len() <= s.len() + 1,
{
    lemma_split_on_len(s, '\n');
}

/// The characters of `s`, in order.
pub fn chars_of(s: &str) -> (r: Vec<char>)
    ensures
        r@ == s@,
{
    let len = s.unicode_len();
    let mut r: Vec<char> = Vec::new();
    let mut i: usize = 0;
    while i < len
        invariant
            len == s@.len(),
            i <= len,
            r@ == s@.subrange(0, i as int),
        decreases len - i,
    {
        r.push(s.get_char(i));
        i += 1;
        assert(r@ =~= s@.subrange(0, i as int));
    }
    assert(r@ =~= s@);
    r
}

/// Splits `s` on `'\n'` only: a carriage return stays in its line.
pub fn lines_of(s: &str) -> (r: Vec<String>)
    ensures
        r@.map_values(|l: String| l@) == split_lines(s@),
{
    let cs = chars_of(s);
    let mut r: Vec<String> = Vec::new();
    let mut start: usize = 0;
    let mut i: usize = 0;
    assert(s@.subrange(0, 0) =~= Seq::<char>::empty());
    assert(r@.map_values(|l: String| l@).push(s@.subrange(0, 0)) =~= seq![Seq::<char>::empty()]);
    while i < cs.len()
        invariant
            cs@ == s@,
            start <= i <= cs@.len(),
            r@.map_values(|l: String| l@).push(s@.subrange(start as int, i as int)) == split_lines(
                s@.subrange(0, i as int),
            ),
        decreases cs@.len() - i,
    {
        let ghost prev = s@.subrange(0, i as int);
        proof {
            lemma_split_on_len(prev, '\n');
        }
        assert(s@.subrange(0, i + 1).drop_last() =~= prev);
        if cs[i] == '\n' {
            let line = String::from_str(s.substring_char(start, i));
            let ghost before = r@;
            r.push(line);
            start = i + 1;
            i += 1;
            assert(r@.map_values(|l: String| l@) =~= before.map_values(|l: String| l@).push(line@));
            assert(s@.subrange(start as int, i as int) =~= Seq::<char>::empty());
        } else {
            i += 1;
            assert(s@.subrange(start as int, i as int) =~= s@.subrange(start as int, i - 1).push(
                s@[i - 1],
            ));
            assert(r@.map_values(|l: String| l@).push(s@.subrange(start as int, i as int))
                =~= split_lines(s@.subrange(0, i as int)));
        }
    }
    let line = String::from_str(s.substring_char(start, cs.len()));
    let ghost before = r@;
    r.push(line);
    assert(s@.subrange(0, i as int) =~= s@);
    assert(r@.map_values(|l: String| l@) =~= before.map_values(|l: String| l@).push(line@));
    r
}

/// The character of a decimal digit.
pub open spec fn digit_char(d: int) -> char {
    if d == 0 { '0' }
    else if d == 1 { '1' }
    else if d == 2 { '2' }
    else if d == 3 { '3' }
    else if d == 4 { '4' }
    else if d == 5 { '5' }
    else if d == 6 { '6' }
    else if d == 7 { '7' }
    else if d == 8 { '8' }
    else { '9' }
}

/// The decimal digits of `n`, most significant first, without leading zeros.
pub open spec fn decimal(n: nat) -> Seq<char>
    decreases n,
{
    if n < 10 {
        seq![digit_char(n as int)]
    } else {
        decimal(n / 10).push(digit_char((n % 10) as int))
    }
}

fn digit_str(d: usize) -> (r: &'static str)
    requires
        d < 10,
    ensures
        r@ == seq![digit_char(d as int)],
{
    if d == 0 {
        proof { reveal_strlit("0"); }
        "0"
    } else if d == 1 {
        proof { reveal_strlit("1"); }
        "1"
    } else if d == 2 {
        proof { reveal_strlit("2"); }
        "2"
    } else if d == 3 {
        proof { reveal_strlit("3"); }
        "3"
    } else if d == 4 {
        proof { reveal_strlit("4"); }
        "4"
    } else if d == 5 {
        proof { reveal_strlit("5"); }
        "5"
    } else if d == 6 {
        proof { reveal_strlit("6"); }
        "6"
    } else if d == 7 {
        proof { reveal_strlit("7"); }
        "7"
    } else if d == 8 {
        proof { reveal_strlit("8"); }
        "8"
    } else {
        proof { reveal_strlit("9"); }
        "9"
    }
}

/// Writes `n` in decimal.
pub fn decimal_string(n: usize) -> (r: String)
    ensures
        r@ == decimal(n as nat),
    decreases n,
{
    if n < 10 {
        String::from_str(digit_str(n))
    } else {
        let mut r = decimal_string(n / 10);
        r.append(digit_str(n % 10));
        r
    }
}

/// The value of a run of decimal digits, if every character is one.
pub open spec fn digits_value(s: Seq<char>) -> Option<nat>
    decreases s.len(),
{
    if s.len() == 0 {
        Some(0)
    } else {
        match digits_value(s.drop_last()) {
            Some(v) => if '0' <= s.last() <= '9' {
                Some((v * 10 + (s.last() as nat - '0' as nat)) as nat)
            } else {
                None
            },
            None => None,
        }
    }
}

/// Reads an unsigned integer: an optional `+` and then at least one decimal
/// digit, the value fitting in `usize`.
pub open spec fn parse_unsigned(s: Seq<char>) -> Option<usize> {
    let digits = if s.len() > 0 && s[0] == '+' { s.drop_first() } else { s };
    if digits.len() == 0 {
        None
    } else {
        match digits_value(digits) {
            Some(v) => if v <= usize::MAX { Some(v as usize) } else { None },
            None => None,
        }
    }
}

pub fn parse_usize(s: &Vec<char>) -> (r: Option<usize>)
    ensures
        r == parse_unsigned(s@),
{
    let start: usize = if s.len() > 0 && s[0] == '+' { 1 } else { 0 };
    let ghost digits = if s@.len() > 0 && s@[0] == '+' { s@.drop_first() } else { s@ };
    assert(digits =~= s@.subrange(start as int, s@.len() as int));
    if start == s.len() {
        return None;
    }
    let mut v: usize = 0;
    let mut i: usize = start;
    assert(s@.subrange(start as int, i as int) =~= Seq::<char>::empty());
    while i < s.len()
        invariant
            start <= i <= s@.len(),
            start < s@.len(),
            digits == s@.subrange(start as int, s@.len() as int),
            digits == (if s@.len() > 0 && s@[0] == '+' { s@.drop_first() } else { s@ }),
            digits_value(s@.subrange(start as int, i as int)) == Some(v as nat),
        decreases s@.len() - i,
    {
        let c = s[i];
        assert(s@.subrange(start as int, i + 1).drop_last() =~= s@.subrange(start as int, i as int));
        assert(s@.subrange(start as int, i + 1) =~= s@.subrange(start as int, s@.len() as int).subrange(
            0,
            i + 1 - start,
        ));
        if c < '0' || c > '9' {
            proof { lemma_digits_none_extends(s@.subrange(start as int, i + 1), s@.subrange(start as int, s@.len() as int)); }
            assert(digits_value(digits) is None);
            return None;
        }
        let d = (c as u32 - '0' as u32) as usize;
        if v > (usize::MAX - d) / 10 {
            assert(v * 10 + d > usize::MAX) by (nonlinear_arith)
                requires
                    v > (usize::MAX - d) / 10,
                    d < 10,
            ;
            proof { lemma_digits_too_large(s@.subrange(start as int, i + 1), s@.subrange(start as int, s@.len() as int)); }
            assert(digits_value(digits) is None || digits_value(digits)->0 > usize::MAX);
            return None;
        }
        v = v * 10 + d;
        i += 1;
    }
    assert(s@.subrange(start as int, i as int) =~= digits);
    Some(v)
}

proof fn lemma_digits_none_extends(a: Seq<char>, b: Seq<char>)
    requires
        a.len() <= b.len(),
        a == b.subrange(0, a.len() as int),
        digits_value(a) is None,
    ensures
        digits_value(b) is None,
    decreases b.len(),
{
    if b.len() > a.len() {
        assert(b.drop_last().subrange(0, a.len() as int) =~= a);
        lemma_digits_none_extends(a, b.drop_last());
    } else {
        assert(a =~= b);
    }
}

proof fn lemma_digits_too_large(a: Seq<char>, b: Seq<char>)
    requires
        a.len() <= b.len(),
        a == b.subrange(0, a.len() as int),
        digits_value(a) is None || digits_value(a)->0 > usize::MAX,
    ensures
        digits_value(b) is None || digits_value(b)->0 > usize::MAX,
    decreases b.len(),
{
    if b.len() > a.len() {
        assert(b.drop_last().subrange(0, a.len() as int) =~= a);
        lemma_digits_too_large(a, b.drop_last());
        if digits_value(b) is Some {
            assert(digits_value(b)->0 >= digits_value(b.drop_last())->0) by (nonlinear_arith)
                requires
                    digits_value(b)->0 == digits_value(b.drop_last())->0 * 10 + (b.last() as int - '0' as int),
                    b.last() as int >= '0' as int,
            ;
        }
    } else {
        assert(a =~= b);
    }
}

/// The pieces of `s` between occurrences of `sep`, in order.
pub open spec fn split_on(s: Seq<char>, sep: char) -> Seq<Seq<char>>
    decreases s.len(),
{
    if s.len() == 0 {
        seq![Seq::empty()]
    } else {
        let r = split_on(s.drop_last(), sep);
        if s.last() == sep {
            r.push(Seq::empty())
        } else {
            r.update(r.len() - 1, r.last().push(s.last()))
        }
    }
}

pub proof fn lemma_split_on_len(s: Seq<char>, sep: char)
    ensures
        1 <= split_on(s, sep).len() <= s.len() + 1,
    decreases s.len(),
{
    if s.len() > 0 {
        lemma_split_on_len(s.drop_last(), sep);
    }
}

/// Splits a character sequence on `sep`.
pub fn split_chars(s: &Vec<char>, sep: char) -> (r: Vec<Vec<char>>)
    ensures
        r@.map_values(|p: Vec<char>| p@) == split_on(s@, sep),
{
    let mut r: Vec<Vec<char>> = Vec::new();
    let mut cur: Vec<char> = Vec::new();
    let mut i: usize = 0;
    assert(s@.subrange(0, 0) =~= Seq::<char>::empty());
    assert(r@.map_values(|p: Vec<char>| p@).push(cur@) =~= seq![Seq::<char>::empty()]);
    while i < s.len()
        invariant
            i <= s@.len(),
            r@.map_values(|p: Vec<char>| p@).push(cur@) == split_on(s@.subrange(0, i as int), sep),
        decreases s@.len() - i,
    {
        let ghost prev = s@.subrange(0, i as int);
        proof {
            lemma_split_on_len(prev, sep);
        }
        assert(s@.subrange(0, i + 1).drop_last() =~= prev);
        let c = s[i];
        let ghost before = r@;
        let ghost cur0 = cur@;
        if c == sep {
            r.push(cur);
            cur = Vec::new();
            assert(r@.map_values(|p: Vec<char>| p@) =~= before.map_values(|p: Vec<char>| p@).push(cur0));
        } else {
            cur.push(c);
        }
        i += 1;
        assert(r@.map_values(|p: Vec<char>| p@).push(cur@) =~= split_on(s@.subrange(0, i as int), sep));
    }
    assert(s@.subrange(0, i as int) =~= s@);
    let ghost before = r@;
    let ghost cur0 = cur@;
    r.push(cur);
    assert(r@.map_values(|p: Vec<char>| p@) =~= before.map_values(|p: Vec<char>| p@).push(cur0));
    r
}

/// `s` begins with `p`.
pub open spec fn has_prefix(s: Seq<char>, p: Seq<char>) -> bool {
    p.len() <= s.len() && s.subrange(0, p.len() as int) == p
}

/// `s` ends with `p`.
pub open spec fn has_suffix(s: Seq<char>, p: Seq<char>) -> bool {
    p.len() <= s.len() && s.subrange(s.len() - p.len(), s.len() as int) == p
}

pub fn starts_with(s: &Vec<char>, p: &Vec<char>) -> (r: bool)
    ensures
        r == has_prefix(s@, p@),
{
    if p.len() > s.len() {
        return false;
    }
    let mut i: usize = 0;
    while i < p.len()
        invariant
            p@.len() <= s@.len(),
            i <= p@.len(),
            s@.subrange(0, i as int) == p@.subrange(0, i as int),
        decreases p@.len() - i,
    {
        if s[i] != p[i] {
            assert(s@.subrange(0, p@.len() as int)[i as int] != p@[i as int]);
            return false;
        }
        i += 1;
        assert(s@.subrange(0, i as int) =~= p@.subrange(0, i as int));
    }
    assert(p@.subrange(0, i as int) =~= p@);
    true
}

pub fn ends_with(s: &Vec<char>, p: &Vec<char>) -> (r: bool)
    ensures
        r == has_suffix(s@, p@),
{
    if p.len() > s.len() {
        return false;
    }
    let off = s.len() - p.len();
    let mut i: usize = 0;
    while i < p.len()
        invariant
            p@.len() <= s@.len(),
            off == s@.len() - p@.len(),
            s@.len() <= usize::MAX,
            i <= p@.len(),
            s@.subrange(off as int, off + i) == p@.subrange(0, i as int),
        decreases p@.len() - i,
    {
        if s[off + i] != p[i] {
            assert(s@.subrange(off as int, s@.len() as int)[i as int] != p@[i as int]);
            return false;
        }
        i += 1;
        assert(s@.subrange(off as int, off + i) =~= p@.subrange(0, i as int));
    }
    assert(p@.subrange(0, i as int) =~= p@);
    true
}

/// Removes `p` from the front of `s` for as long as `s` begins with it.
pub open spec fn strip_leading(s: Seq<char>, p: Seq<char>) -> Seq<char>
    decreases s.len(),
{
    if p.len() > 0 && has_prefix(s, p) {
        strip_leading(s.subrange(p.len() as int, s.len() as int), p)
    } else {
        s
    }
}

/// Removes `p` from the end of `s` for as long as `s` ends with it.
pub open spec fn strip_trailing(s: Seq<char>, p: Seq<char>) -> Seq<char>
    decreases s.len(),
{
    if p.len() > 0 && has_suffix(s, p) {
        strip_trailing(s.subrange(0, s.len() - p.len()), p)
    } else {
        s
    }
}

fn slice_chars(s: &Vec<char>, from: usize, to: usize) -> (r: Vec<char>)
    requires
        from <= to <= s@.len(),
    ensures
        r@ == s@.subrange(from as int, to as int),
{
    let mut r: Vec<char> = Vec::new();
    let mut i: usize = from;
    while i < to
        invariant
            from <= i <= to,
            to <= s@.len(),
            r@ == s@.subrange(from as int, i as int),
        decreases to - i,
    {
        r.push(s[i]);
        i += 1;
        assert(r@ =~= s@.subrange(from as int, i as int));
    }
    r
}

pub fn trim_leading(s: &Vec<char>, p: &Vec<char>) -> (r: Vec<char>)
    ensures
        r@ == strip_leading(s@, p@),
{
    let mut start: usize = 0;
    let mut rest = slice_chars(s, 0, s.len());
    assert(s@.subrange(0, s@.len() as int) =~= s@);
    while p.len() > 0 && starts_with(&rest, p)
        invariant
            start <= s@.len(),
            s@.len() <= usize::MAX,
            rest@ == s@.subrange(start as int, s@.len() as int),
            strip_leading(rest@, p@) == strip_leading(s@, p@),
        decreases s@.len() - start,
    {
        start = start + p.len();
        rest = slice_chars(s, start, s.len());
        assert(rest@ =~= s@.subrange(start - p@.len(), s@.len() as int).subrange(p@.len() as int, s@.len() - (start - p@.len())));
    }
    rest
}

pub fn trim_trailing(s: &Vec<char>, p: &Vec<char>) -> (r: Vec<char>)
    ensures
        r@ == strip_trailing(s@, p@),
{
    let mut end: usize = s.len();
    let mut rest = slice_chars(s, 0, s.len());
    assert(s@.subrange(0, s@.len() as int) =~= s@);
    while p.len() > 0 && ends_with(&rest, p)
        invariant
            end <= s@.len(),
            rest@ == s@.subrange(0, end as int),
            strip_trailing(rest@, p@) == strip_trailing(s@, p@),
        decreases end,
    {
        end = end - p.len();
        rest = slice_chars(s, 0, end);
        assert(rest@ =~= s@.subrange(0, end + p@.len()).subrange(0, end as int));
    }
    rest
}

/// A piece with no separator in it splits into itself.
pub proof fn lemma_split_no_sep(t: Seq<char>, sep: char)
    requires
        !t.contains(sep),
    ensures
        split_on(t, sep) == seq![t],
    decreases t.len(),
{
    if t.len() > 0 {
        assert(!t.drop_last().contains(sep)) by {
            if t.drop_last().contains(sep) {
                let i = choose|i: int| 0 <= i < t.drop_last().len() && t.drop_last()[i] == sep;
                assert(t[i] == sep);
            }
        }
        lemma_split_no_sep(t.drop_last(), sep);
        assert(t[t.len() - 1] != sep);
        assert(t.drop_last().push(t.last()) =~= t);
    } else {
        assert(t =~= Seq::<char>::empty());
    }
}

/// Splitting around one separator splits each side.
pub proof fn lemma_split_concat(s: Seq<char>, t: Seq<char>, sep: char)
    ensures
        split_on(s + seq![sep] + t, sep) == split_on(s, sep) + split_on(t, sep),
    decreases t.len(),
{
    lemma_split_on_len(s, sep);
    let w = s + seq![sep] + t;
    if t.len() == 0 {
        assert(w.drop_last() =~= s);
        assert(split_on(t, sep) == seq![Seq::<char>::empty()]);
        assert(split_on(s, sep).push(Seq::<char>::empty()) =~= split_on(s, sep) + seq![Seq::<char>::empty()]);
    } else {
        lemma_split_concat(s, t.drop_last(), sep);
        lemma_split_on_len(t.drop_last(), sep);
        assert(w.drop_last() =~= s + seq![sep] + t.drop_last());
        assert(w.last() == t.last());
        let a = split_on(s, sep);
        let b = split_on(t.drop_last(), sep);
        if t.last() == sep {
            assert((a + b).push(Seq::<char>::empty()) =~= a + b.push(Seq::<char>::empty()));
        } else {
            assert((a + b).update((a + b).len() - 1, (a + b).last().push(t.last())) =~= a + b.update(
                b.len() - 1,
                b.last().push(t.last()),
            ));
        }
    }
}

/// The decimal digits of `n` are digits.
pub proof fn lemma_decimal_digits(n: nat)
    ensures
        decimal(n).len() > 0,
        forall|i: int| 0 <= i < decimal(n).len() ==> '0' <= #[trigger] decimal(n)[i] <= '9',
    decreases n,
{
    if n >= 10 {
        lemma_decimal_digits(n / 10);
    }
}

/// Reading back the decimal digits of `n` gives `n`.
pub proof fn lemma_decimal_value(n: nat)
    ensures
        digits_value(decimal(n)) == Some(n),
    decreases n,
{
    let d = decimal(n);
    if n < 10 {
        assert(d.drop_last() =~= Seq::<char>::empty());
        assert(digits_value(Seq::<char>::empty()) == Some(0nat));
        assert(d.last() == digit_char(n as int));
        assert(digit_char(n as int) as nat - '0' as nat == n);
    } else {
        lemma_decimal_value(n / 10);
        assert(d.drop_last() =~= decimal(n / 10));
        assert(d.last() == digit_char((n % 10) as int));
        assert(digit_char((n % 10) as int) as nat - '0' as nat == n % 10);
        assert((n / 10) * 10 + n % 10 == n) by (nonlinear_arith);
    }
}

/// Stripping a prefix that is there once, and not again after it.
pub proof fn lemma_strip_leading_once(s: Seq<char>, p: Seq<char>)
    requires
        p.len() > 0,
        has_prefix(s, p),
        !has_prefix(s.subrange(p.len() as int, s.len() as int), p),
    ensures
        strip_leading(s, p) == s.subrange(p.len() as int, s.len() as int),
{
    let rest = s.subrange(p.len() as int, s.len() as int);
    assert(strip_leading(rest, p) == rest);
}

/// Stripping a suffix that is there once, and not again before it.
pub proof fn lemma_strip_trailing_once(s: Seq<char>, p: Seq<char>)
    requires
        p.len() > 0,
        has_suffix(s, p),
        !has_suffix(s.subrange(0, s.len() - p.len()), p),
    ensures
        strip_trailing(s, p) == s.subrange(0, s.len() - p.len()),
{
    let rest = s.subrange(0, s.len() - p.len());
    assert(strip_trailing(rest, p) == rest);
}

} // verus!
