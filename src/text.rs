use vstd::prelude::*;

verus! {

/// The characters of `s` in order.
pub(crate) fn chars_of(s: &str) -> (r: Vec<char>)
    ensures
        r@ == s@,
{
    let mut out: Vec<char> = Vec::new();
    for c in it: s.chars()
        invariant
            it.seq() == s@,
            out@ == it.seq().take(it.index()),
    {
        proof {
            assert(it.seq().take(it.index() + 1) =~= out@.push(c));
        }
        out.push(c);
    }
    proof {
        assert(out@ =~= s@);
    }
    out
}

/// Relies on `String`'s `FromIterator<&char>`: the string made of `cs` in order.
#[verifier::external_body]
pub(crate) fn string_of(cs: &[char]) -> (r: String)
    ensures
        r@ == cs@,
{
    cs.iter().collect()
}

/// An ASCII decimal digit.
pub open spec fn is_digit(c: char) -> bool {
    '0' <= c <= '9'
}

/// A character of Unicode's White_Space property.
pub open spec fn is_space(c: char) -> bool {
    ('\u{9}' <= c <= '\u{d}') || c == ' ' || c == '\u{85}' || c == '\u{a0}' || c == '\u{1680}'
        || ('\u{2000}' <= c <= '\u{200a}') || c == '\u{2028}' || c == '\u{2029}' || c == '\u{202f}'
        || c == '\u{205f}' || c == '\u{3000}'
}

/// Whether `c` is white space.
pub fn is_space_char(c: char) -> (r: bool)
    ensures
        r == is_space(c),
{
    ('\u{9}' <= c && c <= '\u{d}') || c == ' ' || c == '\u{85}' || c == '\u{a0}' || c == '\u{1680}'
        || ('\u{2000}' <= c && c <= '\u{200a}') || c == '\u{2028}' || c == '\u{2029}' || c
        == '\u{202f}' || c == '\u{205f}' || c == '\u{3000}'
}

/// `lit` occurs in `s` at position `i`.
pub open spec fn lit_at(s: Seq<char>, i: int, lit: Seq<char>) -> bool {
    0 <= i && i + lit.len() <= s.len() && s.subrange(i, i + lit.len()) == lit
}

/// Whether `lit` occurs in `s` at `i`.
pub fn lit_at_exec(s: &Vec<char>, i: usize, lit: &Vec<char>) -> (r: bool)
    ensures
        r == lit_at(s@, i as int, lit@),
        s@.len() <= usize::MAX,
{
    if i > s.len() || lit.len() > s.len() - i {
        return false;
    }
    let mut j: usize = 0;
    while j < lit.len()
        invariant
            i + lit@.len() <= s@.len(),
            s@.len() <= usize::MAX,
            j <= lit@.len(),
            forall|x: int| 0 <= x < j ==> s@[i + x] == lit@[x],
        decreases lit@.len() - j,
    {
        if s[i + j] != lit[j] {
            proof {
                assert(s@.subrange(i as int, i + lit@.len())[j as int] != lit@[j as int]);
            }
            return false;
        }
        j = j + 1;
    }
    proof {
        assert(s@.subrange(i as int, i + lit@.len()) =~= lit@);
    }
    true
}

/// The first position at or after `i` that holds `c`, or the length of `s`.
pub open spec fn next_char(s: Seq<char>, i: int, c: char) -> int
    decreases s.len() - i,
{
    if i < 0 || i >= s.len() {
        s.len() as int
    } else if s[i] == c {
        i
    } else {
        next_char(s, i + 1, c)
    }
}

/// The first position at or after `i` that holds `c`, or the length of `s`.
pub fn next_char_exec(s: &Vec<char>, i: usize, c: char) -> (r: usize)
    requires
        i <= s@.len(),
    ensures
        r as int == next_char(s@, i as int, c),
        i <= r <= s@.len(),
        forall|x: int| i <= x < r ==> s@[x] != c,
{
    let mut j = i;
    while j < s.len() && s[j] != c
        invariant
            i <= j <= s@.len(),
            next_char(s@, i as int, c) == next_char(s@, j as int, c),
            forall|x: int| i <= x < j ==> s@[x] != c,
        decreases s@.len() - j,
    {
        j = j + 1;
    }
    j
}

/// The first position at or after `i` that holds no ASCII digit, or the length of `s`.
pub open spec fn digits_end(s: Seq<char>, i: int) -> int
    decreases s.len() - i,
{
    if i < 0 || i >= s.len() {
        s.len() as int
    } else if !is_digit(s[i]) {
        i
    } else {
        digits_end(s, i + 1)
    }
}

/// The end of the run of ASCII digits that starts at `i`.
pub fn digits_end_exec(s: &Vec<char>, i: usize) -> (r: usize)
    requires
        i <= s@.len(),
    ensures
        r as int == digits_end(s@, i as int),
        i <= r <= s@.len(),
{
    let mut j = i;
    while j < s.len() && '0' <= s[j] && s[j] <= '9'
        invariant
            i <= j <= s@.len(),
            digits_end(s@, i as int) == digits_end(s@, j as int),
        decreases s@.len() - j,
    {
        j = j + 1;
    }
    j
}

/// The number that a sequence of ASCII digits writes in decimal.
pub open spec fn decimal_value(d: Seq<char>) -> nat
    decreases d.len(),
{
    if d.len() == 0 {
        0
    } else {
        decimal_value(d.drop_last()) * 10 + (d.last() as nat - '0' as nat) as nat
    }
}

/// The value of the digits `s[a..b]`, or `None` when it exceeds `usize::MAX`.
pub fn parse_decimal(s: &Vec<char>, a: usize, b: usize) -> (r: Option<usize>)
    requires
        a <= b <= s@.len(),
        forall|x: int| a <= x < b ==> is_digit(s@[x]),
    ensures
        match r {
            Some(v) => v as nat == decimal_value(s@.subrange(a as int, b as int)),
            None => decimal_value(s@.subrange(a as int, b as int)) > usize::MAX,
        },
{
    let mut v: usize = 0;
    let mut j = a;
    while j < b
        invariant
            a <= j <= b <= s@.len(),
            forall|x: int| a <= x < b ==> is_digit(s@[x]),
            v as nat == decimal_value(s@.subrange(a as int, j as int)),
        decreases b - j,
    {
        let d = (s[j] as u32 - '0' as u32) as usize;
        proof {
            assert(s@.subrange(a as int, j + 1).drop_last() =~= s@.subrange(a as int, j as int));
        }
        if v > (usize::MAX - d) / 10 {
            proof {
                lemma_decimal_grows(s@.subrange(a as int, b as int), (j - a) as int + 1);
                assert(s@.subrange(a as int, b as int).subrange(0, (j - a) + 1) =~= s@.subrange(
                    a as int,
                    j + 1,
                ));
                assert(v * 10 + d > usize::MAX) by (nonlinear_arith)
                    requires
                        v > (usize::MAX - d) / 10,
                        d <= 9,
                ;
            }
            return None;
        }
        proof {
            assert(v * 10 + d <= usize::MAX) by (nonlinear_arith)
                requires
                    v <= (usize::MAX - d) / 10,
                    d <= 9,
            ;
        }
        v = v * 10 + d;
        j = j + 1;
    }
    Some(v)
}

/// The value of a prefix of the digits is at most the value of all of them.
proof fn lemma_decimal_grows(d: Seq<char>, n: int)
    requires
        0 <= n <= d.len(),
        forall|x: int| 0 <= x < d.len() ==> is_digit(d[x]),
    ensures
        decimal_value(d.subrange(0, n)) <= decimal_value(d),
    decreases d.len() - n,
{
    if n < d.len() {
        lemma_decimal_grows(d, n + 1);
        let p = d.subrange(0, n + 1);
        assert(p.drop_last() =~= d.subrange(0, n));
        assert(decimal_value(p) >= decimal_value(d.subrange(0, n))) by (nonlinear_arith)
            requires
                decimal_value(p) == decimal_value(d.subrange(0, n)) * 10 + (p.last() as nat
                    - '0' as nat) as nat,
        ;
    } else {
        assert(d.subrange(0, n) =~= d);
    }
}

/// A copy of `s[a..b]`.
pub fn slice_chars(s: &Vec<char>, a: usize, b: usize) -> (r: Vec<char>)
    requires
        a <= b <= s@.len(),
    ensures
        r@ == s@.subrange(a as int, b as int),
{
    let mut out: Vec<char> = Vec::new();
    let mut j = a;
    while j < b
        invariant
            a <= j <= b <= s@.len(),
            out@ == s@.subrange(a as int, j as int),
        decreases b - j,
    {
        out.push(s[j]);
        proof {
            assert(out@ =~= s@.subrange(a as int, j + 1));
        }
        j = j + 1;
    }
    out
}

/// The pieces of `t[start..]` between occurrences of `c`.
pub open spec fn split_from(t: Seq<char>, start: int, c: char) -> Seq<Seq<char>>
    decreases t.len() - start,
{
    let i = next_char(t, start, c);
    if start < 0 || start > t.len() || i >= t.len() || i < start {
        seq![t.subrange(start, t.len() as int)]
    } else {
        seq![t.subrange(start, i)] + split_from(t, i + 1, c)
    }
}

/// The pieces of `t` between occurrences of `c`, as `str::split` gives them.
pub open spec fn split_on(t: Seq<char>, c: char) -> Seq<Seq<char>> {
    split_from(t, 0, c)
}

/// The pieces of `t` between occurrences of `c`.
pub fn split_exec(t: &Vec<char>, c: char) -> (r: Vec<Vec<char>>)
    ensures
        r@.len() == split_on(t@, c).len(),
        forall|i: int| 0 <= i < r@.len() ==> (#[trigger] r@[i])@ == split_on(t@, c)[i],
{
    let mut out: Vec<Vec<char>> = Vec::new();
    let mut start: usize = 0;
    let ghost mut done: Seq<Seq<char>> = Seq::empty();
    loop
        invariant
            start <= t@.len(),
            out@.len() == done.len(),
            forall|i: int| 0 <= i < out@.len() ==> (#[trigger] out@[i])@ == done[i],
            done + split_from(t@, start as int, c) == split_on(t@, c),
        decreases t@.len() - start,
    {
        let i = next_char_exec(t, start, c);
        let piece = slice_chars(t, start, if i < t.len() { i } else { t.len() });
        proof {
            done = done.push(piece@);
        }
        out.push(piece);
        if i >= t.len() {
            proof {
                assert(done =~= split_on(t@, c));
            }
            return out;
        }
        proof {
            assert(split_from(t@, start as int, c) == seq![t@.subrange(start as int, i as int)]
                + split_from(t@, i + 1, c));
            assert(done + split_from(t@, i + 1, c) =~= split_on(t@, c));
        }
        start = i + 1;
    }
}

/// `t` without the characters that satisfy `p` at its start.
pub open spec fn strip_start(t: Seq<char>, p: spec_fn(char) -> bool) -> Seq<char>
    decreases t.len(),
{
    if t.len() > 0 && p(t[0]) {
        strip_start(t.drop_first(), p)
    } else {
        t
    }
}

/// `t` without the characters that satisfy `p` at its end.
pub open spec fn strip_end(t: Seq<char>, p: spec_fn(char) -> bool) -> Seq<char>
    decreases t.len(),
{
    if t.len() > 0 && p(t.last()) {
        strip_end(t.drop_last(), p)
    } else {
        t
    }
}

/// `t` without white space at either end, as `str::trim` gives it.
pub open spec fn trim(t: Seq<char>) -> Seq<char> {
    strip_end(strip_start(t, |c: char| is_space(c)), |c: char| is_space(c))
}

/// The bounds `[a, b)` of `t` without white space at either end.
fn trim_bounds(t: &Vec<char>) -> (r: (usize, usize))
    ensures
        r.0 <= r.1 <= t@.len(),
        t@.subrange(r.0 as int, r.1 as int) == trim(t@),
{
    let ghost p = |c: char| is_space(c);
    let mut a: usize = 0;
    proof {
        assert(t@.subrange(0, t@.len() as int) =~= t@);
    }
    while a < t.len() && is_space_char(t[a])
        invariant
            a <= t@.len(),
            p == (|c: char| is_space(c)),
            strip_start(t@, p) == strip_start(t@.subrange(a as int, t@.len() as int), p),
        decreases t@.len() - a,
    {
        proof {
            assert(t@.subrange(a as int, t@.len() as int).drop_first() =~= t@.subrange(
                a + 1,
                t@.len() as int,
            ));
        }
        a = a + 1;
    }
    let mut b: usize = t.len();
    proof {
        assert(strip_start(t@, p) == t@.subrange(a as int, b as int));
    }
    while b > a && is_space_char(t[b - 1])
        invariant
            a <= b <= t@.len(),
            p == (|c: char| is_space(c)),
            strip_end(strip_start(t@, p), p) == strip_end(t@.subrange(a as int, b as int), p),
        decreases b - a,
    {
        proof {
            assert(t@.subrange(a as int, b as int).drop_last() =~= t@.subrange(a as int, b - 1));
        }
        b = b - 1;
    }
    (a, b)
}

/// `t` without white space at either end.
pub fn trim_exec(t: &Vec<char>) -> (r: Vec<char>)
    ensures
        r@ == trim(t@),
{
    let (a, b) = trim_bounds(t);
    slice_chars(t, a, b)
}


/// The character that a backslash escape stands for in a `Debug`-printed
/// string: `\n`, `\t`, `\r` and `\0` stand for control characters, any
/// other escaped character for itself.
pub open spec fn escaped(c: char) -> char {
    if c == 'n' {
        '\n'
    } else if c == 't' {
        '\t'
    } else if c == 'r' {
        '\r'
    } else if c == '0' {
        '\0'
    } else {
        c
    }
}

pub fn escaped_exec(c: char) -> (r: char)
    ensures
        r == escaped(c),
{
    if c == 'n' {
        '\n'
    } else if c == 't' {
        '\t'
    } else if c == 'r' {
        '\r'
    } else if c == '0' {
        '\0'
    } else {
        c
    }
}

/// The text that the body `t` of a quoted string stands for, escapes undone.
pub open spec fn unescape(t: Seq<char>) -> Seq<char>
    decreases t.len(),
{
    if t.len() == 0 {
        Seq::empty()
    } else if t[0] == '\\' && t.len() >= 2 {
        seq![escaped(t[1])] + unescape(t.subrange(2, t.len() as int))
    } else {
        seq![t[0]] + unescape(t.drop_first())
    }
}

/// The text that `s[a..b]` stands for as the body of a quoted string.
pub fn unescape_exec(s: &Vec<char>, a: usize, b: usize) -> (r: Vec<char>)
    requires
        a <= b <= s@.len(),
    ensures
        r@ == unescape(s@.subrange(a as int, b as int)),
{
    let mut out: Vec<char> = Vec::new();
    let mut j = a;
    while j < b
        invariant
            a <= j <= b <= s@.len(),
            out@ + unescape(s@.subrange(j as int, b as int)) == unescape(
                s@.subrange(a as int, b as int),
            ),
        decreases b - j,
    {
        let t = Ghost(s@.subrange(j as int, b as int));
        if s[j] == '\\' && j + 1 < b {
            proof {
                assert(t@.subrange(2, t@.len() as int) =~= s@.subrange(j + 2, b as int));
                assert(out@ + unescape(t@) =~= out@.push(escaped(s@[j + 1])) + unescape(
                    s@.subrange(j + 2, b as int),
                ));
            }
            out.push(escaped_exec(s[j + 1]));
            j = j + 2;
        } else {
            proof {
                assert(t@.drop_first() =~= s@.subrange(j + 1, b as int));
                assert(out@ + unescape(t@) =~= out@.push(s@[j as int]) + unescape(
                    s@.subrange(j + 1, b as int),
                ));
            }
            out.push(s[j]);
            j = j + 1;
        }
    }
    proof {
        assert(out@ + unescape(s@.subrange(j as int, b as int)) =~= out@);
    }
    out
}

/// Where a quoted string whose body starts at `j` ends: just after the first
/// double quote that no backslash escapes.
pub open spec fn quoted_end_from(s: Seq<char>, j: int) -> Option<int>
    decreases s.len() - j,
{
    if j < 0 || j >= s.len() {
        None
    } else if s[j] == '"' {
        Some(j + 1)
    } else if s[j] == '\\' {
        if j + 1 < s.len() {
            quoted_end_from(s, j + 2)
        } else {
            None
        }
    } else {
        quoted_end_from(s, j + 1)
    }
}

/// Where the quoted string that starts at `i` ends, if one starts there.
pub open spec fn quoted_at(s: Seq<char>, i: int) -> Option<int> {
    if 0 <= i < s.len() && s[i] == '"' {
        quoted_end_from(s, i + 1)
    } else {
        None
    }
}

pub fn quoted_at_exec(s: &Vec<char>, i: usize) -> (r: Option<usize>)
    ensures
        match r {
            Some(e) => quoted_at(s@, i as int) == Some(e as int) && i + 2 <= e <= s@.len()
                && s@[e - 1] == '"',
            None => quoted_at(s@, i as int) is None,
        },
        s@.len() <= usize::MAX,
{
    if i >= s.len() || s[i] != '"' {
        return None;
    }
    let mut j = i + 1;
    while j < s.len()
        invariant
            i < s@.len(),
            s@[i as int] == '"',
            i + 1 <= j,
            j <= s@.len() + 1,
            quoted_at(s@, i as int) == quoted_end_from(s@, j as int),
        decreases s@.len() + 1 - j,
    {
        if s[j] == '"' {
            return Some(j + 1);
        }
        if s[j] == '\\' {
            if j + 1 >= s.len() {
                return None;
            }
            j = j + 2;
        } else {
            j = j + 1;
        }
    }
    None
}

} // verus!
