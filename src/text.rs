//! Character-level text helpers: whitespace, trimming, line terminators and
//! decimal rendering of integers.

use vstd::prelude::*;

verus! {

/// The Unicode `White_Space` property, as `char::is_whitespace` documents it.
pub open spec fn is_ws(c: char) -> bool {
    ('\u{9}' <= c && c <= '\u{d}') || c == ' ' || c == '\u{85}' || c == '\u{a0}'
        || c == '\u{1680}' || ('\u{2000}' <= c && c <= '\u{200a}') || c == '\u{2028}'
        || c == '\u{2029}' || c == '\u{202f}' || c == '\u{205f}' || c == '\u{3000}'
}

pub fn is_whitespace(c: char) -> (r: bool)
    ensures
        r == is_ws(c),
{
    ('\u{9}' <= c && c <= '\u{d}') || c == ' ' || c == '\u{85}' || c == '\u{a0}'
        || c == '\u{1680}' || ('\u{2000}' <= c && c <= '\u{200a}') || c == '\u{2028}'
        || c == '\u{2029}' || c == '\u{202f}' || c == '\u{205f}' || c == '\u{3000}'
}

/// `s` without its trailing whitespace.
pub open spec fn trimmed_end(s: Seq<char>) -> Seq<char>
    decreases s.len(),
{
    if s.len() > 0 && is_ws(s.last()) {
        trimmed_end(s.drop_last())
    } else {
        s
    }
}

pub open spec fn has_ws(s: Seq<char>) -> bool {
    exists|i: int| 0 <= i < s.len() && is_ws(#[trigger] s[i])
}

pub fn contains_whitespace(s: &Vec<char>) -> (r: bool)
    ensures
        r == has_ws(s@),
{
    let mut i: usize = 0;
    while i < s.len()
        invariant
            i <= s@.len(),
            forall|j: int| 0 <= j < i ==> !is_ws(#[trigger] s@[j]),
        decreases s@.len() - i,
    {
        if is_whitespace(s[i]) {
            return true;
        }
        i = i + 1;
    }
    false
}

pub fn trim_end(s: &Vec<char>) -> (r: Vec<char>)
    ensures
        r@ == trimmed_end(s@),
{
    let mut n: usize = s.len();
    assert(s@.subrange(0, n as int) =~= s@);
    while n > 0 && is_whitespace(s[n - 1])
        invariant
            n <= s@.len(),
            trimmed_end(s@.subrange(0, n as int)) == trimmed_end(s@),
        decreases n,
    {
        assert(s@.subrange(0, n as int).drop_last() =~= s@.subrange(0, n - 1));
        n = n - 1;
    }
    assert(s@.subrange(0, n as int) == trimmed_end(s@.subrange(0, n as int)));
    let mut r: Vec<char> = Vec::new();
    let mut i: usize = 0;
    while i < n
        invariant
            i <= n <= s@.len(),
            r@ == s@.subrange(0, i as int),
        decreases n - i,
    {
        r.push(s[i]);
        i = i + 1;
        assert(r@ =~= s@.subrange(0, i as int));
    }
    r
}

/// Every line terminator (`"\n"` or `"\r\n"`) rewritten to `"\r\n"`, with a
/// terminator that ends the text dropped.
pub open spec fn crlf_lines(s: Seq<char>) -> Seq<char>
    decreases s.len(),
{
    if s.len() == 0 {
        s
    } else if s.len() >= 2 && s[0] == '\r' && s[1] == '\n' {
        if s.len() == 2 {
            Seq::empty()
        } else {
            seq!['\r', '\n'] + crlf_lines(s.subrange(2, s.len() as int))
        }
    } else if s[0] == '\n' {
        if s.len() == 1 {
            Seq::empty()
        } else {
            seq!['\r', '\n'] + crlf_lines(s.subrange(1, s.len() as int))
        }
    } else {
        seq![s[0]] + crlf_lines(s.subrange(1, s.len() as int))
    }
}

pub fn to_crlf_lines(s: &Vec<char>) -> (r: Vec<char>)
    ensures
        r@ == crlf_lines(s@),
{
    let mut r: Vec<char> = Vec::new();
    let mut i: usize = 0;
    assert(s@.subrange(0, s@.len() as int) =~= s@);
    assert(r@ + s@ =~= s@);
    while i < s.len()
        invariant
            i <= s@.len(),
            r@ + crlf_lines(s@.subrange(i as int, s@.len() as int)) == crlf_lines(s@),
        decreases s@.len() - i,
    {
        let ghost rest = s@.subrange(i as int, s@.len() as int);
        if i + 1 < s.len() && s[i] == '\r' && s[i + 1] == '\n' {
            if i + 2 < s.len() {
                r.push('\r');
                r.push('\n');
            }
            assert(rest.subrange(2, rest.len() as int) =~= s@.subrange(i + 2, s@.len() as int));
            i = i + 2;
        } else if s[i] == '\n' {
            if i + 1 < s.len() {
                r.push('\r');
                r.push('\n');
            }
            assert(rest.subrange(1, rest.len() as int) =~= s@.subrange(i + 1, s@.len() as int));
            i = i + 1;
        } else {
            r.push(s[i]);
            assert(rest.subrange(1, rest.len() as int) =~= s@.subrange(i + 1, s@.len() as int));
            i = i + 1;
        }
        assert(r@ + crlf_lines(s@.subrange(i as int, s@.len() as int)) =~= crlf_lines(s@));
    }
    assert(s@.subrange(i as int, s@.len() as int) =~= Seq::<char>::empty());
    assert(r@ =~= crlf_lines(s@));
    r
}

pub open spec fn digit_char(d: nat) -> char {
    ((d % 10) + 48) as char
}

/// The decimal digits of `n`, most significant first, with no leading zero.
pub open spec fn digits(n: nat) -> Seq<char>
    decreases n,
{
    if n < 10 {
        seq![digit_char(n)]
    } else {
        digits(n / 10) + seq![digit_char(n % 10)]
    }
}

/// `n` written in decimal, with a leading `-` when negative.
pub open spec fn decimal(n: int) -> Seq<char> {
    if n < 0 {
        seq!['-'] + digits((-n) as nat)
    } else {
        digits(n as nat)
    }
}

fn push_digits(out: &mut Vec<char>, n: u32)
    ensures
        final(out)@ == old(out)@ + digits(n as nat),
    decreases n,
{
    if n >= 10 {
        push_digits(out, n / 10);
    }
    let d: u32 = n % 10;
    out.push(((d + 48) as u8) as char);
    assert(((d + 48) as u8) as char == digit_char((n % 10) as nat));
}

pub fn push_decimal(out: &mut Vec<char>, n: i32)
    ensures
        final(out)@ == old(out)@ + decimal(n as int),
{
    if n < 0 {
        out.push('-');
        let m: u32 = (0i64 - (n as i64)) as u32;
        push_digits(out, m);
        assert(out@ =~= old(out)@ + decimal(n as int));
    } else {
        push_digits(out, n as u32);
    }
}

/// Appends `t[a..b]` to `out`.
pub fn push_range(out: &mut Vec<char>, t: &Vec<char>, a: usize, b: usize)
    requires
        a <= b <= t@.len(),
    ensures
        final(out)@ == old(out)@ + t@.subrange(a as int, b as int),
{
    let mut i: usize = a;
    while i < b
        invariant
            a <= i <= b <= t@.len(),
            out@ == old(out)@ + t@.subrange(a as int, i as int),
        decreases b - i,
    {
        out.push(t[i]);
        i = i + 1;
        assert(out@ =~= old(out)@ + t@.subrange(a as int, i as int));
    }
}

/// Appends all of `t` to `out`.
pub fn push_all(out: &mut Vec<char>, t: &Vec<char>)
    ensures
        final(out)@ == old(out)@ + t@,
{
    push_range(out, t, 0, t.len());
    assert(t@.subrange(0, t@.len() as int) =~= t@);
}

} // verus!
