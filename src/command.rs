//! Turning the text of a directive into the shell command to run: split it
//! into shell words, quote the words that hold whitespace, read the options
//! `--strict` and `--expect-return-code N`, and join the remaining words
//! into one shell command line.

use vstd::prelude::*;
use vstd::string::*;

use crate::text::{contains_whitespace, has_ws, push_all, push_range};

verus! {

#[verifier::external_type_specification]
#[verifier::external_body]
pub struct ExMismatchedQuotes(shellwords::MismatchedQuotes);

/// The words of a text as the Bourne shell splits them, or `None` where a
/// quote is left open.
pub uninterp spec fn shell_split(s: Seq<char>) -> Option<Seq<Seq<char>>>;

/// The characters that a word may hold unescaped.
pub open spec fn plain_char(c: char) -> bool {
    ('A' <= c && c <= 'Z') || ('a' <= c && c <= 'z') || ('0' <= c && c <= '9') || c == '_' || c
        == '-' || c == '.' || c == ',' || c == ':' || c == '/' || c == '@'
}

/// One character of a word, escaped for the Bourne shell: a newline is
/// quoted, any other character outside the plain set gets a backslash.
pub open spec fn escaped_char(c: char) -> Seq<char> {
    if c == '\n' {
        seq!['\'', '\n', '\'']
    } else if plain_char(c) {
        seq![c]
    } else {
        seq!['\\', c]
    }
}

pub open spec fn escaped_chars(w: Seq<char>) -> Seq<char>
    decreases w.len(),
{
    if w.len() == 0 {
        Seq::empty()
    } else {
        escaped_chars(w.drop_last()) + escaped_char(w.last())
    }
}

/// A word escaped for the Bourne shell; the empty word is `''`.
pub open spec fn escaped_word(w: Seq<char>) -> Seq<char> {
    if w.len() == 0 {
        seq!['\'', '\'']
    } else {
        escaped_chars(w)
    }
}

/// One command line made of words, each escaped for the Bourne shell and
/// separated by a single space.
pub open spec fn shell_join(words: Seq<Seq<char>>) -> Seq<char>
    decreases words.len(),
{
    if words.len() == 0 {
        Seq::empty()
    } else if words.len() == 1 {
        escaped_word(words[0])
    } else {
        shell_join(words.drop_last()) + seq![' '] + escaped_word(words.last())
    }
}

/// Relies on `shellwords::split`: it splits a text into shell words, and fails
/// with `MismatchedQuotes` where a quote is left open; its outcome depends on
/// the text alone.
#[verifier::external_body]
fn split_words(s: &str) -> (r: Result<Vec<String>, shellwords::MismatchedQuotes>)
    ensures
        r is Ok <==> shell_split(s@) is Some,
        r matches Ok(w) ==> w.deep_view() == shell_split(s@)->0,
{
    shellwords::split(s)
}

/// Relies on `shellwords::join`: it escapes each word with `escape` (the
/// empty word becomes `''`, a backslash goes before each character outside
/// `[A-Za-z0-9_\-.,:/@\n]`, and each newline becomes `'\n'`) and joins the
/// words with single spaces.
#[verifier::external_body]
fn join_words(words: &Vec<String>) -> (r: String)
    ensures
        r@ == shell_join(words.deep_view()),
{
    let refs: Vec<&str> = words.iter().map(|w| w.as_str()).collect();
    shellwords::join(&refs)
}

/// The characters of `s`, in order.
pub(crate) fn chars_of(s: &str) -> (r: Vec<char>)
    ensures
        r@ == s@,
{
    let mut r: Vec<char> = Vec::new();
    for c in it: s.chars()
        invariant
            it.seq() == s@,
            r@ == it.seq().take(it.index() as int),
    {
        r.push(c);
        assert(r@ =~= it.seq().take(it.index() as int + 1));
    }
    r
}

/// Relies on `String`'s `FromIterator<&char>`: the string of these characters.
#[verifier::external_body]
pub(crate) fn string_of(v: &Vec<char>) -> (r: String)
    ensures
        r@ == v@,
{
    v.iter().collect()
}

/// Why the options of a directive could not be read.
#[derive(Clone, Copy, Debug, PartialEq, Eq, Structural)]
pub enum ArgumentError {
    /// No word is left for the command.
    MissingCommand,
    /// `--strict` and `--expect-return-code` were both given.
    ConflictingOptions,
    /// An option was given twice.
    RepeatedOption,
    /// `--expect-return-code` ends the text, with no value after it.
    MissingValue,
    /// The value of `--expect-return-code` is no 32-bit integer.
    InvalidCode,
    /// A word starting with `-`, before the first word of the command, that
    /// is no known option.
    UnknownOption,
}

/// Why a directive could not be turned into a command.
#[derive(Clone, Copy, Debug, PartialEq, Eq, Structural)]
pub enum DirectiveError {
    /// A quote in the directive's text is left open.
    Tokenization,
    /// The options could not be read.
    Argument(ArgumentError),
}

/// What a directive asks to run: the shell command line, and the exit code
/// it must end with, if any.
#[derive(Clone, Debug)]
pub struct Invocation {
    pub command: String,
    pub expected: Option<i32>,
}

/// A word that holds whitespace, wrapped in single quotes; any other word as
/// it is.
pub open spec fn requote(w: Seq<char>) -> Seq<char> {
    if has_ws(w) {
        seq!['\''] + w + seq!['\'']
    } else {
        w
    }
}

/// The character sequences of a sequence of words.
pub open spec fn wv(ws: Seq<Vec<char>>) -> Seq<Seq<char>> {
    ws.map_values(|w: Vec<char>| w@)
}

pub open spec fn requoted(ws: Seq<Seq<char>>) -> Seq<Seq<char>> {
    ws.map_values(|w: Seq<char>| requote(w))
}

pub open spec fn is_digit(c: char) -> bool {
    '0' <= c && c <= '9'
}

/// The value of a string of decimal digits.
pub open spec fn digits_value(d: Seq<char>) -> int
    decreases d.len(),
{
    if d.len() == 0 {
        0
    } else {
        digits_value(d.drop_last()) * 10 + (d.last() as int - '0' as int)
    }
}

pub open spec fn all_digits(d: Seq<char>) -> bool {
    forall|i: int| 0 <= i < d.len() ==> is_digit(#[trigger] d[i])
}

pub open spec fn has_sign(w: Seq<char>) -> bool {
    w.len() > 0 && (w[0] == '+' || w[0] == '-')
}

/// `w` without its sign.
pub open spec fn unsigned_part(w: Seq<char>) -> Seq<char> {
    if has_sign(w) {
        w.subrange(1, w.len() as int)
    } else {
        w
    }
}

/// The 32-bit integer that `w` writes: an optional sign, then one or more
/// decimal digits, as `i32::from_str` reads it.
pub open spec fn int_value(w: Seq<char>) -> Option<i32> {
    let d = unsigned_part(w);
    let v = if has_sign(w) && w[0] == '-' {
        -digits_value(d)
    } else {
        digits_value(d)
    };
    if d.len() > 0 && all_digits(d) && i32::MIN <= v <= i32::MAX {
        Some(v as i32)
    } else {
        None
    }
}

/// The options read from the words `ws[i..]`, with `strict`, `code` and the
/// command words `cmd` what the words before gave: the words of the command,
/// and the exit code it must end with. Options are read wherever they stand
/// up to a `--`; every other word belongs to the command, except that a word
/// starting with `-` before the first command word must be an option.
pub open spec fn args_from(
    ws: Seq<Seq<char>>,
    i: int,
    strict: bool,
    code: Option<i32>,
    cmd: Seq<Seq<char>>,
) -> Result<(Seq<Seq<char>>, Option<i32>), ArgumentError>
    decreases ws.len() - i,
{
    if i < 0 || i >= ws.len() {
        if cmd.len() == 0 {
            Err(ArgumentError::MissingCommand)
        } else {
            Ok((cmd, expected_of(strict, code)))
        }
    } else {
        let w = ws[i];
        if w == "--"@ {
            let all = cmd + ws.subrange(i + 1, ws.len() as int);
            if all.len() > 0 {
                Ok((all, expected_of(strict, code)))
            } else {
                Err(ArgumentError::MissingCommand)
            }
        } else if w == "--strict"@ {
            if strict {
                Err(ArgumentError::RepeatedOption)
            } else if code is Some {
                Err(ArgumentError::ConflictingOptions)
            } else {
                args_from(ws, i + 1, true, code, cmd)
            }
        } else if w == "--expect-return-code"@ || starts_with(w, "--expect-return-code="@) {
            let inline_value = w != "--expect-return-code"@;
            if code is Some {
                Err(ArgumentError::RepeatedOption)
            } else if strict {
                Err(ArgumentError::ConflictingOptions)
            } else if !inline_value && i + 1 >= ws.len() {
                Err(ArgumentError::MissingValue)
            } else {
                let value = if inline_value {
                    w.subrange("--expect-return-code="@.len() as int, w.len() as int)
                } else {
                    ws[i + 1]
                };
                match int_value(value) {
                    Some(n) => args_from(
                        ws,
                        if inline_value {
                            i + 1
                        } else {
                            i + 2
                        },
                        strict,
                        Some(n),
                        cmd,
                    ),
                    None => Err(ArgumentError::InvalidCode),
                }
            }
        } else if cmd.len() == 0 && w.len() > 1 && w[0] == '-' {
            Err(ArgumentError::UnknownOption)
        } else {
            args_from(ws, i + 1, strict, code, cmd.push(w))
        }
    }
}

/// `--strict` asks for exit code 0.
pub open spec fn expected_of(strict: bool, code: Option<i32>) -> Option<i32> {
    if strict {
        Some(0i32)
    } else {
        code
    }
}

pub open spec fn starts_with(w: Seq<char>, p: Seq<char>) -> bool {
    w.len() >= p.len() && w.subrange(0, p.len() as int) == p
}

/// The options of a directive, read from its words: `--strict` or
/// `--expect-return-code N` (also `--expect-return-code=N`), at most one of
/// them, before, among or after the words of the command; a `--` ends the
/// options.
pub open spec fn parse_args(ws: Seq<Seq<char>>) -> Result<(Seq<Seq<char>>, Option<i32>), ArgumentError> {
    args_from(ws, 0, false, None, Seq::empty())
}

/// What the text of a directive asks to run: the command line and the exit
/// code expected of it.
pub open spec fn prepared(raw: Seq<char>) -> Result<(Seq<char>, Option<i32>), DirectiveError> {
    match shell_split(raw) {
        None => Err(DirectiveError::Tokenization),
        Some(ws) => match parse_args(requoted(ws)) {
            Err(e) => Err(DirectiveError::Argument(e)),
            Ok((cmd, code)) => Ok((shell_join(cmd), code)),
        },
    }
}

fn eq_lit(w: &Vec<char>, lit: &str) -> (r: bool)
    ensures
        r == (w@ == lit@),
{
    let n = lit.unicode_len();
    if w.len() != n {
        return false;
    }
    let mut i: usize = 0;
    while i < n
        invariant
            n == lit@.len() == w@.len(),
            i <= n,
            forall|j: int| 0 <= j < i ==> w@[j] == lit@[j],
        decreases n - i,
    {
        if w[i] != lit.get_char(i) {
            return false;
        }
        i = i + 1;
    }
    assert(w@ =~= lit@);
    true
}

fn starts_with_lit(w: &Vec<char>, lit: &str) -> (r: bool)
    ensures
        r == starts_with(w@, lit@),
{
    let n = lit.unicode_len();
    if w.len() < n {
        return false;
    }
    let mut i: usize = 0;
    while i < n
        invariant
            n == lit@.len() <= w@.len(),
            i <= n,
            forall|j: int| 0 <= j < i ==> w@[j] == lit@[j],
        decreases n - i,
    {
        if w[i] != lit.get_char(i) {
            assert(w@.subrange(0, n as int)[i as int] != lit@[i as int]);
            return false;
        }
        i = i + 1;
    }
    assert(w@.subrange(0, n as int) =~= lit@);
    true
}

/// Reads a 32-bit integer: an optional sign, then one or more decimal digits.
pub fn parse_int(w: &Vec<char>) -> (r: Option<i32>)
    ensures
        r == int_value(w@),
{
    let signed = w.len() > 0 && (w[0] == '+' || w[0] == '-');
    let negative = signed && w[0] == '-';
    let start: usize = if signed { 1 } else { 0 };
    let ghost d = unsigned_part(w@);
    if start >= w.len() {
        return None;
    }
    let limit: i64 = 2147483648;
    let mut acc: i64 = 0;
    let mut big = false;
    let mut i: usize = start;
    assert(d.subrange(0, 0) =~= Seq::<char>::empty());
    while i < w.len()
        invariant
            start <= i <= w@.len(),
            signed == has_sign(w@),
            d == unsigned_part(w@),
            start == (if signed { 1usize } else { 0usize }),
            negative == (signed && w@[0] == '-'),
            d.len() == w@.len() - start,
            forall|j: int| 0 <= j < d.len() ==> d[j] == w@[j + start],
            forall|j: int| 0 <= j < i - start ==> is_digit(#[trigger] d[j]),
            !big ==> 0 <= acc <= limit && acc == digits_value(d.subrange(0, i - start)),
            big ==> digits_value(d.subrange(0, i - start)) > limit,
            limit == 2147483648,
        decreases w@.len() - i,
    {
        let c = w[i];
        assert(d[i - start] == c);
        if !('0' <= c && c <= '9') {
            assert(!is_digit(d[i - start]));
            return None;
        }
        let ghost pre = d.subrange(0, i - start);
        let ghost next = d.subrange(0, i + 1 - start);
        assert(next.drop_last() =~= pre);
        assert(next.last() == c);
        let dv: i64 = (c as u32 - '0' as u32) as i64;
        if !big {
            acc = acc * 10 + dv;
            if acc > limit {
                big = true;
            }
        } else {
            assert(digits_value(next) >= digits_value(pre) * 10);
        }
        i = i + 1;
    }
    assert(d.subrange(0, d.len() as int) =~= d);
    if big {
        return None;
    }
    if negative {
        Some((0 - acc) as i32)
    } else if acc > 2147483647 {
        None
    } else {
        Some(acc as i32)
    }
}

fn copy_chars(w: &Vec<char>) -> (r: Vec<char>)
    ensures
        r@ == w@,
{
    let mut r: Vec<char> = Vec::new();
    push_all(&mut r, w);
    r
}

/// Each word that holds whitespace wrapped in single quotes.
pub fn requote_words(ws: &Vec<Vec<char>>) -> (r: Vec<Vec<char>>)
    ensures
        wv(r@) == requoted(wv(ws@)),
{
    let mut r: Vec<Vec<char>> = Vec::new();
    let mut i: usize = 0;
    while i < ws.len()
        invariant
            i <= ws@.len(),
            wv(r@) == requoted(wv(ws@)).subrange(0, i as int),
        decreases ws@.len() - i,
    {
        let w = &ws[i];
        let mut q: Vec<char> = Vec::new();
        if contains_whitespace(w) {
            q.push('\'');
            push_all(&mut q, w);
            q.push('\'');
        } else {
            push_all(&mut q, w);
        }
        assert(q@ =~= requote(w@));
        let ghost old_r = r@;
        let ghost qv = q@;
        r.push(q);
        assert(wv(r@) =~= wv(old_r).push(qv));
        i = i + 1;
        assert(wv(r@) =~= requoted(wv(ws@)).subrange(0, i as int));
    }
    assert(requoted(wv(ws@)).subrange(0, i as int) =~= requoted(wv(ws@)));
    r
}

/// Reads the options of a directive from its words, as `parse_args` states.
pub fn read_options(ws: &Vec<Vec<char>>) -> (r: Result<(Vec<Vec<char>>, Option<i32>), ArgumentError>)
    ensures
        r matches Ok((c, n)) ==> parse_args(wv(ws@)) == Ok::<
            (Seq<Seq<char>>, Option<i32>),
            ArgumentError,
        >((wv(c@), n)),
        r matches Err(e) ==> parse_args(wv(ws@)) == Err::<
            (Seq<Seq<char>>, Option<i32>),
            ArgumentError,
        >(e),
{
    let ghost v = wv(ws@);
    let mut i: usize = 0;
    let mut strict = false;
    let mut code: Option<i32> = None;
    let mut cmd: Vec<Vec<char>> = Vec::new();
    assert(wv(cmd@) =~= Seq::<Seq<char>>::empty());
    while i < ws.len()
        invariant
            v == wv(ws@),
            i <= ws@.len(),
            args_from(v, i as int, strict, code, wv(cmd@)) == parse_args(v),
        decreases ws@.len() - i,
    {
        let w = &ws[i];
        assert(v[i as int] == w@);
        if eq_lit(w, "--") {
            let ghost before = wv(cmd@);
            let mut j: usize = i + 1;
            while j < ws.len()
                invariant
                    v == wv(ws@),
                    i < j <= ws@.len(),
                    wv(cmd@) == before + v.subrange(i + 1, j as int),
                decreases ws@.len() - j,
            {
                let ghost old_c = cmd@;
                let c = copy_chars(&ws[j]);
                let ghost cv = c@;
                cmd.push(c);
                assert(wv(cmd@) =~= wv(old_c).push(cv));
                assert(before + v.subrange(i + 1, j + 1) =~= (before + v.subrange(i + 1, j as int)).push(cv));
                j = j + 1;
            }
            if cmd.len() == 0 {
                return Err(ArgumentError::MissingCommand);
            }
            let expected = if strict { Some(0i32) } else { code };
            return Ok((cmd, expected));
        } else if eq_lit(w, "--strict") {
            if strict {
                return Err(ArgumentError::RepeatedOption);
            } else if code.is_some() {
                return Err(ArgumentError::ConflictingOptions);
            }
            strict = true;
            i = i + 1;
        } else if eq_lit(w, "--expect-return-code") || starts_with_lit(w, "--expect-return-code=") {
            let inline_value = !eq_lit(w, "--expect-return-code");
            if code.is_some() {
                return Err(ArgumentError::RepeatedOption);
            } else if strict {
                return Err(ArgumentError::ConflictingOptions);
            } else if !inline_value && i + 1 >= ws.len() {
                return Err(ArgumentError::MissingValue);
            }
            let parsed = if inline_value {
                let n = "--expect-return-code=".unicode_len();
                let mut value: Vec<char> = Vec::new();
                push_range(&mut value, w, n, w.len());
                parse_int(&value)
            } else {
                assert(v[i + 1] == ws@[i + 1]@);
                parse_int(&ws[i + 1])
            };
            match parsed {
                Some(n) => {
                    code = Some(n);
                    i = if inline_value { i + 1 } else { i + 2 };
                },
                None => {
                    return Err(ArgumentError::InvalidCode);
                },
            }
        } else if cmd.len() == 0 && w.len() > 1 && w[0] == '-' {
            return Err(ArgumentError::UnknownOption);
        } else {
            let ghost old_c = cmd@;
            let c = copy_chars(w);
            let ghost cv = c@;
            cmd.push(c);
            assert(wv(cmd@) =~= wv(old_c).push(cv));
            i = i + 1;
        }
    }
    if cmd.len() == 0 {
        return Err(ArgumentError::MissingCommand);
    }
    let expected = if strict { Some(0i32) } else { code };
    Ok((cmd, expected))
}

/// Turns the text of a directive into the command to run: the text is split
/// into shell words, the words that hold whitespace are quoted, the options
/// are read, and the remaining words are joined into one command line.
pub fn prepare(raw: &Vec<char>) -> (r: Result<Invocation, DirectiveError>)
    ensures
        r matches Ok(inv) ==> prepared(raw@) == Ok::<(Seq<char>, Option<i32>), DirectiveError>(
            (inv.command@, inv.expected),
        ),
        r matches Err(e) ==> prepared(raw@) == Err::<(Seq<char>, Option<i32>), DirectiveError>(e),
{
    let text = string_of(raw);
    let split = split_words(text.as_str());
    let words = match split {
        Ok(words) => words,
        Err(_) => {
            return Err(DirectiveError::Tokenization);
        },
    };
    let mut ws: Vec<Vec<char>> = Vec::new();
    let mut i: usize = 0;
    while i < words.len()
        invariant
            i <= words@.len(),
            wv(ws@) == words.deep_view().subrange(0, i as int),
        decreases words@.len() - i,
    {
        let ghost old_ws = ws@;
        let w = chars_of(words[i].as_str());
        let ghost qv = w@;
        ws.push(w);
        assert(wv(ws@) =~= wv(old_ws).push(qv));
        i = i + 1;
        assert(wv(ws@) =~= words.deep_view().subrange(0, i as int));
    }
    assert(words.deep_view().subrange(0, i as int) =~= words.deep_view());
    let quoted = requote_words(&ws);
    match read_options(&quoted) {
        Err(e) => Err(DirectiveError::Argument(e)),
        Ok((cmd, expected)) => {
            let mut parts: Vec<String> = Vec::new();
            let mut j: usize = 0;
            while j < cmd.len()
                invariant
                    j <= cmd@.len(),
                    parts.deep_view() == wv(cmd@).subrange(0, j as int),
                decreases cmd@.len() - j,
            {
                let ghost old_parts = parts.deep_view();
                let part = string_of(&cmd[j]);
                let ghost pv = part@;
                parts.push(part);
                assert(parts.deep_view() =~= old_parts.push(pv));
                j = j + 1;
                assert(parts.deep_view() =~= wv(cmd@).subrange(0, j as int));
            }
            assert(wv(cmd@).subrange(0, j as int) =~= wv(cmd@));
            let command = join_words(&parts);
            Ok(Invocation { command, expected })
        },
    }
}

} // verus!
