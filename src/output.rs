//! From a finished command to the text that replaces its directive: the
//! captured output is normalised for the substitution mode and the platform's
//! line terminators, and an exit code that was not the expected one turns the
//! replacement into a visible error banner.

use vstd::prelude::*;
use vstd::string::*;
use vstd::utf8::{decode_utf8, valid_utf8};

use crate::text::{
    crlf_lines, decimal, push_all, push_decimal, to_crlf_lines, trim_end, trimmed_end,
};

verus! {

/// How line terminators in line-consuming output are written.
#[derive(Clone, Copy, Debug, PartialEq, Eq, Structural)]
pub enum Newlines {
    /// Output is kept as the command wrote it.
    Keep,
    /// Every line ends with `"\r\n"`.
    Crlf,
}

/// What a command left behind: its captured output streams, and its exit
/// code, absent where the process ended abnormally.
#[derive(Clone, Debug)]
pub struct ExecOutput {
    pub stdout: Vec<u8>,
    pub stderr: Vec<u8>,
    pub code: Option<i32>,
}

/// Bytes decoded as UTF-8, each invalid sequence replaced by U+FFFD.
pub uninterp spec fn utf8_lossy(b: Seq<u8>) -> Seq<char>;

/// A string as Rust's `Debug` writes it: quoted, with special characters
/// escaped.
pub uninterp spec fn debug_quoted(s: Seq<char>) -> Seq<char>;

/// Relies on `String::from_utf8_lossy`: the text of the bytes, with invalid
/// sequences replaced; it depends on the bytes alone, and valid UTF-8 comes
/// back as the text it encodes.
#[verifier::external_body]
fn decode_lossy(b: &Vec<u8>) -> (r: Vec<char>)
    ensures
        r@ == utf8_lossy(b@),
        valid_utf8(b@) ==> r@ == decode_utf8(b@),
{
    String::from_utf8_lossy(b).chars().collect()
}

/// Relies on `<str as Debug>::fmt`: the quoted, escaped form of the text; it
/// depends on the text alone.
#[verifier::external_body]
fn quote_debug(s: &str) -> (r: Vec<char>)
    ensures
        r@ == debug_quoted(s@),
{
    format!("{:?}", s).chars().collect()
}

/// Captured output made ready for its place: inline, trailing whitespace is
/// dropped and nothing else changes; in line-consuming mode with `Crlf`,
/// terminators become `"\r\n"` and text that is not empty ends with exactly
/// one.
pub open spec fn formatted(s: Seq<char>, inline: bool, newlines: Newlines) -> Seq<char> {
    if inline {
        trimmed_end(s)
    } else {
        match newlines {
            Newlines::Keep => s,
            Newlines::Crlf => if crlf_lines(s).len() > 0 {
                crlf_lines(s) + seq!['\r', '\n']
            } else {
                crlf_lines(s)
            },
        }
    }
}

/// The banner that stands in for the output of a command whose exit code
/// was not the expected one.
pub open spec fn banner(cmd: Seq<char>, code: i32, expected: i32, out: Seq<char>, err: Seq<char>) -> Seq<char> {
    "**cmdrun error**: '"@ + cmd + "' returned exit code "@ + decimal(code as int)
        + " instead of "@ + decimal(expected as int) + ".\n"@ + out + "\n"@ + err
}

/// The text that replaces a directive, given the command line that ran, the
/// exit code expected of it, and what it left behind (`out` already
/// formatted, `err` decoded).
pub open spec fn replacement(
    cmd: Seq<char>,
    expected: Option<i32>,
    code: Option<i32>,
    out: Seq<char>,
    err: Seq<char>,
) -> Seq<char> {
    match code {
        None => "'"@ + debug_quoted(cmd) + "' was ended before completing."@,
        Some(c) => match expected {
            Some(x) => if c != x {
                banner(cmd, c, x, out, err)
            } else {
                out
            },
            None => out,
        },
    }
}

/// Appends the characters of `lit` to `out`.
pub fn push_str(out: &mut Vec<char>, lit: &str)
    ensures
        final(out)@ == old(out)@ + lit@,
{
    let n = lit.unicode_len();
    let mut i: usize = 0;
    while i < n
        invariant
            n == lit@.len(),
            i <= n,
            out@ == old(out)@ + lit@.subrange(0, i as int),
        decreases n - i,
    {
        out.push(lit.get_char(i));
        i = i + 1;
        assert(out@ =~= old(out)@ + lit@.subrange(0, i as int));
    }
    assert(lit@.subrange(0, n as int) =~= lit@);
}

/// Makes captured output ready for its place, as `formatted` states.
pub fn format_chars(s: &Vec<char>, inline: bool, newlines: Newlines) -> (r: Vec<char>)
    ensures
        r@ == formatted(s@, inline, newlines),
{
    if inline {
        return trim_end(s);
    }
    match newlines {
        Newlines::Keep => {
            let mut c: Vec<char> = Vec::new();
            push_all(&mut c, s);
            c
        },
        Newlines::Crlf => {
            let mut r = to_crlf_lines(s);
            if r.len() > 0 {
                r.push('\r');
                r.push('\n');
                assert(r@ =~= crlf_lines(s@) + seq!['\r', '\n']);
            }
            r
        },
    }
}

/// The text that replaces a directive, given the command line that ran, the
/// exit code expected of it, its exit code, its formatted output and its
/// decoded error output, as `replacement` states.
pub fn outcome_text(
    cmd: &str,
    expected: Option<i32>,
    code: Option<i32>,
    out: Vec<char>,
    err: &Vec<char>,
) -> (r: Vec<char>)
    ensures
        r@ == replacement(cmd@, expected, code, out@, err@),
{
    let mut r: Vec<char> = Vec::new();
    match code {
        None => {
            push_str(&mut r, "'");
            push_all(&mut r, &quote_debug(cmd));
            push_str(&mut r, "' was ended before completing.");
            assert(r@ =~= "'"@ + debug_quoted(cmd@) + "' was ended before completing."@);
            r
        },
        Some(c) => match expected {
            Some(x) => {
                if c != x {
                    push_str(&mut r, "**cmdrun error**: '");
                    push_str(&mut r, cmd);
                    push_str(&mut r, "' returned exit code ");
                    push_decimal(&mut r, c);
                    push_str(&mut r, " instead of ");
                    push_decimal(&mut r, x);
                    push_str(&mut r, ".\n");
                    push_all(&mut r, &out);
                    push_str(&mut r, "\n");
                    push_all(&mut r, err);
                    assert(r@ =~= banner(cmd@, c, x, out@, err@));
                    r
                } else {
                    out
                }
            },
            None => out,
        },
    }
}

/// The text that replaces a directive once its command has run: its output
/// is decoded and formatted for the mode, its error output decoded, and the
/// result is as `replacement` states.
pub fn compose(
    cmd: &str,
    expected: Option<i32>,
    output: &ExecOutput,
    inline: bool,
    newlines: Newlines,
) -> (r: Vec<char>)
    ensures
        r@ == replacement(
            cmd@,
            expected,
            output.code,
            formatted(utf8_lossy(output.stdout@), inline, newlines),
            utf8_lossy(output.stderr@),
        ),
{
    let out = format_chars(&decode_lossy(&output.stdout), inline, newlines);
    let err = decode_lossy(&output.stderr);
    outcome_text(cmd, expected, output.code, out, &err)
}

} // verus!
