//! Facts about the transform as a whole, proved from the definitions that
//! the executable functions are held to.

use vstd::prelude::*;

use crate::cmdrun::after_line_pass;
use crate::command::{
    args_from, int_value, parse_args, prepared, requoted, shell_split, ArgumentError, DirectiveError,
};
use crate::output::{banner, formatted, replacement, Newlines};
use crate::scanner::{
    closes_at, find_close, lemma_find_close_bounds, lemma_marker_bounds, opens_at, marker_at, markers, markers_from, spliced,
};
use crate::text::{crlf_lines, has_ws, is_ws, trimmed_end};

verus! {

proof fn lemma_line_close_is_inline_close(t: Seq<char>, i: int)
    ensures
        find_close(t, i, false) is Some ==> find_close(t, i, true) is Some,
    decreases t.len() - i,
{
    if !(i < 0 || i + 3 > t.len()) && !closes_at(t, i, false) && !closes_at(t, i, true) && t[i]
        != '\n' {
        lemma_line_close_is_inline_close(t, i + 1);
    }
}

proof fn lemma_no_inline_no_line(t: Seq<char>, from: int)
    requires
        0 <= from,
        markers_from(t, from, true).len() == 0,
    ensures
        markers_from(t, from, false).len() == 0,
    decreases t.len() - from,
{
    if from < t.len() {
        lemma_marker_bounds(t, from, true);
        lemma_marker_bounds(t, from, false);
        if marker_at(t, from, false) is Some {
            let q = crate::scanner::skip_spaces(t, from + 4) + 7;
            lemma_line_close_is_inline_close(t, q);
            assert(marker_at(t, from, true) is Some);
        }
        assert(marker_at(t, from, true) is None);
        lemma_no_inline_no_line(t, from + 1);
    }
}

/// A text without any marker is left as it is: neither pass finds a marker,
/// so neither changes the text, whatever replacements are offered.
pub proof fn lemma_no_markers_identity(t: Seq<char>, line_reps: Seq<Seq<char>>, inline_reps: Seq<Seq<char>>)
    requires
        markers(t, true).len() == 0,
    ensures
        markers(t, false).len() == 0,
        after_line_pass(t, line_reps) == t,
        spliced(after_line_pass(t, line_reps), markers(after_line_pass(t, line_reps), true), inline_reps, 0) == t,
{
    lemma_no_inline_no_line(t, 0);
    assert(t.subrange(0, t.len() as int) =~= t);
}

/// Transforming a text without markers twice changes nothing either time:
/// the first result is the text itself, so it has no markers either.
pub proof fn lemma_no_markers_idempotent(t: Seq<char>)
    requires
        markers(t, true).len() == 0,
    ensures
        ({
            let once = spliced(after_line_pass(t, seq![]), markers(after_line_pass(t, seq![]), true), seq![], 0);
            &&& once == t
            &&& markers(once, true).len() == 0
            &&& spliced(after_line_pass(once, seq![]), markers(after_line_pass(once, seq![]), true), seq![], 0) == once
        }),
{
    lemma_no_markers_identity(t, seq![], seq![]);
}

/// A single marker is replaced as a unit: the text before and after it is
/// kept, and the replaced span is the marker up to `-->`, plus the line
/// terminator after it in line-consuming mode.
pub proof fn lemma_single_marker_replaced(t: Seq<char>, inline: bool, rep: Seq<char>)
    requires
        markers(t, inline).len() == 1,
    ensures
        ({
            let m = markers(t, inline)[0];
            &&& 0 <= m.0 < m.1 <= m.2 < m.3 <= t.len()
            &&& t[m.2] == '-' && t[m.2 + 1] == '-' && t[m.2 + 2] == '>'
            &&& inline ==> m.3 == m.2 + 3
            &&& !inline ==> (m.3 == m.2 + 4 && t[m.2 + 3] == '\n') || (m.3 == m.2 + 5 && t[m.2
                + 3] == '\r' && t[m.2 + 4] == '\n')
            &&& spliced(t, markers(t, inline), seq![rep], 0) == t.subrange(0, m.0) + rep
                + t.subrange(m.3, t.len() as int)
        }),
{
    lemma_first_marker(t, 0, inline);
    let m = markers(t, inline)[0];
    lemma_marker_bounds(t, m.0, inline);
    let q = crate::scanner::skip_spaces(t, m.0 + 4) + 7;
    lemma_find_close_bounds(t, q, inline);
    assert(closes_at(t, m.2, inline));
    let rest = markers(t, inline).drop_first();
    assert(rest.len() == 0);
    assert(seq![rep].drop_first().len() == 0);
    assert(spliced(t, markers(t, inline), seq![rep], 0) == t.subrange(0, m.0) + rep + spliced(
        t,
        rest,
        seq![rep].drop_first(),
        m.3,
    ));
}

proof fn lemma_first_marker(t: Seq<char>, from: int, inline: bool)
    requires
        0 <= from,
        markers_from(t, from, inline).len() > 0,
    ensures
        ({
            let m = markers_from(t, from, inline)[0];
            &&& marker_at(t, m.0, inline) == Some(m)
            &&& from <= m.0
        }),
    decreases t.len() - from,
{
    if from < t.len() {
        match marker_at(t, from, inline) {
            Some(m) => {},
            None => {
                lemma_first_marker(t, from + 1, inline);
            },
        }
    }
}

proof fn lemma_crlf_plain_line(b: Seq<char>)
    requires
        forall|i: int| 0 <= i < b.len() ==> b[i] != '\n' && b[i] != '\r',
    ensures
        crlf_lines(b + seq!['\n']) == b,
        b.len() > 0 ==> crlf_lines(b) == b,
    decreases b.len(),
{
    if b.len() > 0 {
        let rest = b.subrange(1, b.len() as int);
        lemma_crlf_plain_line(rest);
        assert((b + seq!['\n']).subrange(1, b.len() as int + 1) =~= rest + seq!['\n']);
        assert(seq![b[0]] + rest =~= b);
        if rest.len() == 0 {
            assert(rest =~= Seq::<char>::empty());
            assert(crlf_lines(rest) == rest);
        }
    } else {
        assert(b + seq!['\n'] =~= seq!['\n']);
    }
}

/// Line-consuming output that is one line ended by `"\n"` keeps that one
/// terminator: as it is where terminators are kept, as `"\r\n"` where they
/// are rewritten.
pub proof fn lemma_line_output_one_terminator(b: Seq<char>)
    requires
        forall|i: int| 0 <= i < b.len() ==> b[i] != '\n' && b[i] != '\r',
    ensures
        formatted(b + seq!['\n'], false, Newlines::Keep) == b + seq!['\n'],
        formatted(b + seq!['\n'], false, Newlines::Crlf) == (if b.len() > 0 {
            b + seq!['\r', '\n']
        } else {
            Seq::<char>::empty()
        }),
{
    lemma_crlf_plain_line(b);
}

/// Inline output is the captured output without its trailing whitespace,
/// whichever way terminators are written: it ends with no whitespace, gets
/// no terminator, and keeps its inner newlines as they are.
pub proof fn lemma_inline_output_trimmed(s: Seq<char>, newlines: Newlines)
    ensures
        formatted(s, true, newlines) == trimmed_end(s),
        formatted(s, true, newlines).len() > 0 ==> !is_ws(formatted(s, true, newlines).last()),
        formatted(s, true, newlines) =~= s.subrange(0, formatted(s, true, newlines).len() as int),
{
    lemma_trimmed_end_last(s);
    lemma_trimmed_end_prefix(s);
}

proof fn lemma_trimmed_end_prefix(s: Seq<char>)
    ensures
        trimmed_end(s).len() <= s.len(),
        trimmed_end(s) =~= s.subrange(0, trimmed_end(s).len() as int),
    decreases s.len(),
{
    if s.len() > 0 && is_ws(s.last()) {
        lemma_trimmed_end_prefix(s.drop_last());
    }
}

proof fn lemma_trimmed_end_last(s: Seq<char>)
    ensures
        trimmed_end(s).len() > 0 ==> !is_ws(trimmed_end(s).last()),
    decreases s.len(),
{
    if s.len() > 0 && is_ws(s.last()) {
        lemma_trimmed_end_last(s.drop_last());
    }
}

proof fn lemma_literals()
    ensures
        "--strict"@ != "--"@,
        "--expect-return-code"@ != "--"@,
        "--expect-return-code"@ != "--strict"@,
        !crate::command::starts_with("--strict"@, "--expect-return-code="@),
        !crate::command::starts_with("--"@, "--expect-return-code="@),
        !crate::command::starts_with("--expect-return-code"@, "--expect-return-code="@),
        int_value("0"@) == Some(0i32),
{
    reveal_strlit("--strict");
    reveal_strlit("--expect-return-code");
    reveal_strlit("--expect-return-code=");
    reveal_strlit("--");
    reveal_strlit("0");
    assert("--strict"@.len() != "--"@.len());
    assert("--expect-return-code"@.len() != "--"@.len());
    assert("--expect-return-code"@.len() != "--strict"@.len());
    let zero = "0"@;
    assert(int_value(zero) == Some(0i32)) by {
        assert(zero.len() == 1 && zero[0] == '0');
        assert(!crate::command::has_sign(zero));
        assert(crate::command::unsigned_part(zero) == zero);
        assert(zero.drop_last() =~= Seq::<char>::empty());
        assert(crate::command::digits_value(zero.drop_last()) == 0);
        assert(crate::command::digits_value(zero) == 0);
        assert(crate::command::all_digits(zero));
    }
}

proof fn lemma_strict_zero_from(
    a: Seq<Seq<char>>,
    i: int,
    b: Seq<Seq<char>>,
    j: int,
    cmd: Seq<Seq<char>>,
)
    requires
        0 <= i <= a.len(),
        0 <= j <= b.len(),
        a.subrange(i, a.len() as int) == b.subrange(j, b.len() as int),
    ensures
        args_from(a, i, true, None, cmd) is Ok <==> args_from(b, j, false, Some(0i32), cmd) is Ok,
        args_from(a, i, true, None, cmd) is Ok ==> args_from(a, i, true, None, cmd) == args_from(
            b,
            j,
            false,
            Some(0i32),
            cmd,
        ),
    decreases a.len() - i,
{
    lemma_literals();
    let ra = a.subrange(i, a.len() as int);
    let rb = b.subrange(j, b.len() as int);
    assert(ra.len() == rb.len());
    if i < a.len() {
        assert(a[i] == ra[0] && b[j] == rb[0]);
        let w = a[i];
        if w == "--"@ {
            assert(a.subrange(i + 1, a.len() as int) =~= ra.subrange(1, ra.len() as int));
            assert(b.subrange(j + 1, b.len() as int) =~= rb.subrange(1, rb.len() as int));
        } else if w == "--strict"@ {
        } else if w == "--expect-return-code"@ || crate::command::starts_with(
            w,
            "--expect-return-code="@,
        ) {
        } else if cmd.len() == 0 && w.len() > 1 && w[0] == '-' {
        } else {
            assert(a.subrange(i + 1, a.len() as int) =~= ra.subrange(1, ra.len() as int));
            assert(b.subrange(j + 1, b.len() as int) =~= rb.subrange(1, rb.len() as int));
            lemma_strict_zero_from(a, i + 1, b, j + 1, cmd.push(w));
        }
    }
}

/// `--strict` reads as `--expect-return-code 0`: after either, the same
/// words give the same command and expected code, or both fail. Given
/// together, in either order, they fail as conflicting.
pub proof fn lemma_strict_is_expect_zero(rest: Seq<Seq<char>>)
    ensures
        parse_args(seq!["--strict"@] + rest) is Ok <==> parse_args(
            seq!["--expect-return-code"@, "0"@] + rest,
        ) is Ok,
        parse_args(seq!["--strict"@] + rest) is Ok ==> parse_args(seq!["--strict"@] + rest)
            == parse_args(seq!["--expect-return-code"@, "0"@] + rest),
        parse_args(seq!["--strict"@, "--expect-return-code"@, "0"@] + rest) == Err::<
            (Seq<Seq<char>>, Option<i32>),
            ArgumentError,
        >(ArgumentError::ConflictingOptions),
        parse_args(seq!["--expect-return-code"@, "0"@, "--strict"@] + rest) == Err::<
            (Seq<Seq<char>>, Option<i32>),
            ArgumentError,
        >(ArgumentError::ConflictingOptions),
{
    lemma_literals();
    let e: Seq<Seq<char>> = Seq::empty();
    let a = seq!["--strict"@] + rest;
    let b = seq!["--expect-return-code"@, "0"@] + rest;
    assert(a[0] == "--strict"@);
    assert(b[0] == "--expect-return-code"@);
    assert(b[1] == "0"@);
    assert(args_from(a, 0, false, None, e) == args_from(a, 1, true, None, e));
    assert(args_from(b, 0, false, None, e) == args_from(b, 2, false, Some(0i32), e));
    assert(a.subrange(1, a.len() as int) =~= rest);
    assert(b.subrange(2, b.len() as int) =~= rest);
    lemma_strict_zero_from(a, 1, b, 2, e);
    let c = seq!["--strict"@, "--expect-return-code"@, "0"@] + rest;
    assert(c[0] == "--strict"@ && c[1] == "--expect-return-code"@);
    assert(args_from(c, 0, false, None, e) == args_from(c, 1, true, None, e));
    let d = seq!["--expect-return-code"@, "0"@, "--strict"@] + rest;
    assert(d[0] == "--expect-return-code"@ && d[1] == "0"@ && d[2] == "--strict"@);
    assert(args_from(d, 0, false, None, e) == args_from(d, 2, false, Some(0i32), e));
}

/// A directive whose words start with `--strict --expect-return-code` can
/// not be prepared: it fails as conflicting, so the whole transform fails.
pub proof fn lemma_conflict_fails_directive(raw: Seq<char>, rest: Seq<Seq<char>>)
    requires
        shell_split(raw) == Some(seq!["--strict"@, "--expect-return-code"@] + rest),
    ensures
        prepared(raw) == Err::<(Seq<char>, Option<i32>), DirectiveError>(
            DirectiveError::Argument(ArgumentError::ConflictingOptions),
        ),
{
    lemma_literals();
    reveal_strlit("--strict");
    reveal_strlit("--expect-return-code");
    let ws = seq!["--strict"@, "--expect-return-code"@] + rest;
    let q = requoted(ws);
    assert(!has_ws("--strict"@)) by {
        assert forall|i: int| 0 <= i < "--strict"@.len() implies !is_ws(#[trigger] "--strict"@[i]) by {}
    }
    assert(!has_ws("--expect-return-code"@)) by {
        assert forall|i: int| 0 <= i < "--expect-return-code"@.len() implies !is_ws(
            #[trigger] "--expect-return-code"@[i],
        ) by {}
    }
    assert(q[0] == "--strict"@);
    assert(q[1] == "--expect-return-code"@);
    let e: Seq<Seq<char>> = Seq::empty();
    assert(args_from(q, 0, false, None, e) == args_from(q, 1, true, None, e));
}

/// A command that ended with the expected exit code, or of which no exit
/// code was expected, is replaced by its formatted output and nothing else.
pub proof fn lemma_success_gives_output(
    cmd: Seq<char>,
    expected: Option<i32>,
    code: i32,
    out: Seq<char>,
    err: Seq<char>,
)
    requires
        expected is None || expected == Some(code),
    ensures
        replacement(cmd, expected, Some(code), out, err) == out,
{
}

/// Whether `part` occurs in `s`.
pub open spec fn occurs_in(part: Seq<char>, s: Seq<char>) -> bool {
    exists|i: int| 0 <= i && i + part.len() <= s.len() && #[trigger] s.subrange(i, i + part.len()) == part
}

/// An exit code other than the expected one does not fail the transform:
/// the replacement is the banner, which holds the command line, the exit
/// code, the expected code, the output and the error output.
pub proof fn lemma_mismatch_banner(
    cmd: Seq<char>,
    code: i32,
    expected: i32,
    out: Seq<char>,
    err: Seq<char>,
)
    requires
        code != expected,
    ensures
        replacement(cmd, Some(expected), Some(code), out, err) == banner(cmd, code, expected, out, err),
        occurs_in(cmd, banner(cmd, code, expected, out, err)),
        occurs_in(crate::text::decimal(code as int), banner(cmd, code, expected, out, err)),
        occurs_in(crate::text::decimal(expected as int), banner(cmd, code, expected, out, err)),
        occurs_in(out, banner(cmd, code, expected, out, err)),
        occurs_in(err, banner(cmd, code, expected, out, err)),
{
    let lead = "**cmdrun error**: '"@;
    let returned = "' returned exit code "@;
    let instead = " instead of "@;
    let stop = ".\n"@;
    let gap = "\n"@;
    let dc = crate::text::decimal(code as int);
    let dx = crate::text::decimal(expected as int);
    let b = banner(cmd, code, expected, out, err);
    assert(b == lead + cmd + returned + dc + instead + dx + stop + out + gap + err);
    let i1 = lead.len() as int;
    let i2 = i1 + cmd.len() + returned.len();
    let i3 = i2 + dc.len() + instead.len();
    let i4 = i3 + dx.len() + stop.len();
    let i5 = i4 + out.len() + gap.len();
    assert(b.subrange(i1, i1 + cmd.len()) =~= cmd);
    assert(b.subrange(i2, i2 + dc.len()) =~= dc);
    assert(b.subrange(i3, i3 + dx.len()) =~= dx);
    assert(b.subrange(i4, i4 + out.len()) =~= out);
    assert(b.subrange(i5, i5 + err.len()) =~= err);
}

proof fn lemma_no_opening_from(t: Seq<char>, from: int, inline: bool)
    requires
        0 <= from,
        forall|q: int| from <= q < t.len() ==> !opens_at(t, q),
    ensures
        markers_from(t, from, inline).len() == 0,
    decreases t.len() - from,
{
    if from < t.len() {
        lemma_no_opening_from(t, from + 1, inline);
    }
}

proof fn lemma_one_opening_from(t: Seq<char>, from: int, p: int, inline: bool)
    requires
        0 <= from <= p,
        forall|q: int| 0 <= q < t.len() && q != p ==> !opens_at(t, q),
        marker_at(t, p, inline) is Some,
    ensures
        markers_from(t, from, inline) == seq![marker_at(t, p, inline)->0],
    decreases p - from,
{
    let m = marker_at(t, p, inline)->0;
    lemma_marker_bounds(t, p, inline);
    if from < p {
        lemma_one_opening_from(t, from + 1, p, inline);
    } else {
        lemma_no_opening_from(t, m.3, inline);
        assert(seq![m] + markers_from(t, m.3, inline) =~= seq![m]);
    }
}

/// A text whose one marker opening is a line-consuming directive: the
/// line-consuming pass replaces that marker and its line terminator with the
/// replacement and keeps all other text; where the result holds no marker,
/// the inline pass leaves it as it is.
pub proof fn lemma_one_line_directive(t: Seq<char>, p: int, rep: Seq<char>, inline_reps: Seq<Seq<char>>)
    requires
        0 <= p,
        forall|q: int| 0 <= q < t.len() && q != p ==> !opens_at(t, q),
        marker_at(t, p, false) is Some,
        ({
            let m = marker_at(t, p, false)->0;
            markers(t.subrange(0, m.0) + rep + t.subrange(m.3, t.len() as int), true).len() == 0
        }),
    ensures
        ({
            let m = marker_at(t, p, false)->0;
            let after = t.subrange(0, m.0) + rep + t.subrange(m.3, t.len() as int);
            &&& markers(t, false) == seq![m]
            &&& after_line_pass(t, seq![rep]) == after
            &&& spliced(after, markers(after, true), inline_reps, 0) == after
        }),
{
    lemma_one_opening_from(t, 0, p, false);
    lemma_single_marker_replaced(t, false, rep);
    let m = marker_at(t, p, false)->0;
    let after = t.subrange(0, m.0) + rep + t.subrange(m.3, t.len() as int);
    assert(after.subrange(0, after.len() as int) =~= after);
}

/// A text whose one marker opening is an inline directive: the
/// line-consuming pass keeps the text, and the inline pass replaces only the
/// marker with the replacement.
pub proof fn lemma_one_inline_directive(t: Seq<char>, p: int, rep: Seq<char>)
    requires
        0 <= p,
        forall|q: int| 0 <= q < t.len() && q != p ==> !opens_at(t, q),
        marker_at(t, p, false) is None,
        marker_at(t, p, true) is Some,
    ensures
        ({
            let m = marker_at(t, p, true)->0;
            &&& markers(t, false).len() == 0
            &&& after_line_pass(t, seq![]) == t
            &&& markers(t, true) == seq![m]
            &&& spliced(t, markers(t, true), seq![rep], 0) == t.subrange(0, m.0) + rep
                + t.subrange(m.3, t.len() as int)
        }),
{
    lemma_none_before_from(t, 0, p);
    lemma_one_opening_from(t, 0, p, true);
    lemma_single_marker_replaced(t, true, rep);
    assert(t.subrange(0, t.len() as int) =~= t);
}

proof fn lemma_none_before_from(t: Seq<char>, from: int, p: int)
    requires
        0 <= from,
        forall|q: int| 0 <= q < t.len() && q != p ==> !opens_at(t, q),
        marker_at(t, p, false) is None,
    ensures
        markers_from(t, from, false).len() == 0,
    decreases t.len() - from,
{
    if from < t.len() {
        lemma_none_before_from(t, from + 1, p);
    }
}

} // verus!
