use mdbook_cmdrun::{
    ArgumentError, CmdRun, ContentRun, DirectiveError, ExecOutput, Invocation, Newlines, Step,
};

fn ran(stdout: &str, stderr: &str, code: Option<i32>) -> ExecOutput {
    ExecOutput {
        stdout: stdout.as_bytes().to_vec(),
        stderr: stderr.as_bytes().to_vec(),
        code,
    }
}

fn expect_run(run: &mut ContentRun) -> Invocation {
    match run.next_step() {
        Step::Run(inv) => inv,
        other => panic!("expected a command, got {:?}", other),
    }
}

fn expect_done(run: &mut ContentRun) -> String {
    match run.next_step() {
        Step::Done(text) => text,
        other => panic!("expected the result, got {:?}", other),
    }
}

#[test]
fn text_without_markers_is_unchanged() {
    let input = "# Title\n\nplain text <!-- a comment -->\n<!--cmdrun-->\n";
    let mut run = ContentRun::new(input, Newlines::Keep);
    assert_eq!(expect_done(&mut run), input);
}

#[test]
fn empty_text_is_unchanged() {
    let mut run = ContentRun::new("", Newlines::Crlf);
    assert_eq!(expect_done(&mut run), "");
}

#[test]
fn transform_without_markers_twice_is_unchanged() {
    let input = "one\ntwo <!-- not a directive -->\n";
    let mut first = ContentRun::new(input, Newlines::Keep);
    let once = expect_done(&mut first);
    let mut second = ContentRun::new(&once, Newlines::Keep);
    let twice = expect_done(&mut second);
    assert_eq!(once, input);
    assert_eq!(twice, input);
}

#[test]
fn line_directive_is_replaced_by_output() {
    let mut run = ContentRun::new("<!-- cmdrun echo hi -->\n", Newlines::Keep);
    let inv = expect_run(&mut run);
    assert_eq!(inv.command, "echo hi");
    assert_eq!(inv.expected, None);
    run.resume(&ran("hi\n", "", Some(0)));
    assert_eq!(expect_done(&mut run), "hi\n");
}

#[test]
fn line_directive_with_crlf_terminators() {
    let mut run = ContentRun::new("a\r\n<!-- cmdrun echo hi -->\r\nb", Newlines::Crlf);
    let inv = expect_run(&mut run);
    assert_eq!(inv.command, "echo hi");
    run.resume(&ran("hi\n", "", Some(0)));
    assert_eq!(expect_done(&mut run), "a\r\nhi\r\nb");
}

#[test]
fn line_directive_keeps_surrounding_text() {
    let mut run = ContentRun::new("before\n<!--   cmdrun seq 1 2 -->\nafter\n", Newlines::Keep);
    let inv = expect_run(&mut run);
    assert_eq!(inv.command, "seq 1 2");
    run.resume(&ran("1\n2\n", "", Some(0)));
    assert_eq!(expect_done(&mut run), "before\n1\n2\nafter\n");
}

#[test]
fn inline_directive_is_trimmed_and_spliced() {
    let mut run = ContentRun::new("x <!-- cmdrun echo hi --> y", Newlines::Keep);
    let inv = expect_run(&mut run);
    assert_eq!(inv.command, "echo hi");
    run.resume(&ran("hi\n", "", Some(0)));
    assert_eq!(expect_done(&mut run), "x hi y");
}

#[test]
fn inline_directive_gets_no_terminator_with_crlf() {
    let mut run = ContentRun::new("x <!-- cmdrun printf -->y", Newlines::Crlf);
    expect_run(&mut run);
    run.resume(&ran("a\nb \n\n", "", Some(0)));
    assert_eq!(expect_done(&mut run), "x a\nby");
}

#[test]
fn line_pass_runs_before_inline_pass() {
    let input = "a <!-- cmdrun one --> b\n<!-- cmdrun two -->\nc <!-- cmdrun three -->";
    let mut run = ContentRun::new(input, Newlines::Keep);
    assert_eq!(expect_run(&mut run).command, "two");
    run.resume(&ran("2\n", "", Some(0)));
    assert_eq!(expect_run(&mut run).command, "one");
    run.resume(&ran("1\n", "", Some(0)));
    assert_eq!(expect_run(&mut run).command, "three");
    run.resume(&ran("3\n", "", Some(0)));
    assert_eq!(expect_done(&mut run), "a 1 b\n2\nc 3");
}

#[test]
fn marker_that_closes_late_on_its_line() {
    let mut run = ContentRun::new("<!-- cmdrun echo a --> b -->\n", Newlines::Keep);
    let inv = expect_run(&mut run);
    assert_eq!(inv.command, "echo a --\\> b");
    run.resume(&ran("out\n", "", Some(0)));
    assert_eq!(expect_done(&mut run), "out\n");
}

#[test]
fn exit_code_mismatch_yields_banner() {
    let mut run = ContentRun::new("<!-- cmdrun --expect-return-code 0 false -->\n", Newlines::Keep);
    let inv = expect_run(&mut run);
    assert_eq!(inv.command, "false");
    assert_eq!(inv.expected, Some(0));
    run.resume(&ran("", "", Some(1)));
    assert_eq!(
        expect_done(&mut run),
        "**cmdrun error**: 'false' returned exit code 1 instead of 0.\n\n"
    );
}

#[test]
fn options_after_the_command_are_read() {
    let mut run = ContentRun::new("<!-- cmdrun false --expect-return-code 0 -->\n", Newlines::Keep);
    let inv = expect_run(&mut run);
    assert_eq!(inv.command, "false");
    assert_eq!(inv.expected, Some(0));
    run.resume(&ran("", "", Some(1)));
    assert_eq!(
        expect_done(&mut run),
        "**cmdrun error**: 'false' returned exit code 1 instead of 0.\n\n"
    );
}

#[test]
fn options_among_command_words() {
    let inv = CmdRun::parse_directive("echo -n --strict hi").unwrap();
    assert_eq!(inv.command, "echo -n hi");
    assert_eq!(inv.expected, Some(0));
    let inv = CmdRun::parse_directive("echo --expect-return-code=4").unwrap();
    assert_eq!(inv.command, "echo");
    assert_eq!(inv.expected, Some(4));
    let inv = CmdRun::parse_directive("echo -- --strict").unwrap();
    assert_eq!(inv.command, "echo --strict");
    assert_eq!(inv.expected, None);
    assert_eq!(
        CmdRun::parse_directive("ls --strict --expect-return-code 0").unwrap_err(),
        DirectiveError::Argument(ArgumentError::ConflictingOptions)
    );
}

#[test]
fn banner_holds_command_codes_and_streams() {
    let inv = CmdRun::parse_directive("--expect-return-code=-1 sh -c 'exit 2'").unwrap();
    assert_eq!(inv.expected, Some(-1));
    let text = CmdRun::command_outcome(&inv, &ran("out\n", "err\n", Some(2)), false, Newlines::Keep);
    assert_eq!(
        text,
        format!(
            "**cmdrun error**: '{}' returned exit code 2 instead of -1.\nout\n\nerr\n",
            inv.command
        )
    );
}

#[test]
fn expected_code_met_gives_output() {
    let inv = CmdRun::parse_directive("--strict echo hi").unwrap();
    let text = CmdRun::command_outcome(&inv, &ran("hi\n", "", Some(0)), true, Newlines::Keep);
    assert_eq!(text, "hi");
}

#[test]
fn abnormal_end_gives_message() {
    let inv = CmdRun::parse_directive("echo hi").unwrap();
    let text = CmdRun::command_outcome(&inv, &ran("hi\n", "", None), false, Newlines::Keep);
    assert_eq!(text, "'\"echo hi\"' was ended before completing.");
}

#[test]
fn invalid_utf8_output_is_replaced() {
    let inv = CmdRun::parse_directive("cat").unwrap();
    let out = ExecOutput { stdout: vec![b'a', 0xff, b'b'], stderr: vec![], code: Some(0) };
    let text = CmdRun::command_outcome(&inv, &out, true, Newlines::Keep);
    assert_eq!(text, "a\u{FFFD}b");
}

#[test]
fn strict_equals_expect_zero() {
    let a = CmdRun::parse_directive("--strict echo hi").unwrap();
    let b = CmdRun::parse_directive("--expect-return-code 0 echo hi").unwrap();
    assert_eq!(a.command, b.command);
    assert_eq!(a.expected, Some(0));
    assert_eq!(b.expected, Some(0));
}

#[test]
fn strict_with_expect_is_an_error() {
    assert_eq!(
        CmdRun::parse_directive("--strict --expect-return-code 0 echo").unwrap_err(),
        DirectiveError::Argument(ArgumentError::ConflictingOptions)
    );
    assert_eq!(
        CmdRun::parse_directive("--expect-return-code 3 --strict echo").unwrap_err(),
        DirectiveError::Argument(ArgumentError::ConflictingOptions)
    );
}

#[test]
fn conflicting_options_fail_the_transform() {
    let mut run = ContentRun::new("a\n<!-- cmdrun --strict --expect-return-code 1 ls -->\n", Newlines::Keep);
    match run.next_step() {
        Step::Failed(e) => assert_eq!(e, DirectiveError::Argument(ArgumentError::ConflictingOptions)),
        other => panic!("expected a failure, got {:?}", other),
    }
}

#[test]
fn open_quote_is_a_tokenization_error() {
    assert_eq!(CmdRun::parse_directive("echo 'hi").unwrap_err(), DirectiveError::Tokenization);
    let mut run = ContentRun::new("<!-- cmdrun echo \"hi -->", Newlines::Keep);
    match run.next_step() {
        Step::Failed(e) => assert_eq!(e, DirectiveError::Tokenization),
        other => panic!("expected a failure, got {:?}", other),
    }
}

#[test]
fn argument_errors() {
    let err = |s: &str| CmdRun::parse_directive(s).unwrap_err();
    assert_eq!(err("--strict"), DirectiveError::Argument(ArgumentError::MissingCommand));
    assert_eq!(err(""), DirectiveError::Argument(ArgumentError::MissingCommand));
    assert_eq!(err("--expect-return-code"), DirectiveError::Argument(ArgumentError::MissingValue));
    assert_eq!(err("--expect-return-code x ls"), DirectiveError::Argument(ArgumentError::InvalidCode));
    assert_eq!(
        err("--expect-return-code 2147483648 ls"),
        DirectiveError::Argument(ArgumentError::InvalidCode)
    );
    assert_eq!(err("--strict --strict ls"), DirectiveError::Argument(ArgumentError::RepeatedOption));
    assert_eq!(err("--verbose ls"), DirectiveError::Argument(ArgumentError::UnknownOption));
}

#[test]
fn expect_code_forms() {
    assert_eq!(CmdRun::parse_directive("--expect-return-code=3 ls").unwrap().expected, Some(3));
    assert_eq!(
        CmdRun::parse_directive("--expect-return-code -2147483648 ls").unwrap().expected,
        Some(i32::MIN)
    );
    assert_eq!(CmdRun::parse_directive("--expect-return-code +7 ls").unwrap().expected, Some(7));
    let inv = CmdRun::parse_directive("-- --strict").unwrap();
    assert_eq!(inv.command, "--strict");
    assert_eq!(inv.expected, None);
}

#[test]
fn words_with_whitespace_are_quoted_then_escaped() {
    let inv = CmdRun::parse_directive("echo \"a b\" c").unwrap();
    assert_eq!(inv.command, "echo \\'a\\ b\\' c");
}

#[test]
fn format_whitespace_inline_trims() {
    assert_eq!(CmdRun::format_whitespace("hi \n\t\n", true, Newlines::Keep), "hi");
    assert_eq!(CmdRun::format_whitespace("  \n", true, Newlines::Crlf), "");
    assert_eq!(CmdRun::format_whitespace("a\nb \n\t ", true, Newlines::Crlf), "a\nb");
}

#[test]
fn format_whitespace_line_mode() {
    assert_eq!(CmdRun::format_whitespace("a\nb\n", false, Newlines::Keep), "a\nb\n");
    assert_eq!(CmdRun::format_whitespace("a\nb", false, Newlines::Keep), "a\nb");
    assert_eq!(CmdRun::format_whitespace("a\nb\n", false, Newlines::Crlf), "a\r\nb\r\n");
    assert_eq!(CmdRun::format_whitespace("a\r\nb", false, Newlines::Crlf), "a\r\nb\r\n");
    assert_eq!(CmdRun::format_whitespace("", false, Newlines::Crlf), "");
    assert_eq!(CmdRun::format_whitespace("\n", false, Newlines::Crlf), "");
    assert_eq!(CmdRun::format_whitespace("\n\n", false, Newlines::Crlf), "\r\n\r\n");
}

#[test]
fn marker_without_spaces_inline() {
    let mut run = ContentRun::new("[<!--cmdrun date-->]", Newlines::Keep);
    assert_eq!(expect_run(&mut run).command, "date");
    run.resume(&ran("today\n", "", Some(0)));
    assert_eq!(expect_done(&mut run), "[today]");
}

#[test]
fn inline_output_keeps_inner_newlines() {
    let mut run = ContentRun::new("<!-- cmdrun seq 1 2 --> end", Newlines::Keep);
    expect_run(&mut run);
    run.resume(&ran("1\n2\n", "", Some(0)));
    assert_eq!(expect_done(&mut run), "1\n2 end");
}

#[test]
fn output_markers_are_scanned_in_inline_pass() {
    let mut run = ContentRun::new("<!-- cmdrun gen -->\n", Newlines::Keep);
    assert_eq!(expect_run(&mut run).command, "gen");
    run.resume(&ran("a <!-- cmdrun inner --> b\n", "", Some(0)));
    assert_eq!(expect_run(&mut run).command, "inner");
    run.resume(&ran("x\n", "", Some(0)));
    assert_eq!(expect_done(&mut run), "a x b\n");
}

#[test]
fn marker_split_over_lines_is_not_a_directive() {
    let input = "<!-- cmdrun echo\nhi -->\n";
    let mut run = ContentRun::new(input, Newlines::Keep);
    assert_eq!(expect_done(&mut run), input);
}

#[test]
fn negative_expected_code_in_banner() {
    let inv = CmdRun::parse_directive("--expect-return-code -3 ls").unwrap();
    let text = CmdRun::command_outcome(&inv, &ran("", "no\n", Some(-12)), true, Newlines::Keep);
    assert_eq!(text, "**cmdrun error**: 'ls' returned exit code -12 instead of -3.\n\nno\n");
}

#[test]
fn lone_double_dash_needs_a_command() {
    assert_eq!(
        CmdRun::parse_directive("--").unwrap_err(),
        DirectiveError::Argument(ArgumentError::MissingCommand)
    );
}
