use ov6::user::sh::command::{Command, CommandKind, OutputMode, Redirect};
use ov6::user::sh::parser::{ParseError, Parser};
use ov6::user::sh::tokenizer::{Punct, Token, TokenizeError};

fn parse(input: &str) -> Result<Vec<Command>, ParseError> {
    Parser::new(input).parse()
}

fn parse_ok<const N: usize>(input: &str) -> [Command; N] {
    parse(input).unwrap().try_into().unwrap()
}

fn expect_redirect(
    redirect: &Redirect,
    expected_stdin: Option<&str>,
    expected_stdout: Option<(&str, OutputMode)>,
) {
    assert_eq!(redirect.stdin.as_deref(), expected_stdin.map(str::as_bytes));
    assert_eq!(
        redirect.stdout.as_ref().map(|(s, m)| (s.as_slice(), *m)),
        expected_stdout.map(|(s, m)| (s.as_bytes(), m))
    );
}

fn expect_subshell_common<const N: usize>(
    cmd: Command,
    expected_stdin: Option<&str>,
    expected_stdout: Option<(&str, OutputMode)>,
    expected_background: bool,
) -> [Command; N] {
    let Command { kind, background } = cmd;
    let CommandKind::Subshell { list, redirect } = *kind else {
        panic!("Expected Subshell, found {kind:#?}")
    };
    expect_redirect(&redirect, expected_stdin, expected_stdout);
    assert_eq!(background, expected_background);
    list.try_into().unwrap()
}

fn expect_subshell<const N: usize>(cmd: Command) -> [Command; N] {
    expect_subshell_common(cmd, None, None, false)
}

fn expect_exec_common(
    cmd: Command,
    expected_argv: &[&str],
    expected_stdin: Option<&str>,
    expected_stdout: Option<(&str, OutputMode)>,
    expected_background: bool,
) {
    let Command { kind, background } = cmd;
    let CommandKind::Exec { argv, redirect } = *kind else {
        panic!("Expected Exec, found {kind:#?}");
    };
    let expected_argv = expected_argv
        .iter()
        .map(|s| s.as_bytes().to_vec())
        .collect::<Vec<_>>();
    assert_eq!(&argv[..], &expected_argv[..]);
    expect_redirect(&redirect, expected_stdin, expected_stdout);
    assert_eq!(background, expected_background);
}

fn expect_exec(cmd: Command, expected_argv: &[&str]) {
    expect_exec_common(cmd, expected_argv, None, None, false);
}

fn expect_pipe(cmd: Command) -> (Command, Command) {
    let Command { kind, background } = cmd;
    let CommandKind::Pipe { left, right } = *kind else {
        panic!("Expected Pipe, found {kind:#?}")
    };
    assert!(!background);
    (left, right)
}

#[test]
fn test_parse_empty() {
    let [] = parse_ok("");
    let [] = parse_ok("   ");
}

#[test]
fn test_parse_simple_command() {
    let [cmd] = parse_ok("echo hello");
    expect_exec(cmd, &["echo", "hello"]);
}

#[test]
fn test_parse_pipe() {
    let [cmd] = parse_ok("echo hello | grep h");
    let (left, right) = expect_pipe(cmd);
    expect_exec(left, &["echo", "hello"]);
    expect_exec(right, &["grep", "h"]);
}

#[test]
fn test_parse_redirection() {
    let [cmd] = parse_ok("echo hello > output.txt");
    expect_exec_common(
        cmd,
        &["echo", "hello"],
        None,
        Some(("output.txt", OutputMode::Truncate)),
        false,
    );
}

#[test]
fn test_parse_background() {
    let [cmd] = parse_ok("sleep 1 &");
    expect_exec_common(cmd, &["sleep", "1"], None, None, true);
}

#[test]
fn test_parse_list() {
    let [cmd0, cmd1] = parse_ok("echo hello; echo world");
    expect_exec(cmd0, &["echo", "hello"]);
    expect_exec(cmd1, &["echo", "world"]);
}

#[test]
fn test_parse_nested_commands() {
    let [cmd] = parse_ok("(echo hello; echo world) | grep h");
    let (cmd01, cmd2) = expect_pipe(cmd);
    let [cmd0, cmd1] = expect_subshell(cmd01);
    expect_exec(cmd0, &["echo", "hello"]);
    expect_exec(cmd1, &["echo", "world"]);
    expect_exec(cmd2, &["grep", "h"]);
}

#[test]
fn test_parse_multiple_pipes() {
    let [cmd] = parse_ok("echo hello | grep h | wc -l");
    let (left, right) = expect_pipe(cmd);
    expect_exec(left, &["echo", "hello"]);
    let (right_left, right) = expect_pipe(right);
    expect_exec(right_left, &["grep", "h"]);
    expect_exec(right, &["wc", "-l"]);
}

#[test]
fn test_parse_subshell() {
    let [cmd] = parse_ok("(echo hello)");
    let [subshell] = expect_subshell(cmd);
    expect_exec(subshell, &["echo", "hello"]);
}

#[test]
fn test_parse_subshell_with_redirection() {
    let [cmd] = parse_ok("(echo hello) > output.txt");
    let [cmd] =
        expect_subshell_common(cmd, None, Some(("output.txt", OutputMode::Truncate)), false);
    expect_exec(cmd, &["echo", "hello"]);
}

#[test]
fn test_parse_subshell_with_background() {
    let [cmd] = parse_ok("(echo hello) &");
    let [cmd] = expect_subshell_common(cmd, None, None, true);
    expect_exec(cmd, &["echo", "hello"]);
}

#[test]
fn test_parse_multiple_commands_with_redirection() {
    let [cmd0, cmd1] = parse_ok("echo hello > output.txt; echo world >> output.txt");
    expect_exec_common(
        cmd0,
        &["echo", "hello"],
        None,
        Some(("output.txt", OutputMode::Truncate)),
        false,
    );
    expect_exec_common(
        cmd1,
        &["echo", "world"],
        None,
        Some(("output.txt", OutputMode::Append)),
        false,
    );
}

#[test]
fn test_parse_complex_command() {
    let [cmd0, cmd1] = parse_ok("echo hello | grep h > output.txt; echo world &");
    let (pipe_left, pipe_right) = expect_pipe(cmd0);
    expect_exec(pipe_left, &["echo", "hello"]);
    expect_exec_common(
        pipe_right,
        &["grep", "h"],
        None,
        Some(("output.txt", OutputMode::Truncate)),
        false,
    );
    expect_exec_common(cmd1, &["echo", "world"], None, None, true);
}

#[test]
fn input_redirection_and_append_go_together() {
    let [cmd] = parse_ok("sort < in >> out");
    expect_exec_common(
        cmd,
        &["sort"],
        Some("in"),
        Some(("out", OutputMode::Append)),
        false,
    );
}

#[test]
fn logical_operators_build_commands() {
    let [cmd] = parse_ok("a && b");
    let CommandKind::LogicalAnd { left, right } = *cmd.kind else {
        panic!("not an and");
    };
    expect_exec(left, &["a"]);
    expect_exec(right, &["b"]);
    let [cmd] = parse_ok("a || b");
    assert!(matches!(*cmd.kind, CommandKind::LogicalOr { .. }));
}

#[test]
fn quotes_keep_spaces_in_a_word() {
    let [cmd] = parse_ok("echo \"a b\" 'c;d'");
    expect_exec(cmd, &["echo", "a b", "c;d"]);
}

#[test]
fn a_quote_must_end() {
    assert_eq!(
        parse("echo \"a").unwrap_err(),
        ParseError::Tokenize(TokenizeError::UnterminatedQuote(b'"'))
    );
}

#[test]
fn a_redirection_needs_a_file() {
    assert_eq!(parse("echo >").unwrap_err(), ParseError::MissingFile);
}

#[test]
fn a_subshell_must_be_closed() {
    assert_eq!(
        parse("(echo").unwrap_err(),
        ParseError::MissingPunct(Punct::RParen)
    );
}

#[test]
fn a_pipe_needs_a_left_side() {
    assert_eq!(
        parse("| a").unwrap_err(),
        ParseError::Leftovers(Token::Punct(Punct::Pipe))
    );
}

#[test]
fn an_opening_parenthesis_cannot_follow_a_word() {
    assert_eq!(
        parse("echo (a)").unwrap_err(),
        ParseError::UnexpectedPunct(Punct::LParen)
    );
}

#[test]
fn a_closing_parenthesis_is_left_over() {
    assert_eq!(
        parse("echo )").unwrap_err(),
        ParseError::Leftovers(Token::Punct(Punct::RParen))
    );
}

#[test]
fn parsing_goes_on_where_it_ended() {
    let mut parser = Parser::new("a; b");
    assert_eq!(parser.parse().unwrap().len(), 2);
    assert_eq!(parser.parse().unwrap(), []);
    let mut parser = Parser::new("a & b");
    assert_eq!(
        parser.parse().unwrap_err(),
        ParseError::Leftovers(Token::Str(b"b".to_vec()))
    );
    assert_eq!(parser.parse().unwrap(), []);
    let mut parser = Parser::new("a ) b");
    assert_eq!(
        parser.parse().unwrap_err(),
        ParseError::Leftovers(Token::Punct(Punct::RParen))
    );
    expect_exec(parser.parse().unwrap().remove(0), &["b"]);
}
