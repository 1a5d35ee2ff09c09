use minishell::parser::{parse_args, parse_echo_args, strip_quotes, Command};

#[test]
fn test_parse_simple() {
    let cmd = Command::parse("echo hello world").unwrap();
    assert_eq!(cmd.name, "echo");
    assert_eq!(cmd.args, vec!["hello", "world"]);
}

#[test]
fn test_parse_quoted_args() {
    let cmd = Command::parse(r#"echo "hello world""#).unwrap();
    assert_eq!(cmd.args, vec!["hello world"]);
}

#[test]
fn test_strip_quotes() {
    assert_eq!(strip_quotes("'hello'"), "hello");
    assert_eq!(strip_quotes(r#""hello""#), "hello");
}

#[test]
fn parse_blank_line_is_none() {
    assert!(Command::parse("").is_none());
    assert!(Command::parse("   \t ").is_none());
}

#[test]
fn parse_keeps_raw_args_and_trims() {
    let cmd = Command::parse("  cd   /tmp  ").unwrap();
    assert_eq!(cmd.name, "cd");
    assert_eq!(cmd.args, vec!["/tmp"]);
    assert_eq!(cmd.raw_args, "/tmp");
}

#[test]
fn parse_without_args() {
    let cmd = Command::parse("pwd").unwrap();
    assert_eq!(cmd.name, "pwd");
    assert!(cmd.args.is_empty());
    assert_eq!(cmd.raw_args, "");
}

#[test]
fn parse_quoted_command_name() {
    let cmd = Command::parse("'my prog' a b").unwrap();
    assert_eq!(cmd.name, "my prog");
    assert_eq!(cmd.args, vec!["a", "b"]);
    assert_eq!(cmd.raw_args, "a b");
}

#[test]
fn strip_quotes_escapes() {
    assert_eq!(strip_quotes(r"a\ b"), "a b");
    assert_eq!(strip_quotes(r#""a\"b""#), "a\"b");
    assert_eq!(strip_quotes(r"'a\b'"), r"a\b");
    assert_eq!(strip_quotes(r#"'it"s'"#), "it\"s");
}

#[test]
fn strip_quotes_plain_text_unchanged() {
    assert_eq!(strip_quotes("plain text 123"), "plain text 123");
}

#[test]
fn parse_args_cases() {
    assert_eq!(parse_args("a  b   c"), vec!["a", "b", "c"]);
    assert_eq!(parse_args("'a b' \"c d\" e\\ f"), vec!["a b", "c d", "e f"]);
    assert_eq!(parse_args("x''y"), vec!["xy"]);
    assert_eq!(parse_args("   "), Vec::<String>::new());
}

#[test]
fn parse_args_plain_splits_at_spaces() {
    assert_eq!(parse_args(" one two  three "), vec!["one", "two", "three"]);
}

#[test]
fn parse_echo_args_collapses_spaces() {
    assert_eq!(parse_echo_args("hello    world"), "hello world");
    assert_eq!(parse_echo_args("'hello    world'"), "hello    world");
    assert_eq!(parse_echo_args("a ''b"), "a b");
}
