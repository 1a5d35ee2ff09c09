use minishell::builtins::history_to_file_content;
use minishell::session::{loaded_history, strip_line_ending};

#[test]
fn history_file_loads_non_empty_lines_from_zero() {
    assert_eq!(loaded_history("ls\n\npwd\n"), vec!["\t0  ls", "\t1  pwd"]);
    assert!(loaded_history("").is_empty());
    assert!(loaded_history("\n\n").is_empty());
}

#[test]
fn history_file_roundtrip() {
    let history = vec!["\t1  ls -l".to_string(), "\t2  echo hi".to_string()];
    let file = history_to_file_content(&history);
    assert_eq!(file, "ls -l\necho hi\n");
    assert_eq!(loaded_history(&file), vec!["\t0  ls -l", "\t1  echo hi"]);
}

#[test]
fn line_endings_removed() {
    assert_eq!(strip_line_ending("ls\n"), "ls");
    assert_eq!(strip_line_ending("ls\r\n"), "ls");
    assert_eq!(strip_line_ending("ls\n\n\r\r"), "ls\n\n");
    assert_eq!(strip_line_ending("ls\r\n\r\n"), "ls\r\n");
    assert_eq!(strip_line_ending(""), "");
}
