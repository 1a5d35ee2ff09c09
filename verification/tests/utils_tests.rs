use minishell::strmap::StrMap;
use minishell::utils::{
    expand_args, expand_string_with_vars, get_redirect, invalid_identifier_message,
    is_process_running, is_running, process_state, validate, ProcessState, RunState,
};

#[test]
fn redirect_stdout() {
    let r = get_redirect("ls > out.txt");
    assert_eq!(r.redirect_stdout_file.as_deref(), Some("out.txt"));
    assert!(r.redirect_stderr_file.is_none());
    assert_eq!(r.file_index_start, Some(3));
    assert!(!r.append_stdout);
    assert!(!r.append_stderr);
}

#[test]
fn redirect_stdout_append() {
    let r = get_redirect("ls >> out.txt");
    assert_eq!(r.redirect_stdout_file.as_deref(), Some("out.txt"));
    assert_eq!(r.file_index_start, Some(3));
    assert!(r.append_stdout);
}

#[test]
fn redirect_stderr_and_append() {
    let r = get_redirect("ls 2> err.txt");
    assert!(r.redirect_stdout_file.is_none());
    assert_eq!(r.redirect_stderr_file.as_deref(), Some("err.txt"));
    assert_eq!(r.file_index_start, Some(3));
    assert!(!r.append_stderr);
    let r = get_redirect("ls 2>> err.txt");
    assert_eq!(r.redirect_stderr_file.as_deref(), Some("err.txt"));
    assert!(r.append_stderr);
    assert!(!r.append_stdout);
}

#[test]
fn redirect_explicit_stdout_descriptor() {
    let r = get_redirect("ls 1> o");
    assert_eq!(r.redirect_stdout_file.as_deref(), Some("o"));
    assert_eq!(r.file_index_start, Some(3));
}

#[test]
fn redirect_digit_inside_word_is_not_a_descriptor() {
    let r = get_redirect("echo file2>x");
    assert_eq!(r.redirect_stdout_file.as_deref(), Some("x"));
    assert!(r.redirect_stderr_file.is_none());
    assert_eq!(r.file_index_start, Some(10));
}

#[test]
fn redirect_quoted_operator_ignored() {
    let r = get_redirect("echo '>' \"a>b\"");
    assert!(r.redirect_stdout_file.is_none());
    assert!(r.redirect_stderr_file.is_none());
    assert!(r.file_index_start.is_none());
}

#[test]
fn redirect_none_without_operator() {
    let r = get_redirect("echo hello world");
    assert!(r.redirect_stdout_file.is_none());
    assert!(r.redirect_stderr_file.is_none());
    assert!(r.file_index_start.is_none());
    assert!(!r.append_stdout && !r.append_stderr);
}

#[test]
fn redirect_index_counts_bytes() {
    let r = get_redirect("echo é > f");
    assert_eq!(r.file_index_start, Some(8));
    assert_eq!(r.redirect_stdout_file.as_deref(), Some("f"));
}

#[test]
fn redirect_first_operator_wins() {
    let r = get_redirect("echo a > b > c");
    assert_eq!(r.file_index_start, Some(7));
    assert_eq!(r.redirect_stdout_file.as_deref(), Some("b > c"));
    assert!(!r.append_stdout);
}

fn vars() -> StrMap {
    let mut m = StrMap::new();
    m.insert("NAME".to_string(), "world".to_string());
    m.insert("A".to_string(), "$B".to_string());
    m.insert("B".to_string(), "$A".to_string());
    m.insert("GREETING".to_string(), "hi $NAME".to_string());
    m
}

#[test]
fn expand_known_variables() {
    let m = vars();
    assert_eq!(expand_string_with_vars("hello $NAME!", &m), "hello world!");
    assert_eq!(expand_string_with_vars("${NAME}x", &m), "worldx");
    assert_eq!(expand_string_with_vars("$GREETING", &m), "hi world");
}

#[test]
fn expand_unknown_variables_stay() {
    let m = vars();
    assert_eq!(expand_string_with_vars("$UNKNOWN", &m), "$UNKNOWN");
    assert_eq!(expand_string_with_vars("${UNKNOWN}", &m), "${UNKNOWN}");
    assert_eq!(expand_string_with_vars("${UNK", &m), "${UNK");
    assert_eq!(expand_string_with_vars("${UNK!x", &m), "${UNK!x");
    assert_eq!(expand_string_with_vars("${NAME", &m), "world");
    assert_eq!(expand_string_with_vars("cost $5", &m), "cost $5");
}

#[test]
fn expand_lone_dollar() {
    let m = vars();
    assert_eq!(expand_string_with_vars("$", &m), "$");
    assert_eq!(expand_string_with_vars("a $ b", &m), "a $ b");
    assert_eq!(expand_string_with_vars("${", &m), "$");
}

#[test]
fn expand_cycle_stops() {
    let m = vars();
    assert_eq!(expand_string_with_vars("$A", &m), "$A");
    assert_eq!(expand_string_with_vars("$B", &m), "$B");
}

#[test]
fn expand_plain_text_unchanged() {
    let m = vars();
    assert_eq!(expand_string_with_vars("no references here", &m), "no references here");
    let empty = StrMap::new();
    assert_eq!(expand_string_with_vars("$NAME", &empty), "$NAME");
}

#[test]
fn expand_args_each() {
    let m = vars();
    let r = expand_args(vec!["$NAME".to_string(), "x".to_string()], &m);
    assert_eq!(r, vec!["world", "x"]);
}

#[test]
fn validate_identifiers() {
    assert!(validate("abc"));
    assert!(validate("_x1"));
    assert!(validate(""));
    assert!(validate("é"));
    assert!(!validate("9a"));
    assert!(!validate("a-b"));
}

#[test]
fn invalid_identifier_text() {
    assert_eq!(
        invalid_identifier_message("9a=b"),
        "declare: `9a=b': not a valid identifier"
    );
}

#[test]
fn no_such_process_is_not_running() {
    assert!(!is_process_running(u32::MAX));
}

#[test]
fn running_means_present_and_not_zombie() {
    assert!(is_running(ProcessState::Present(RunState::Run)));
    assert!(is_running(ProcessState::Present(RunState::Sleep)));
    assert!(is_running(ProcessState::Present(RunState::Unknown(7))));
    assert!(!is_running(ProcessState::Present(RunState::Zombie)));
    assert!(!is_running(ProcessState::Absent));
    assert!(!is_running(ProcessState::Unreadable));
}

#[test]
fn no_such_process_is_absent() {
    assert!(matches!(process_state(u32::MAX), ProcessState::Absent | ProcessState::Unreadable));
}
