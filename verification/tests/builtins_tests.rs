use minishell::builtins::{
    builtin_kind, handle_cd_command, handle_complete_command, handle_declare_command,
    handle_echo_command, handle_jobs_command, handle_type_command, history_append,
    history_append_cut_ok, history_entry, history_read, history_step, history_to_file_content,
    is_builtin, parse_echo_args, type_found_output, type_not_found_output, BuiltinKind, CdStep,
    CmdOutput, HistoryStep, TypeStep,
};
use minishell::complete::Complete;
use minishell::jobs::Jobs;

fn out(o: &CmdOutput) -> String {
    String::from_utf8(o.stdout.clone()).unwrap()
}

fn err(o: &CmdOutput) -> String {
    String::from_utf8(o.stderr.clone()).unwrap()
}

#[test]
fn builtin_names() {
    for n in ["exit", "echo", "type", "pwd", "cd", "history", "jobs"] {
        assert!(is_builtin(n), "{}", n);
    }
    assert!(!is_builtin("ls"));
    assert!(!is_builtin("complete"));
    assert!(!is_builtin("ech"));
}

#[test]
fn dispatch_kinds() {
    assert_eq!(builtin_kind("  exit "), BuiltinKind::Exit);
    assert_eq!(builtin_kind("pwd"), BuiltinKind::Pwd);
    assert_eq!(builtin_kind("echo"), BuiltinKind::BareEcho);
    assert_eq!(builtin_kind("echo hi"), BuiltinKind::Echo);
    assert_eq!(builtin_kind("type ls"), BuiltinKind::Type);
    assert_eq!(builtin_kind("cd /"), BuiltinKind::Cd);
    assert_eq!(builtin_kind("history 3"), BuiltinKind::History);
    assert_eq!(builtin_kind("jobs"), BuiltinKind::Jobs);
    assert_eq!(builtin_kind("complete -p git"), BuiltinKind::Complete);
    assert_eq!(builtin_kind("declare -p X"), BuiltinKind::Declare);
    assert_eq!(builtin_kind("exit 3"), BuiltinKind::Unknown);
    assert_eq!(builtin_kind("ls"), BuiltinKind::Unknown);
}

#[test]
fn echo_collapses_spaces() {
    let o = handle_echo_command("echo hello   world");
    assert_eq!(o.status, 0);
    assert_eq!(out(&o), "hello world\n");
    assert_eq!(err(&o), "");
}

#[test]
fn echo_keeps_quoted_spaces_and_drops_empty_quotes() {
    let o = handle_echo_command("echo 'a   b' \"\"c");
    assert_eq!(out(&o), "a   b c\n");
}

#[test]
fn echo_escape() {
    let o = handle_echo_command(r"echo a\ \ b");
    assert_eq!(out(&o), "a  b\n");
}

#[test]
fn builtin_echo_args_collapse_only() {
    assert_eq!(parse_echo_args("a   b"), "a b");
    assert_eq!(parse_echo_args("'a   b'"), "a   b");
    assert_eq!(parse_echo_args(" x "), " x ");
}

#[test]
fn complete_register_list_remove() {
    let mut c = Complete::new();
    let o = handle_complete_command("complete -C /tmp/s.sh git", &mut c);
    assert_eq!(o.status, 0);
    assert_eq!(out(&o), "");
    let o = handle_complete_command("complete -p git", &mut c);
    assert_eq!(o.status, 0);
    assert_eq!(out(&o), "complete -C '/tmp/s.sh' git\n");
    let o = handle_complete_command("complete -r git", &mut c);
    assert_eq!(o.status, 0);
    let o = handle_complete_command("complete -p git", &mut c);
    assert_eq!(out(&o), "complete: git: no completion specification\n");
}

#[test]
fn complete_invalid_option() {
    let mut c = Complete::new();
    let o = handle_complete_command("complete -x a b", &mut c);
    assert_eq!(o.status, 1);
    assert_eq!(out(&o), "");
    assert_eq!(err(&o), "complete: -x: invalid option\n");
}

#[test]
fn declare_not_found() {
    let o = handle_declare_command("declare -p FOO");
    assert_eq!(o.status, 1);
    assert_eq!(err(&o), "declare: FOO: not found\n");
}

fn sample_history() -> Vec<String> {
    vec!["\t1  ls".to_string(), "\t2  pwd".to_string()]
}

fn done(step: HistoryStep) -> CmdOutput {
    match step {
        HistoryStep::Done(o) => o,
        _ => panic!("expected an answer"),
    }
}

#[test]
fn history_listing() {
    let h = sample_history();
    let o = done(history_step("history", &h));
    assert_eq!(o.status, 0);
    assert_eq!(out(&o), "\t1  ls\n\t2  pwd");
    let o = done(history_step("history 1", &h));
    assert_eq!(out(&o), "\t2  pwd");
    let o = done(history_step("history 5", &h));
    assert_eq!(out(&o), "\t1  ls\n\t2  pwd");
    let o = done(history_step("history +1", &h));
    assert_eq!(out(&o), "\t2  pwd");
    let o = done(history_step("history 0", &h));
    assert_eq!(out(&o), "");
}

#[test]
fn history_errors() {
    let h = sample_history();
    let o = done(history_step("history -r", &h));
    assert_eq!(o.status, 1);
    assert_eq!(err(&o), "history -r: missing file operand\n");
    let o = done(history_step("history -5", &h));
    assert_eq!(err(&o), "history -5: missing file operand\n");
    let o = done(history_step("history -x f", &h));
    assert_eq!(o.status, 1);
    assert_eq!(err(&o), "history: -x: invalid option\n");
}

#[test]
fn history_file_requests() {
    let h = sample_history();
    match history_step("history -r f.txt", &h) {
        HistoryStep::Read(p) => assert_eq!(p, "f.txt"),
        _ => panic!("expected read"),
    }
    match history_step("history -w f.txt", &h) {
        HistoryStep::Write(p, c) => {
            assert_eq!(p, "f.txt");
            assert_eq!(c, "ls\npwd\n");
        }
        _ => panic!("expected write"),
    }
    match history_step("history -a f.txt", &h) {
        HistoryStep::Append(p) => assert_eq!(p, "f.txt"),
        _ => panic!("expected append"),
    }
}

#[test]
fn history_entries_and_file_text() {
    assert_eq!(history_entry(7, "echo hi"), "\t7  echo hi");
    assert_eq!(history_to_file_content(&sample_history()), "ls\npwd\n");
    assert_eq!(history_to_file_content(&Vec::new()), "\n");
    let h = vec!["\t1    spaced  cmd  ".to_string(), "nospace".to_string()];
    assert_eq!(history_to_file_content(&h), "spaced  cmd\n\n");
}

#[test]
fn history_read_appends_numbered_lines() {
    let mut h = sample_history();
    history_read(&mut h, "a\nb\n");
    assert_eq!(h, vec!["\t1  ls", "\t2  pwd", "\t3  a", "\t4  b"]);
    let mut h2: Vec<String> = Vec::new();
    history_read(&mut h2, "");
    assert_eq!(h2, vec!["\t1  "]);
}

#[test]
fn history_append_after_marker() {
    let existing = "ls\nhistory -a f\nold\n";
    assert!(history_append_cut_ok(existing, "f"));
    let mut h = vec!["\t3  new".to_string()];
    let r = history_append(&mut h, existing, "f");
    assert_eq!(r, "ls\nhistory -a f\nnew\n");
    assert!(h.is_empty());
    let mut h = vec!["\t1  x".to_string()];
    let r = history_append(&mut h, "old\n", "f");
    assert_eq!(r, "old\nx\n");
    assert!(!history_append_cut_ok("history -a f", "f"));
    assert!(!history_append_cut_ok("history -a fé", "f"));
}

#[test]
fn type_builtin_and_search() {
    match handle_type_command("type echo") {
        TypeStep::Done(o) => {
            assert_eq!(o.status, 0);
            assert_eq!(out(&o), "echo is a shell builtin");
        }
        _ => panic!("expected builtin"),
    }
    match handle_type_command("type   ls  ") {
        TypeStep::Search(n) => assert_eq!(n, "ls"),
        _ => panic!("expected search"),
    }
    let o = type_found_output("ls", "/bin/ls");
    assert_eq!(out(&o), "ls is /bin/ls");
    let o = type_not_found_output("nope");
    assert_eq!(o.status, 0);
    assert_eq!(out(&o), "");
    assert_eq!(err(&o), "nope: not found");
}

#[test]
fn cd_requests() {
    match handle_cd_command("cd ") {
        CdStep::Done(o) => {
            assert_eq!(o.status, 1);
            assert_eq!(err(&o), "cd: missing argument\n");
        }
        _ => panic!("expected missing argument"),
    }
    assert!(matches!(handle_cd_command("cd ~"), CdStep::Home));
    match handle_cd_command("cd  /tmp  x") {
        CdStep::Dir(d) => assert_eq!(d, "/tmp"),
        _ => panic!("expected a directory"),
    }
}

#[test]
fn jobs_listing_empty() {
    let mut j = Jobs::new();
    let o = handle_jobs_command(&mut j);
    assert_eq!(o.status, 0);
    assert_eq!(out(&o), "");
}
