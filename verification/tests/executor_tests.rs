use minishell::executor::{
    background_command, clean_last_newline, cleanup_name, ends_session, external_stage,
    first_word, get_command_args, get_command_path, output_target, path_file_name, split_char,
    split_pipeline, strip_redirect,
};
use minishell::strmap::StrMap;
use minishell::utils::{get_redirect, RedirectMode};
use minishell::jobs::{add_job, job_pids, Jobs};

#[test]
fn clean_last_newline_removes_one() {
    assert_eq!(clean_last_newline("a\n\n"), "a\n");
    assert_eq!(clean_last_newline("a"), "a");
    assert_eq!(clean_last_newline(""), "");
}

#[test]
fn split_char_double_quotes() {
    assert_eq!(split_char('"', r#""hello world" x"#), vec!["hello world", "x"]);
    assert_eq!(split_char('"', r#"a"b c"d"#), vec!["ab c", "d"]);
    assert_eq!(split_char('"', r#""a\"b""#), vec!["a\"b"]);
}

#[test]
fn split_char_single_quotes() {
    assert_eq!(split_char('\'', "'a b'  c"), vec!["a b", "c"]);
    assert_eq!(split_char('\'', r"'a\b'"), vec![r"a\b"]);
    assert_eq!(split_char('\'', r"x\ y"), vec!["x y"]);
}

#[test]
fn command_args_forms() {
    let vars = StrMap::new();
    assert_eq!(get_command_args(" a  b ", &vars), vec!["a", "b"]);
    assert_eq!(get_command_args(r#" "a  b" c"#, &vars), vec!["a  b", "c"]);
    assert_eq!(get_command_args(" 'x y'", &vars), vec!["x y"]);
    assert_eq!(get_command_args(r" a\\b c\d", &vars), vec![r"a\b", "cd"]);
}

#[test]
fn command_args_expand_variables() {
    let mut vars = StrMap::new();
    vars.insert("X".to_string(), "1".to_string());
    assert_eq!(get_command_args(" $X ${X}y", &vars), vec!["1", "1y"]);
}

#[test]
fn cleanup_name_removes_quotes() {
    assert_eq!(cleanup_name("'my prog'"), "my prog");
    assert_eq!(cleanup_name(r#""a\"b""#), "a\"b");
    assert_eq!(cleanup_name(r"a\b"), r"a\b");
}

#[test]
fn command_path_token() {
    assert_eq!(get_command_path("ls -l"), "ls");
    assert_eq!(get_command_path("'my prog' x"), "'my prog'");
    assert_eq!(get_command_path("cat"), "cat");
}

#[test]
fn path_file_names() {
    assert_eq!(path_file_name("/usr/bin/grep").as_deref(), Some("grep"));
    assert_eq!(path_file_name("grep").as_deref(), Some("grep"));
    assert_eq!(path_file_name("dir/").as_deref(), Some("dir"));
    assert_eq!(path_file_name("a/./").as_deref(), Some("a"));
    assert_eq!(path_file_name("/"), None);
    assert_eq!(path_file_name(""), None);
    assert_eq!(path_file_name("a/.."), None);
}

#[test]
fn external_stage_program_and_args() {
    let vars = StrMap::new();
    let (p, a) = external_stage("/usr/bin/grep -i foo", &vars);
    assert_eq!(p, "grep");
    assert_eq!(a, vec!["-i", "foo"]);
    let (p, a) = external_stage("'my prog' x", &vars);
    assert_eq!(p, "my prog");
    assert_eq!(a, vec!["x"]);
    let (p, _) = external_stage("/", &vars);
    assert_eq!(p, "unknown");
}

#[test]
fn background_commands() {
    assert_eq!(background_command("sleep 5 &").as_deref(), Some("sleep 5"));
    assert_eq!(background_command("  sleep 5   &  ").as_deref(), Some("sleep 5"));
    assert_eq!(background_command("sleep 5&"), None);
    assert_eq!(background_command("ls"), None);
}

#[test]
fn redirect_stripping() {
    let cmd = "ls -l > out.txt";
    let r = get_redirect(cmd);
    let idx = r.file_index_start.unwrap();
    assert_eq!(strip_redirect(cmd, idx), "ls -l");
    let cmd = "ls 2>> err";
    let r = get_redirect(cmd);
    assert_eq!(strip_redirect(cmd, r.file_index_start.unwrap()), "ls");
    let cmd = "echo hi>out.txt";
    let r = get_redirect(cmd);
    assert_eq!(strip_redirect(cmd, r.file_index_start.unwrap()), "echo hi");
    let cmd = ">f";
    let r = get_redirect(cmd);
    assert_eq!(strip_redirect(cmd, r.file_index_start.unwrap()), "");
    let cmd = "echo é>f";
    let r = get_redirect(cmd);
    assert_eq!(strip_redirect(cmd, r.file_index_start.unwrap()), "echo é");
}

#[test]
fn pipeline_split() {
    assert_eq!(split_pipeline("ls -l | grep a |wc"), vec!["ls -l", "grep a", "wc"]);
    assert_eq!(split_pipeline("echo"), vec!["echo"]);
    assert_eq!(split_pipeline("a||b"), vec!["a", "", "b"]);
}

#[test]
fn first_words() {
    assert_eq!(first_word("  echo hi"), "echo");
    assert_eq!(first_word("   "), "");
}

#[test]
fn output_targets() {
    match output_target(&get_redirect("ls >> o")) {
        Some((m, p, a)) => {
            assert_eq!(m, RedirectMode::Stdout);
            assert_eq!(p, "o");
            assert!(a);
        }
        None => panic!("expected a target"),
    }
    match output_target(&get_redirect("ls 2> e")) {
        Some((m, p, a)) => {
            assert_eq!(m, RedirectMode::Stderr);
            assert_eq!(p, "e");
            assert!(!a);
        }
        None => panic!("expected a target"),
    }
    assert!(output_target(&get_redirect("ls")).is_none());
}

#[test]
fn exit_ends_session() {
    assert!(ends_session("exit"));
    assert!(ends_session("exit 3"));
    assert!(ends_session("exitfoo"));
    assert!(!ends_session(" exit"));
    assert!(!ends_session("echo exit"));
}

#[test]
fn pids_in_job_order() {
    let mut j = Jobs::new();
    add_job(&mut j, "a".to_string(), 30);
    add_job(&mut j, "b".to_string(), 20);
    assert_eq!(job_pids(&j), vec![30, 20]);
}
