use minishell::builtins::cd::{no_such_dir_message, CdRequest};
use minishell::builtins::{cd, echo, exit};
use minishell::builtins::registry::{execute, is_builtin as is_registered, BuiltinAction};
use minishell::builtins::type_cmd::{identify, run as type_run};
use minishell::parser::Command;

fn parse(s: &str) -> Command {
    Command::parse(s).unwrap()
}

#[test]
fn registered_builtins() {
    for n in ["exit", "echo", "type", "pwd", "cd"] {
        assert!(is_registered(n));
    }
    assert!(!is_registered("history"));
    assert!(!is_registered("ls"));
}

#[test]
fn exit_codes() {
    match execute(&parse("exit")) {
        BuiltinAction::Exit(c) => assert_eq!(c, 0),
        _ => panic!("expected exit"),
    }
    match execute(&parse("exit 3")) {
        BuiltinAction::Exit(c) => assert_eq!(c, 3),
        _ => panic!("expected exit"),
    }
    match execute(&parse("exit -2")) {
        BuiltinAction::Exit(c) => assert_eq!(c, -2),
        _ => panic!("expected exit"),
    }
    match execute(&parse("exit x")) {
        BuiltinAction::Exit(c) => assert_eq!(c, 0),
        _ => panic!("expected exit"),
    }
    assert!(execute(&parse("exit")).should_exit());
    assert!(!execute(&parse("pwd")).should_exit());
}

#[test]
fn echo_action() {
    match execute(&parse("echo  a   'b  c'  ")) {
        BuiltinAction::Echo(s) => assert_eq!(s, "a b  c"),
        _ => panic!("expected echo"),
    }
}

#[test]
fn type_action_and_lines() {
    let cmd = parse("type echo ls nope");
    match execute(&cmd) {
        BuiltinAction::Type(names) => assert_eq!(names, vec!["echo", "ls", "nope"]),
        _ => panic!("expected type"),
    }
    let found = vec![None, Some("/bin/ls".to_string()), None];
    assert_eq!(
        type_run(&cmd, &found),
        vec!["echo is a shell builtin", "ls is /bin/ls", "nope: not found"]
    );
    assert_eq!(identify("cd", &None), "cd is a shell builtin");
}

#[test]
fn cd_action() {
    assert!(matches!(execute(&parse("cd")), BuiltinAction::Cd(CdRequest::Home)));
    assert!(matches!(execute(&parse("cd ~")), BuiltinAction::Cd(CdRequest::Home)));
    match execute(&parse("cd /tmp")) {
        BuiltinAction::Cd(CdRequest::Dir(d)) => assert_eq!(d, "/tmp"),
        _ => panic!("expected a directory"),
    }
    assert_eq!(no_such_dir_message("x"), "cd: x: No such file or directory");
}

#[test]
fn other_commands_are_not_builtin() {
    assert!(matches!(execute(&parse("pwd")), BuiltinAction::Pwd));
    assert!(matches!(execute(&parse("ls -l")), BuiltinAction::NotBuiltin));
}

#[test]
fn builtin_parts_directly() {
    assert_eq!(exit::run(&parse("exit 7 8")), 7);
    assert_eq!(exit::run(&parse("exit 99999999999")), 0);
    assert_eq!(echo::run(&parse("echo x   \"y  z\" ''")), "x y  z");
    assert!(matches!(cd::run(&parse("cd ~ x")), CdRequest::Home));
}
