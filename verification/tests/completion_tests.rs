use minishell::complete::Complete;
use minishell::completion::{
    command_candidates, completion_words, finish_replacement, lines, plan_completion,
    script_candidates, sort_candidates, Candidate, CompletionPlan,
};

fn pairs(v: &[Candidate]) -> Vec<(String, String)> {
    v.iter().map(|c| (c.display.clone(), c.replacement.clone())).collect()
}

fn cand(d: &str, r: &str) -> Candidate {
    Candidate { display: d.to_string(), replacement: r.to_string() }
}

#[test]
fn lines_like_str_lines() {
    assert_eq!(lines("a\nb\r\nc"), vec!["a", "b", "c"]);
    assert_eq!(lines("a\n"), vec!["a"]);
    assert_eq!(lines(""), Vec::<String>::new());
    assert_eq!(lines("\n\nx"), vec!["", "", "x"]);
    assert_eq!(lines("x\r"), vec!["x\r"]);
}

#[test]
fn script_output_filtered_by_token() {
    let r = script_candidates("checkout\ncherry-pick\nbranch\n", "ch");
    assert_eq!(
        pairs(&r),
        vec![
            ("checkout".to_string(), "checkout ".to_string()),
            ("cherry-pick".to_string(), "cherry-pick ".to_string()),
        ]
    );
    assert!(script_candidates("", "x").is_empty());
}

#[test]
fn commands_sorted_and_filtered() {
    let words: Vec<String> = ["exit", "echo", "ls", "env", "echo"].iter().map(|s| s.to_string()).collect();
    let r = command_candidates(&words, "e");
    let shown: Vec<String> = r.iter().map(|c| c.display.clone()).collect();
    assert_eq!(shown, vec!["echo", "echo", "env", "exit"]);
    assert!(r.iter().all(|c| c.replacement == format!("{} ", c.display)));
    assert!(command_candidates(&words, "zz").is_empty());
}

#[test]
fn sort_is_stable_by_display() {
    let v = vec![cand("b", "1"), cand("a", "2"), cand("b", "3"), cand("a", "4"), cand("ab", "5")];
    let r = sort_candidates(&v);
    assert_eq!(
        pairs(&r),
        vec![
            ("a".to_string(), "2".to_string()),
            ("a".to_string(), "4".to_string()),
            ("ab".to_string(), "5".to_string()),
            ("b".to_string(), "1".to_string()),
            ("b".to_string(), "3".to_string()),
        ]
    );
}

#[test]
fn sort_orders_like_strings() {
    let v = vec![cand("é", ""), cand("z", ""), cand("Z", ""), cand("", "")];
    let r = sort_candidates(&v);
    let shown: Vec<String> = r.iter().map(|c| c.display.clone()).collect();
    let mut expected: Vec<String> = vec!["é".to_string(), "z".to_string(), "Z".to_string(), String::new()];
    expected.sort();
    assert_eq!(shown, expected);
}

#[test]
fn replacement_finishing() {
    assert_eq!(finish_replacement("src/".to_string()), "src/");
    assert_eq!(finish_replacement("main.rs".to_string()), "main.rs ");
    assert_eq!(finish_replacement(String::new()), " ");
}

#[test]
fn words_are_builtins_then_externals() {
    let r = completion_words(&vec!["ls".to_string()]);
    assert_eq!(r, vec!["exit", "echo", "type", "pwd", "cd", "history", "jobs", "ls"]);
}

#[test]
fn plan_empty_line() {
    let c = Complete::new();
    assert!(matches!(plan_completion("", 0, &Vec::new(), &c), CompletionPlan::Nothing));
}

#[test]
fn plan_command_position() {
    let c = Complete::new();
    let words: Vec<String> = vec!["echo".to_string(), "exit".to_string(), "ls".to_string()];
    match plan_completion("ex", 2, &words, &c) {
        CompletionPlan::Offer { start, candidates } => {
            assert_eq!(start, 0);
            assert_eq!(pairs(&candidates), vec![("exit".to_string(), "exit ".to_string())]);
        }
        _ => panic!("expected command candidates"),
    }
    match plan_completion("echo", 1, &words, &c) {
        CompletionPlan::Offer { candidates, .. } => {
            let shown: Vec<String> = candidates.iter().map(|c| c.display.clone()).collect();
            assert_eq!(shown, vec!["echo", "exit"]);
        }
        _ => panic!("expected command candidates"),
    }
}

#[test]
fn plan_runs_registered_script() {
    let mut c = Complete::new();
    c.scripts.insert("git".to_string(), "/tmp/git.sh".to_string());
    match plan_completion("git checkout br", 15, &Vec::new(), &c) {
        CompletionPlan::RunScript { start, script, args, token } => {
            assert_eq!(start, 13);
            assert_eq!(script, "/tmp/git.sh");
            assert_eq!(args, vec!["git", "br", "checkout"]);
            assert_eq!(token, "br");
        }
        _ => panic!("expected a script run"),
    }
    match plan_completion("git checkout ", 13, &Vec::new(), &c) {
        CompletionPlan::RunScript { start, args, .. } => {
            assert_eq!(start, 13);
            assert_eq!(args, vec!["git", "", "checkout"]);
        }
        _ => panic!("expected a script run"),
    }
    match plan_completion("git ", 4, &Vec::new(), &c) {
        CompletionPlan::RunScript { args, .. } => assert_eq!(args, vec!["git", "", "git"]),
        _ => panic!("expected a script run"),
    }
}

#[test]
fn plan_falls_back_to_files() {
    let mut c = Complete::new();
    assert!(matches!(plan_completion("cat ma", 6, &Vec::new(), &c), CompletionPlan::Files));
    c.scripts.insert("cat".to_string(), String::new());
    assert!(matches!(plan_completion("cat ma", 6, &Vec::new(), &c), CompletionPlan::Files));
}

#[test]
fn plan_uses_text_before_cursor() {
    let mut c = Complete::new();
    c.scripts.insert("é".to_string(), "s".to_string());
    match plan_completion("é xy zzz", 5, &Vec::new(), &c) {
        CompletionPlan::RunScript { start, args, token, .. } => {
            assert_eq!(start, 3);
            assert_eq!(token, "xy");
            assert_eq!(args, vec!["é", "xy", "é"]);
        }
        _ => panic!("expected a script run"),
    }
}

#[test]
fn lines_agree_with_std() {
    for s in ["", "a", "a\n", "a\r\nb", "\r\n", "x\r", "\n\n", "a\rb\n"] {
        let expected: Vec<String> = s.lines().map(|l| l.to_string()).collect();
        assert_eq!(lines(s), expected, "{:?}", s);
    }
}
