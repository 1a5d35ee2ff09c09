use minishell::path_checker::{distinct_names, search_dirs};

#[test]
fn path_pieces() {
    assert_eq!(search_dirs("/bin:/usr/bin"), vec!["/bin", "/usr/bin"]);
    assert_eq!(search_dirs(""), vec![""]);
    assert_eq!(search_dirs("a::b"), vec!["a", "", "b"]);
}

#[test]
fn names_listed_once() {
    let names: Vec<String> = ["ls", "cat", "ls", "echo", "cat"].iter().map(|s| s.to_string()).collect();
    assert_eq!(distinct_names(&names), vec!["ls", "cat", "echo"]);
    assert!(distinct_names(&Vec::new()).is_empty());
}
