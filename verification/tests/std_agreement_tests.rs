use minishell::completion::{sort_candidates, Candidate};
use minishell::executor::{clean_last_newline, path_file_name, split_pipeline};
use minishell::jobs::finished_command_string;
use minishell::path_checker::search_dirs;
use minishell::session::strip_line_ending;

#[test]
fn file_name_like_std_path() {
    for s in [
        "/usr/bin/grep", "grep", "dir/", "a/./", "./a", ".", "..", "/", "", "a/..", "a//b",
        "/a/b/.", "x/../y", "~/bin/tool",
    ] {
        let expected = std::path::Path::new(s).file_name().map(|n| n.to_str().unwrap().to_string());
        assert_eq!(path_file_name(s), expected, "{:?}", s);
    }
}

#[test]
fn sorting_like_std_stable_sort() {
    let names = ["b", "a", "b", "ab", "", "a", "é", "Z", "ab"];
    let v: Vec<Candidate> = names
        .iter()
        .enumerate()
        .map(|(i, d)| Candidate { display: d.to_string(), replacement: i.to_string() })
        .collect();
    let mut expected: Vec<(String, String)> =
        v.iter().map(|c| (c.display.clone(), c.replacement.clone())).collect();
    expected.sort_by(|a, b| a.0.cmp(&b.0));
    let got: Vec<(String, String)> =
        sort_candidates(&v).into_iter().map(|c| (c.display, c.replacement)).collect();
    assert_eq!(got, expected);
}

#[test]
fn newline_and_ampersand_like_std() {
    for s in ["a\n", "a\n\n", "", "\n", "abc"] {
        assert_eq!(clean_last_newline(s), s.strip_suffix('\n').unwrap_or(s));
        assert_eq!(
            strip_line_ending(s),
            s.trim_end_matches('\n').trim_end_matches('\r')
        );
    }
    for s in ["sleep 1 &", "a & b & c", "&&", " & &"] {
        assert_eq!(finished_command_string(&s.to_string()), s.replace(" &", ""));
    }
}

#[test]
fn splitting_like_std() {
    for s in ["a|b", "|", "", " x | y ", "a||b"] {
        let expected: Vec<String> = s.split('|').map(|c| c.trim().to_string()).collect();
        assert_eq!(split_pipeline(s), expected);
    }
    for s in ["/bin:/usr/bin", "", ":", "a::b:"] {
        let expected: Vec<String> = s.split(':').map(|c| c.to_string()).collect();
        assert_eq!(search_dirs(s), expected);
    }
}
