use minishell::text::{parse_usize, split_whitespace, trim, usize_to_string};

fn num(s: &str) -> Option<usize> {
    let v: Vec<char> = s.chars().collect();
    parse_usize(&v, 0, v.len())
}

#[test]
fn numbers_parse_like_std() {
    for s in ["0", "42", "+5", "-5", "", "+", "1a", "007", "18446744073709551616"] {
        assert_eq!(num(s), s.parse::<usize>().ok(), "{:?}", s);
    }
}

#[test]
fn decimal_roundtrip() {
    for n in [0usize, 7, 10, 12345, usize::MAX] {
        assert_eq!(usize_to_string(n), n.to_string());
        assert_eq!(num(&usize_to_string(n)), Some(n));
    }
}

#[test]
fn whitespace_like_std() {
    for s in ["  a b  ", "\u{a0}x\ty\u{3000}", "", "\n"] {
        let expected: Vec<String> = s.split_whitespace().map(|w| w.to_string()).collect();
        assert_eq!(split_whitespace(s), expected);
        assert_eq!(trim(s), s.trim());
    }
}
