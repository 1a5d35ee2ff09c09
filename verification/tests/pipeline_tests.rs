use minishell::builtins::make_output;
use minishell::pipeline::{PipeState, StdinSource};

#[test]
fn single_process_stage() {
    let mut st = PipeState::new();
    let w = st.wire_external(true, true);
    assert_eq!(w.stdin, StdinSource::Inherit);
    assert!(w.capture);
    assert!(w.feed.is_none());
    assert!(st.waits_for_last(true));
    let out = st.finish(Some(make_output(0, b"x".to_vec(), vec![])));
    assert_eq!(out.stdout, b"x".to_vec());
}

#[test]
fn builtin_output_feeds_next_process() {
    let mut st = PipeState::new();
    st.after_builtin(make_output(0, b"hello\n".to_vec(), vec![]), false);
    let w = st.wire_external(true, false);
    assert_eq!(w.stdin, StdinSource::Piped);
    assert!(!w.capture);
    assert_eq!(w.feed, Some(b"hello\n".to_vec()));
    assert!(st.waits_for_last(true));
    let out = st.finish(Some(make_output(3, b"5".to_vec(), b"e".to_vec())));
    assert_eq!(out.status, 3);
    assert_eq!(out.stdout, b"5".to_vec());
    assert_eq!(out.stderr, b"e".to_vec());
}

#[test]
fn process_then_process() {
    let mut st = PipeState::new();
    let w = st.wire_external(false, false);
    assert_eq!(w.stdin, StdinSource::Inherit);
    assert!(w.capture);
    let w = st.wire_external(true, false);
    assert_eq!(w.stdin, StdinSource::Previous);
    assert!(!w.capture);
}

#[test]
fn last_builtin_output_is_reported() {
    let mut st = PipeState::new();
    let _ = st.wire_external(false, false);
    st.after_builtin(make_output(0, b"out".to_vec(), vec![]), true);
    assert!(!st.waits_for_last(true));
    let out = st.finish(None);
    assert_eq!(out.status, 0);
    assert_eq!(out.stdout, b"out".to_vec());
    assert!(out.stderr.is_empty());
}

#[test]
fn builtin_errors_feed_when_no_output() {
    let mut st = PipeState::new();
    st.after_builtin(make_output(1, vec![], b"bad".to_vec()), false);
    let w = st.wire_external(true, false);
    assert_eq!(w.stdin, StdinSource::Piped);
    assert_eq!(w.feed, Some(b"bad".to_vec()));
}

#[test]
fn empty_builtin_reports_its_status() {
    let mut st = PipeState::new();
    st.after_builtin(make_output(1, vec![], vec![]), true);
    let out = st.finish(None);
    assert_eq!(out.status, 1);
    assert!(out.stdout.is_empty() && out.stderr.is_empty());
}
