use minishell::builtins::jobs_report;
use minishell::jobs::{add_job, finished_command_string, job_started_line, reap_finished, Jobs};

#[test]
fn job_numbers_follow_the_largest() {
    let mut j = Jobs::new();
    assert_eq!(j.next_job_number(), 1);
    assert_eq!(add_job(&mut j, "sleep 5".to_string(), 100), 1);
    assert_eq!(add_job(&mut j, "sleep 6".to_string(), 101), 2);
    assert_eq!(j.next_job_number(), 3);
    assert_eq!(j.sorted_ids(), vec![1, 2]);
    assert_eq!(j.jobs_list.get(&2).map(|s| s.as_str()), Some("sleep 6"));
    assert_eq!(j.process_list.get(&1), Some(&100));
}

#[test]
fn started_line() {
    assert_eq!(job_started_line(3, 4242), "[3] 4242");
}

#[test]
fn finished_command_drops_ampersand() {
    assert_eq!(finished_command_string(&"sleep 5 &".to_string()), "sleep 5");
    assert_eq!(finished_command_string(&"a & b &".to_string()), "a b");
}

#[test]
fn reap_forgets_finished_jobs() {
    let mut j = Jobs::new();
    add_job(&mut j, "sleep 1 &".to_string(), 10);
    add_job(&mut j, "sleep 2 &".to_string(), 11);
    add_job(&mut j, "sleep 3 &".to_string(), 12);
    let lines = reap_finished(&mut j, &vec![false, true, false], true);
    assert_eq!(lines, vec!["[1]   Done     sleep 1", "[3]+  Done     sleep 3"]);
    assert_eq!(j.sorted_ids(), vec![2]);
    assert!(j.process_list.get(&1).is_none());
    assert_eq!(j.process_list.get(&2), Some(&11));
    assert_eq!(j.next_job_number(), 3);
}

#[test]
fn reap_quietly() {
    let mut j = Jobs::new();
    add_job(&mut j, "x".to_string(), 10);
    add_job(&mut j, "y".to_string(), 11);
    let lines = reap_finished(&mut j, &vec![false, false], false);
    assert!(lines.is_empty());
    assert!(j.sorted_ids().is_empty());
    assert_eq!(j.next_job_number(), 1);
}

#[test]
fn report_lines_and_markers() {
    let mut j = Jobs::new();
    add_job(&mut j, "sleep 1 &".to_string(), 10);
    add_job(&mut j, "sleep 2 &".to_string(), 11);
    add_job(&mut j, "sleep 3 &".to_string(), 12);
    let text = jobs_report(&j, &vec![true, false, true]);
    assert_eq!(
        text,
        "[1]   Running  sleep 1 &\n[2]-  Done     sleep 2\n[3]+  Running  sleep 3 &\n"
    );
}
