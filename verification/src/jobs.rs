//! Background jobs: which job numbers are in use, what each one ran and the
//! process that runs it.

use vstd::prelude::*;
use std::collections::HashMap;
use vstd::std_specs::iter::IteratorSpec;
use vstd::string::StringExecFns;
use crate::text::{
    chars_of, decimal, push_char, push_decimal, replace_all, replace_seq, string_of_all,
    strings_view,
};

verus! {

broadcast use {
    vstd::std_specs::hash::group_hash_axioms,
};

/// Job numbers in increasing order.
pub open spec fn strictly_increasing(s: Seq<u32>) -> bool {
    forall|i: int, j: int| 0 <= i < j < s.len() ==> s[i] < s[j]
}

/// The job numbers of `d` in increasing order.
pub open spec fn sorted_job_ids(d: Set<u32>) -> Seq<u32> {
    choose|s: Seq<u32>| strictly_increasing(s) && s.to_set() == d
}

/// Two increasing sequences with the same elements are equal.
pub proof fn lemma_increasing_unique(a: Seq<u32>, b: Seq<u32>)
    requires
        strictly_increasing(a),
        strictly_increasing(b),
        a.to_set() == b.to_set(),
    ensures
        a == b,
{
    assert forall|k: int| 0 <= k < a.len() && k < b.len() implies a[k] == b[k] by {
        lemma_increasing_prefix_eq(a, b, k);
    }
    if a.len() < b.len() {
        let x = b[a.len() as int];
        assert(b.to_set().contains(x));
        let m = choose|m: int| 0 <= m < a.len() && a[m] == x;
        assert(a[m] == b[m]);
    }
    if b.len() < a.len() {
        let x = a[b.len() as int];
        assert(a.to_set().contains(x));
        let m = choose|m: int| 0 <= m < b.len() && b[m] == x;
        assert(a[m] == b[m]);
    }
    assert(a =~= b);
}

proof fn lemma_increasing_prefix_eq(a: Seq<u32>, b: Seq<u32>, k: int)
    requires
        strictly_increasing(a),
        strictly_increasing(b),
        a.to_set() == b.to_set(),
        0 <= k < a.len(),
        k < b.len(),
    ensures
        a[k] == b[k],
    decreases k,
{
    if k > 0 {
        assert forall|j: int| 0 <= j < k implies a[j] == b[j] by {
            lemma_increasing_prefix_eq(a, b, j);
        }
    }
    assert(a.to_set().contains(a[k]));
    let m = choose|m: int| 0 <= m < b.len() && b[m] == a[k];
    if m < k {
        assert(a[m] == b[m]);
    }
    assert(b.to_set().contains(b[k]));
    let m2 = choose|m2: int| 0 <= m2 < a.len() && a[m2] == b[k];
    if m2 < k {
        assert(a[m2] == b[m2]);
    }
}

/// The `[n]` marker of the `i`th of `total` jobs: `+` for the last, `-` for
/// the one before it.
pub open spec fn job_marker(i: int, total: int) -> char {
    if i == total - 1 {
        '+'
    } else if i == total - 2 {
        '-'
    } else {
        ' '
    }
}

/// A job's command as shown once it has finished: without ` &`.
pub open spec fn finished_command(cmd: Seq<char>) -> Seq<char> {
    replace_seq(cmd, seq![' ', '&'], seq![])
}

/// `[n]m  Done     cmd`: the line announcing a finished job.
pub open spec fn done_line(id: u32, marker: char, cmd: Seq<char>) -> Seq<char> {
    seq!['['] + decimal(id as nat) + seq![']', marker, ' ', ' '] + "Done    "@ + seq![' ']
        + finished_command(cmd)
}

/// The announcements for the first `n` jobs of `ids` whose `running` flag is off.
pub open spec fn done_lines(ids: Seq<u32>, cmds: Map<u32, String>, running: Seq<bool>, n: nat) -> Seq<
    Seq<char>,
>
    decreases n,
{
    if n == 0 {
        seq![]
    } else {
        let i = n - 1;
        let prev = done_lines(ids, cmds, running, (n - 1) as nat);
        if running[i] {
            prev
        } else {
            prev.push(done_line(ids[i], job_marker(i, ids.len() as int), cmds[ids[i]]@))
        }
    }
}

/// The job numbers among `ids` whose `running` flag is off.
pub open spec fn finished_ids(ids: Seq<u32>, running: Seq<bool>) -> Set<u32> {
    Set::new(|k: u32| exists|i: int| 0 <= i < ids.len() && ids[i] == k && !running[i])
}

pub struct Jobs {
    pub jobs_list: HashMap<u32, String>,
    pub process_list: HashMap<u32, u32>,
}

/// Inserts `x`, absent from the increasing `ids`, keeping them increasing.
fn insert_sorted(ids: &mut Vec<u32>, x: u32)
    requires
        strictly_increasing(old(ids)@),
        !old(ids)@.contains(x),
    ensures
        strictly_increasing(final(ids)@),
        final(ids)@.to_set() == old(ids)@.to_set().insert(x),
{
    let mut p: usize = 0;
    while p < ids.len() && ids[p] < x
        invariant
            p <= ids@.len(),
            forall|k: int| 0 <= k < p ==> ids@[k] < x,
        decreases ids.len() - p,
    {
        p = p + 1;
    }
    let ghost before = ids@;
    ids.insert(p, x);
    assert forall|i: int, j: int| 0 <= i < j < ids@.len() implies ids@[i] < ids@[j] by {
        if p < before.len() {
            assert(before[p as int] != x);
        }
    }
    assert(ids@.to_set() =~= before.to_set().insert(x)) by {
        assert forall|y: u32| #[trigger] ids@.to_set().contains(y) implies before.to_set().insert(x).contains(y) by {
            let k = choose|k: int| 0 <= k < ids@.len() && ids@[k] == y;
            if k < p {
                assert(before[k] == y);
            } else if k > p {
                assert(before[k - 1] == y);
            }
        }
        assert forall|y: u32| #[trigger] before.to_set().insert(x).contains(y) implies ids@.to_set().contains(y) by {
            if y == x {
                assert(ids@[p as int] == x);
            } else {
                let k = choose|k: int| 0 <= k < before.len() && before[k] == y;
                if k < p {
                    assert(ids@[k] == y);
                } else {
                    assert(ids@[k + 1] == y);
                }
            }
        }
    }
}

proof fn lemma_keys_step(keys: Seq<&u32>, i: int)
    requires
        0 <= i < keys.len(),
        keys.no_duplicates(),
    ensures
        keys.take(i + 1).unref().to_set() == keys.take(i).unref().to_set().insert(*keys[i]),
        !keys.take(i).unref().to_set().contains(*keys[i]),
{
    let a = keys.take(i).unref();
    let b = keys.take(i + 1).unref();
    assert(b =~= a.push(*keys[i]));
    assert forall|y: u32| b.to_set().contains(y) <==> a.to_set().insert(*keys[i]).contains(y) by {
        if b.to_set().contains(y) {
            let k = choose|k: int| 0 <= k < b.len() && b[k] == y;
            if k < i {
                assert(a[k] == y);
            }
        }
        if a.to_set().contains(y) {
            let k = choose|k: int| 0 <= k < a.len() && a[k] == y;
            assert(b[k] == y);
        }
        if y == *keys[i] {
            assert(b[i] == y);
        }
    }
    assert(b.to_set() =~= a.to_set().insert(*keys[i]));
    if a.to_set().contains(*keys[i]) {
        let k = choose|k: int| 0 <= k < a.len() && a[k] == *keys[i];
        assert(keys[k] == keys[i]);
    }
}

impl Jobs {
    /// Every job has a process.
    pub open spec fn wf(&self) -> bool {
        self.jobs_list@.dom() == self.process_list@.dom()
    }

    /// No jobs.
    pub fn new() -> (r: Jobs)
        ensures
            r.jobs_list@ == Map::<u32, String>::empty(),
            r.process_list@ == Map::<u32, u32>::empty(),
            r.wf(),
    {
        Jobs { jobs_list: HashMap::new(), process_list: HashMap::new() }
    }

    /// The job numbers in use, in increasing order.
    pub fn sorted_ids(&self) -> (r: Vec<u32>)
        ensures
            strictly_increasing(r@),
            r@.to_set() == self.jobs_list@.dom(),
            r@ == sorted_job_ids(self.jobs_list@.dom()),
    {
        let mut ids: Vec<u32> = Vec::new();
        let ghost keys = vstd::std_specs::hash::spec_keys_iter(&self.jobs_list).remaining();
        proof {
            vstd::std_specs::hash::axiom_spec_keys_iter(&self.jobs_list);
        }
        for k in it: self.jobs_list.keys()
            invariant
                it.seq() == keys,
                keys.no_duplicates(),
                keys.unref().to_set() == self.jobs_list@.dom(),
                strictly_increasing(ids@),
                ids@.to_set() == keys.take(it.index()).unref().to_set(),
        {
            assert(*k == keys[it.index()]);
            proof {
                lemma_keys_step(keys, it.index());
            }
            insert_sorted(&mut ids, *k);
        }
        assert(keys.take(keys.len() as int) =~= keys);
        proof {
            let c = sorted_job_ids(self.jobs_list@.dom());
            assert(strictly_increasing(ids@) && ids@.to_set() == self.jobs_list@.dom());
            lemma_increasing_unique(c, ids@);
        }
        ids
    }

    /// The number the next background job gets: one more than the largest in
    /// use, or 1.
    pub fn next_job_number(&self) -> (n: u32)
        requires
            forall|k: u32| self.jobs_list@.dom().contains(k) ==> k < u32::MAX,
        ensures
            n == if self.jobs_list@.dom() == Set::<u32>::empty() {
                1
            } else {
                sorted_job_ids(self.jobs_list@.dom()).last() + 1
            },
            forall|k: u32| self.jobs_list@.dom().contains(k) ==> k < n,
    {
        let ids = self.sorted_ids();
        if ids.len() == 0 {
            assert(ids@.to_set() =~= Set::<u32>::empty());
            1
        } else {
            let last = ids[ids.len() - 1];
            proof {
                assert(ids@.to_set().contains(ids@[0]));
                assert(self.jobs_list@.dom() != Set::<u32>::empty());
                assert(ids@.to_set().contains(last));
                assert forall|k: u32| self.jobs_list@.dom().contains(k) implies k <= last by {
                    let m = choose|m: int| 0 <= m < ids@.len() && ids@[m] == k;
                }
            }
            last + 1
        }
    }
}

proof fn lemma_finished_ids_step(ids: Seq<u32>, running: Seq<bool>, i: int)
    requires
        0 <= i < ids.len(),
        running.len() == ids.len(),
    ensures
        finished_ids(ids.take(i + 1), running) == if running[i] {
            finished_ids(ids.take(i), running)
        } else {
            finished_ids(ids.take(i), running).insert(ids[i])
        },
{
    let a = ids.take(i);
    let b = ids.take(i + 1);
    assert forall|k: u32| #[trigger] finished_ids(b, running).contains(k) <==> (if running[i] {
        finished_ids(a, running)
    } else {
        finished_ids(a, running).insert(ids[i])
    }).contains(k) by {
        if finished_ids(b, running).contains(k) {
            let m = choose|m: int| 0 <= m < b.len() && b[m] == k && !running[m];
            if m < i {
                assert(a[m] == k);
            }
        }
        if finished_ids(a, running).contains(k) {
            let m = choose|m: int| 0 <= m < a.len() && a[m] == k && !running[m];
            assert(b[m] == k);
        }
        if !running[i] && k == ids[i] {
            assert(b[i] == k);
        }
    }
    assert(finished_ids(b, running) =~= if running[i] {
        finished_ids(a, running)
    } else {
        finished_ids(a, running).insert(ids[i])
    });
}

/// The announcement of a finished job.
fn done_line_string(id: u32, marker: char, cmd: &String) -> (r: String)
    ensures
        r@ == done_line(id, marker, cmd@),
{
    let mut r = String::new();
    push_char(&mut r, '[');
    push_decimal(&mut r, id as usize);
    push_char(&mut r, ']');
    push_char(&mut r, marker);
    push_char(&mut r, ' ');
    push_char(&mut r, ' ');
    r.append("Done    ");
    push_char(&mut r, ' ');
    let shown = finished_command_string(cmd);
    r.append(shown.as_str());
    assert(r@ =~= done_line(id, marker, cmd@));
    r
}

/// A job's command without ` &`.
pub fn finished_command_string(cmd: &String) -> (r: String)
    ensures
        r@ == finished_command(cmd@),
{
    let v = chars_of(cmd.as_str());
    let pat: Vec<char> = vec![' ', '&'];
    let empty: Vec<char> = Vec::new();
    assert(pat@ =~= seq![' ', '&']);
    assert(empty@ =~= Seq::<char>::empty());
    let r = replace_all(&v, &pat, &empty);
    string_of_all(&r)
}

fn marker_of(i: usize, total: usize) -> (c: char)
    requires
        i < total,
    ensures
        c == job_marker(i as int, total as int),
{
    if i == total - 1 {
        '+'
    } else if total >= 2 && i == total - 2 {
        '-'
    } else {
        ' '
    }
}

/// Forgets the finished jobs, given whether the process of each job (in
/// increasing job order) still runs, and returns the lines announcing them
/// when `print` is set.
pub fn reap_finished(jobs: &mut Jobs, running: &Vec<bool>, print: bool) -> (lines: Vec<String>)
    requires
        old(jobs).wf(),
        running@.len() == sorted_job_ids(old(jobs).jobs_list@.dom()).len(),
    ensures
        final(jobs).wf(),
        final(jobs).jobs_list@ == old(jobs).jobs_list@.remove_keys(
            finished_ids(sorted_job_ids(old(jobs).jobs_list@.dom()), running@),
        ),
        final(jobs).process_list@ == old(jobs).process_list@.remove_keys(
            finished_ids(sorted_job_ids(old(jobs).jobs_list@.dom()), running@),
        ),
        strings_view(lines@) == if print {
            done_lines(
                sorted_job_ids(old(jobs).jobs_list@.dom()),
                old(jobs).jobs_list@,
                running@,
                running@.len(),
            )
        } else {
            Seq::empty()
        },
{
    let ids = jobs.sorted_ids();
    let ghost cmds = jobs.jobs_list@;
    let ghost procs = jobs.process_list@;
    let total = ids.len();
    let mut lines: Vec<String> = Vec::new();
    let mut finished: Vec<u32> = Vec::new();
    let mut i: usize = 0;
    while i < total
        invariant
            total == ids@.len(),
            ids@ == sorted_job_ids(cmds.dom()),
            ids@.to_set() == cmds.dom(),
            strictly_increasing(ids@),
            running@.len() == total,
            i <= total,
            jobs.jobs_list@ == cmds,
            jobs.process_list@ == procs,
            strings_view(lines@) == if print {
                done_lines(ids@, cmds, running@, i as nat)
            } else {
                Seq::empty()
            },
            finished@.to_set() == finished_ids(ids@.take(i as int), running@),
        decreases total - i,
    {
        let id = ids[i];
        let ghost finished_before = finished@;
        assert(ids@.to_set().contains(id));
        if !running[i] {
            if print {
                let cmd = jobs.jobs_list.get(&id).unwrap();
                let line = done_line_string(id, marker_of(i, total), cmd);
                lines.push(line);
            }
            finished.push(id);
        }
        proof {
            assert(ids@.take(i + 1).drop_last() =~= ids@.take(i as int));
            lemma_finished_ids_step(ids@, running@, i as int);
            if !running@[i as int] {
                finished_before.lemma_push_to_set_commute(id);
            }
            if print {
                assert(strings_view(lines@) =~= done_lines(ids@, cmds, running@, (i + 1) as nat));
            }
        }
        i = i + 1;
    }
    assert(ids@.take(total as int) =~= ids@);
    let mut j: usize = 0;
    while j < finished.len()
        invariant
            j <= finished@.len(),
            jobs.jobs_list@ == cmds.remove_keys(finished@.take(j as int).to_set()),
            jobs.process_list@ == procs.remove_keys(finished@.take(j as int).to_set()),
        decreases finished.len() - j,
    {
        let id = finished[j];
        jobs.jobs_list.remove(&id);
        jobs.process_list.remove(&id);
        proof {
            assert(finished@.take(j + 1) =~= finished@.take(j as int).push(id));
            finished@.take(j as int).lemma_push_to_set_commute(id);
        }
        assert(jobs.jobs_list@ =~= cmds.remove_keys(finished@.take(j + 1).to_set()));
        assert(jobs.process_list@ =~= procs.remove_keys(finished@.take(j + 1).to_set()));
        j = j + 1;
    }
    assert(finished@.take(finished@.len() as int) =~= finished@);
    assert(jobs.jobs_list@.dom() =~= jobs.process_list@.dom());
    lines
}

/// Forgets the jobs whose process has finished, asking the operating system
/// about each job's process in increasing job order, and returns the lines
/// announcing them when `print` is set.
pub fn reap_jobs(jobs: &mut Jobs, print: bool) -> (lines: Vec<String>)
    requires
        old(jobs).wf(),
    ensures
        final(jobs).wf(),
        exists|running: Seq<bool>|
            #![trigger finished_ids(sorted_job_ids(old(jobs).jobs_list@.dom()), running)]
            {
                let ids = sorted_job_ids(old(jobs).jobs_list@.dom());
                &&& running.len() == ids.len()
                &&& final(jobs).jobs_list@ == old(jobs).jobs_list@.remove_keys(
                    finished_ids(ids, running),
                )
                &&& final(jobs).process_list@ == old(jobs).process_list@.remove_keys(
                    finished_ids(ids, running),
                )
                &&& strings_view(lines@) == if print {
                    done_lines(ids, old(jobs).jobs_list@, running, running.len())
                } else {
                    Seq::empty()
                }
            },
{
    let running = process_states(jobs);
    reap_finished(jobs, &running, print)
}

/// The process of each job, in increasing job order.
pub fn job_pids(jobs: &Jobs) -> (pids: Vec<u32>)
    requires
        jobs.wf(),
    ensures
        pids@.len() == sorted_job_ids(jobs.jobs_list@.dom()).len(),
        forall|i: int|
            0 <= i < pids@.len() ==> jobs.process_list@.contains_key(
                sorted_job_ids(jobs.jobs_list@.dom())[i],
            ) && #[trigger] pids@[i] == jobs.process_list@[sorted_job_ids(jobs.jobs_list@.dom())[i]],
{
    let ids = jobs.sorted_ids();
    let mut pids: Vec<u32> = Vec::new();
    let mut i: usize = 0;
    while i < ids.len()
        invariant
            i <= ids@.len(),
            pids@.len() == i,
            ids@ == sorted_job_ids(jobs.jobs_list@.dom()),
            ids@.to_set() == jobs.process_list@.dom(),
            jobs.wf(),
            forall|k: int|
                0 <= k < i ==> jobs.process_list@.contains_key(ids@[k]) && #[trigger] pids@[k]
                    == jobs.process_list@[ids@[k]],
        decreases ids.len() - i,
    {
        assert(ids@.to_set().contains(ids@[i as int]));
        let pid = *jobs.process_list.get(&ids[i]).unwrap();
        pids.push(pid);
        i = i + 1;
    }
    pids
}

/// Whether the process of each job, in increasing job order, still runs: the
/// process table's state of each process `job_pids` gives, judged by
/// `is_running`.
pub fn process_states(jobs: &Jobs) -> (running: Vec<bool>)
    requires
        jobs.wf(),
    ensures
        running@.len() == sorted_job_ids(jobs.jobs_list@.dom()).len(),
{
    let pids = job_pids(jobs);
    let mut running: Vec<bool> = Vec::new();
    let mut i: usize = 0;
    while i < pids.len()
        invariant
            i <= pids@.len(),
            running@.len() == i,
        decreases pids.len() - i,
    {
        let state = crate::utils::process_state(pids[i]);
        running.push(crate::utils::is_running(state));
        i = i + 1;
    }
    running
}

/// Records a background job for `command`, run by process `pid`, under the
/// next job number, which it returns.
pub fn add_job(jobs: &mut Jobs, command: String, pid: u32) -> (n: u32)
    requires
        old(jobs).wf(),
        forall|k: u32| old(jobs).jobs_list@.dom().contains(k) ==> k < u32::MAX,
    ensures
        final(jobs).wf(),
        n == if old(jobs).jobs_list@.dom() == Set::<u32>::empty() {
            1
        } else {
            sorted_job_ids(old(jobs).jobs_list@.dom()).last() + 1
        },
        !old(jobs).jobs_list@.dom().contains(n),
        final(jobs).jobs_list@ == old(jobs).jobs_list@.insert(n, command),
        final(jobs).process_list@ == old(jobs).process_list@.insert(n, pid),
{
    let n = jobs.next_job_number();
    jobs.jobs_list.insert(n, command);
    jobs.process_list.insert(n, pid);
    assert(jobs.jobs_list@.dom() =~= jobs.process_list@.dom());
    n
}

/// `[n] pid`: the line announcing a job started in the background.
pub fn job_started_line(n: u32, pid: u32) -> (r: String)
    ensures
        r@ == seq!['['] + decimal(n as nat) + seq![']', ' '] + decimal(pid as nat),
{
    let mut r = String::new();
    push_char(&mut r, '[');
    push_decimal(&mut r, n as usize);
    push_char(&mut r, ']');
    push_char(&mut r, ' ');
    push_decimal(&mut r, pid as usize);
    assert(r@ =~= seq!['['] + decimal(n as nat) + seq![']', ' '] + decimal(pid as nat));
    r
}

} // verus!
