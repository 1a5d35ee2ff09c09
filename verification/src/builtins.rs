//! The shell's built-in commands: which command lines they are, and what they
//! answer.  Those that touch the file system or the environment are
//! described here by the request they make; the rest are answered in full.

pub mod cd;
pub mod echo;
pub mod exit;
pub mod registry;
pub mod type_cmd;

use vstd::prelude::*;
use vstd::string::{StrSliceExecFns, StringExecFns};
use vstd::utf8::encode_utf8;
use crate::complete::Complete;
use crate::constants::{
    shell_builtins, shell_builtins_list, CD_CMD, COMPLETE_CMD, DECLARE_CMD, ECHO_CMD, EXIT_CMD,
    HISTORY_CMD, JOBS_CMD, PWD_CMD, TYPE_CMD,
};
use crate::parser::{drop_empty_quotes, echo_collapse, echo_collapse_spec, remove_empty_quotes};
use crate::text::{
    split_on_char, split_on, split_run, trim, trim_start_seq, find, find_from, utf8_width,
    byte_boundary, char_at_byte, char_index_of_byte, chars_of, decimal, join_from, join_with,
    occurs_at, parse_usize, parse_usize_spec, push_char, push_decimal, same_chars,
    split_whitespace, starts_with, string_of, string_of_all, strings_view, sub_vec, trim_bounds,
    trim_seq, words, trim_end_seq, is_digit,
};
use crate::jobs::{
    Jobs, finished_command, finished_command_string, job_marker, process_states, reap_jobs,
    sorted_job_ids, finished_ids,
};

verus! {

// ── Outputs ──────────────────────────────────────────────────────────────────

/// What a command produced: exit status and the bytes of its two streams.
pub struct CmdOutput {
    pub status: i32,
    pub stdout: Vec<u8>,
    pub stderr: Vec<u8>,
}

/// The UTF-8 bytes of a text.
pub open spec fn bytes_of(s: Seq<char>) -> Seq<u8> {
    encode_utf8(s)
}

/// The UTF-8 bytes of `s`.
pub fn bytes(s: &String) -> (r: Vec<u8>)
    ensures
        r@ == bytes_of(s@),
{
    s.as_str().as_bytes_vec()
}

/// An output with this status and these two streams.
pub fn make_output(status: i32, stdout: Vec<u8>, stderr: Vec<u8>) -> (r: CmdOutput)
    ensures
        r.status == status,
        r.stdout@ == stdout@,
        r.stderr@ == stderr@,
{
    CmdOutput { status, stdout, stderr }
}

/// Success with the given standard output.
pub fn ok_output(stdout: Vec<u8>) -> (r: CmdOutput)
    ensures
        r.status == 0,
        r.stdout@ == stdout@,
        r.stderr@ == Seq::<u8>::empty(),
{
    make_output(0, stdout, Vec::new())
}

/// Failure (status 1) with the given standard error.
pub fn err_output(stderr: Vec<u8>) -> (r: CmdOutput)
    ensures
        r.status == 1,
        r.stdout@ == Seq::<u8>::empty(),
        r.stderr@ == stderr@,
{
    make_output(1, Vec::new(), stderr)
}

/// Success with no output.
pub fn empty_ok() -> (r: CmdOutput)
    ensures
        r.status == 0,
        r.stdout@ == Seq::<u8>::empty(),
        r.stderr@ == Seq::<u8>::empty(),
{
    make_output(0, Vec::new(), Vec::new())
}

/// `r` is the output with this status and these texts on its two streams.
pub open spec fn output_is(r: CmdOutput, status: i32, out: Seq<char>, err: Seq<char>) -> bool {
    r.status == status && r.stdout@ == bytes_of(out) && r.stderr@ == bytes_of(err)
}

fn text_output(status: i32, out: &String, err: &String) -> (r: CmdOutput)
    ensures
        output_is(r, status, out@, err@),
{
    make_output(status, bytes(out), bytes(err))
}

// ── Dispatch ─────────────────────────────────────────────────────────────────

/// Whether `cmd` names a built-in command.
pub fn is_builtin(cmd: &str) -> (b: bool)
    ensures
        b == shell_builtins().contains(cmd@),
{
    let v = chars_of(cmd);
    let names = shell_builtins_list();
    let mut i: usize = 0;
    while i < names.len()
        invariant
            i <= names@.len(),
            v@ == cmd@,
            names@.len() == shell_builtins().len(),
            forall|k: int| 0 <= k < names@.len() ==> (#[trigger] names@[k])@ == shell_builtins()[k],
            forall|k: int| 0 <= k < i ==> shell_builtins()[k] != cmd@,
        decreases names.len() - i,
    {
        let w = chars_of(names[i]);
        if same_chars(&v, &w) {
            assert(shell_builtins()[i as int] == cmd@);
            return true;
        }
        i = i + 1;
    }
    false
}

/// Which built-in handles a command line.
#[derive(Clone, Copy, PartialEq, Eq, Structural, Debug)]
pub enum BuiltinKind {
    Exit,
    Pwd,
    BareEcho,
    Echo,
    Type,
    Cd,
    History,
    Jobs,
    Complete,
    Declare,
    Unknown,
}

/// The built-in a command line (trimmed) selects: an exact `exit`, `pwd` or
/// `echo`; `echo `, `type ` or `cd ` followed by arguments; or anything that
/// starts with `history`, `jobs`, `complete` or `declare`, tried in that order.
pub open spec fn builtin_kind_spec(command: Seq<char>) -> BuiltinKind {
    let t = trim_seq(command);
    if t == EXIT_CMD@ {
        BuiltinKind::Exit
    } else if t == PWD_CMD@ {
        BuiltinKind::Pwd
    } else if t == ECHO_CMD@ {
        BuiltinKind::BareEcho
    } else if (ECHO_CMD@ + seq![' ']).is_prefix_of(t) {
        BuiltinKind::Echo
    } else if (TYPE_CMD@ + seq![' ']).is_prefix_of(t) {
        BuiltinKind::Type
    } else if (CD_CMD@ + seq![' ']).is_prefix_of(t) {
        BuiltinKind::Cd
    } else if HISTORY_CMD@.is_prefix_of(t) {
        BuiltinKind::History
    } else if JOBS_CMD@.is_prefix_of(t) {
        BuiltinKind::Jobs
    } else if COMPLETE_CMD@.is_prefix_of(t) {
        BuiltinKind::Complete
    } else if DECLARE_CMD@.is_prefix_of(t) {
        BuiltinKind::Declare
    } else {
        BuiltinKind::Unknown
    }
}

fn with_space(s: &str) -> (r: Vec<char>)
    ensures
        r@ == s@ + seq![' '],
{
    let mut v = chars_of(s);
    v.push(' ');
    v
}

/// The built-in that handles `command`.
pub fn builtin_kind(command: &str) -> (k: BuiltinKind)
    ensures
        k == builtin_kind_spec(command@),
{
    let v = chars_of(command);
    let (lo, hi) = trim_bounds(&v);
    let t = sub_vec(&v, lo, hi);
    if same_chars(&t, &chars_of(EXIT_CMD)) {
        BuiltinKind::Exit
    } else if same_chars(&t, &chars_of(PWD_CMD)) {
        BuiltinKind::Pwd
    } else if same_chars(&t, &chars_of(ECHO_CMD)) {
        BuiltinKind::BareEcho
    } else if starts_with(&t, &with_space(ECHO_CMD)) {
        BuiltinKind::Echo
    } else if starts_with(&t, &with_space(TYPE_CMD)) {
        BuiltinKind::Type
    } else if starts_with(&t, &with_space(CD_CMD)) {
        BuiltinKind::Cd
    } else if starts_with(&t, &chars_of(HISTORY_CMD)) {
        BuiltinKind::History
    } else if starts_with(&t, &chars_of(JOBS_CMD)) {
        BuiltinKind::Jobs
    } else if starts_with(&t, &chars_of(COMPLETE_CMD)) {
        BuiltinKind::Complete
    } else if starts_with(&t, &chars_of(DECLARE_CMD)) {
        BuiltinKind::Declare
    } else {
        BuiltinKind::Unknown
    }
}

/// What `exit` answers: status 1, which tells the shell to stop.
pub fn exit_output() -> (r: CmdOutput)
    ensures
        r.status == 1,
        r.stdout@ == Seq::<u8>::empty(),
        r.stderr@ == Seq::<u8>::empty(),
{
    make_output(1, Vec::new(), Vec::new())
}

/// What a bare `echo` answers: an empty line.
pub fn bare_echo_output() -> (r: CmdOutput)
    ensures
        output_is(r, 0, seq!['\n'], seq![]),
{
    let mut s = String::new();
    push_char(&mut s, '\n');
    text_output(0, &s, &String::new())
}

// ── echo ─────────────────────────────────────────────────────────────────────

/// The text after the first `start` bytes of `s`.
pub open spec fn after_bytes(s: Seq<char>, start: nat) -> Seq<char> {
    s.skip(char_at_byte(s, start))
}

/// The characters after the first `start` bytes of `command`.
fn chars_after(command: &str, start: usize) -> (r: Vec<char>)
    requires
        byte_boundary(command@, start as nat),
    ensures
        r@ == after_bytes(command@, start as nat),
{
    let v = chars_of(command);
    let k = char_index_of_byte(&v, start).unwrap();
    let r = sub_vec(&v, k, v.len());
    assert(r@ =~= v@.skip(k as int));
    r
}

/// What `echo ARGS` prints: the arguments (after the five bytes of `echo `)
/// with empty quote pairs dropped, quoting removed and unquoted spaces
/// collapsed, then a newline.
pub open spec fn echo_text(command: Seq<char>) -> Seq<char> {
    echo_collapse_spec(drop_empty_quotes(after_bytes(command, 5))) + seq!['\n']
}

/// Parse echo arguments (collapses extra spaces outside quotes).
pub fn parse_echo_args(input: &str) -> (r: String)
    ensures
        r@ == echo_collapse_spec(input@),
{
    let v = chars_of(input);
    let c = echo_collapse(&v);
    string_of_all(&c)
}

/// `echo ARGS`.
pub fn handle_echo_command(command: &str) -> (r: CmdOutput)
    requires
        byte_boundary(command@, 5),
    ensures
        output_is(r, 0, echo_text(command@), seq![]),
{
    let args = chars_after(command, 5);
    let a = remove_empty_quotes(&args);
    let mut c = echo_collapse(&a);
    c.push('\n');
    let s = string_of_all(&c);
    assert(s@ =~= echo_text(command@));
    let e = String::new();
    assert(e@ =~= seq![]);
    text_output(0, &s, &e)
}

// ── Words of a command line ──────────────────────────────────────────────────

/// The `i`th word, or the empty text when there are fewer words
/// (`split.next().unwrap_or("")`).
pub open spec fn word_at(ws: Seq<Seq<char>>, i: int) -> Seq<char> {
    if 0 <= i < ws.len() {
        ws[i]
    } else {
        seq![]
    }
}

fn word_or_empty(ws: &Vec<String>, i: usize) -> (r: String)
    ensures
        r@ == word_at(strings_view(ws@), i as int),
{
    if i < ws.len() {
        ws[i].clone()
    } else {
        String::new()
    }
}

fn text_is(s: &String, lit: &str) -> (b: bool)
    ensures
        b == (s@ == lit@),
{
    same_chars(&chars_of(s.as_str()), &chars_of(lit))
}

/// A built-in's answer as texts: status, standard output, standard error.
pub struct Answer {
    pub status: i32,
    pub out: Seq<char>,
    pub err: Seq<char>,
}

// ── complete ─────────────────────────────────────────────────────────────────

/// The registry after `complete FLAG ARG EXE`: `-C` registers script `ARG`
/// for command `EXE`, `-r` forgets the script of `ARG`.
pub open spec fn complete_effect(command: Seq<char>, m: Map<Seq<char>, Seq<char>>) -> Map<
    Seq<char>,
    Seq<char>,
> {
    let ws = words(command);
    let flag = word_at(ws, 1);
    if flag == "-C"@ {
        m.insert(word_at(ws, 3), word_at(ws, 2))
    } else if flag == "-r"@ {
        m.remove(word_at(ws, 2))
    } else {
        m
    }
}

/// What `complete -p CMD` prints for the registry `m`.
pub open spec fn completion_listing(cmd: Seq<char>, m: Map<Seq<char>, Seq<char>>) -> Seq<char> {
    if m.contains_key(cmd) && m[cmd].len() > 0 {
        "complete -C '"@ + m[cmd] + "' "@ + cmd + seq!['\n']
    } else {
        "complete: "@ + cmd + ": no completion specification"@ + seq!['\n']
    }
}

/// What `complete FLAG ARG EXE` answers with the registry `m` before it.
pub open spec fn complete_answer(command: Seq<char>, m: Map<Seq<char>, Seq<char>>) -> Answer {
    let ws = words(command);
    let flag = word_at(ws, 1);
    if flag == "-C"@ || flag == "-r"@ {
        Answer { status: 0, out: seq![], err: seq![] }
    } else if flag == "-p"@ {
        Answer { status: 0, out: completion_listing(word_at(ws, 2), m), err: seq![] }
    } else {
        Answer { status: 1, out: seq![], err: "complete: "@ + flag + ": invalid option"@ + seq!['\n'] }
    }
}

/// `complete -C SCRIPT CMD`, `complete -p CMD`, `complete -r CMD`.
pub fn handle_complete_command(command: &str, complete: &mut Complete) -> (r: CmdOutput)
    ensures
        final(complete).scripts@ == complete_effect(command@, old(complete).scripts@),
        output_is(
            r,
            complete_answer(command@, old(complete).scripts@).status,
            complete_answer(command@, old(complete).scripts@).out,
            complete_answer(command@, old(complete).scripts@).err,
        ),
{
    let ws = split_whitespace(command);
    let flag = word_or_empty(&ws, 1);
    let argument = word_or_empty(&ws, 2);
    let executable = word_or_empty(&ws, 3);
    let mut out = String::new();
    let mut err = String::new();
    let status: i32;
    if text_is(&flag, "-C") {
        complete.scripts.insert(executable, argument);
        status = 0;
    } else if text_is(&flag, "-r") {
        complete.scripts.remove(argument.as_str());
        status = 0;
    } else if text_is(&flag, "-p") {
        match complete.scripts.get(argument.as_str()) {
            Some(script) if !script.as_str().is_empty() => {
                out.append("complete -C '");
                out.append(script.as_str());
                out.append("' ");
                out.append(argument.as_str());
                push_char(&mut out, '\n');
            },
            _ => {
                out.append("complete: ");
                out.append(argument.as_str());
                out.append(": no completion specification");
                push_char(&mut out, '\n');
            },
        }
        status = 0;
    } else {
        err.append("complete: ");
        err.append(flag.as_str());
        err.append(": invalid option");
        push_char(&mut err, '\n');
        status = 1;
    }
    let ghost a = complete_answer(command@, old(complete).scripts@);
    assert(out@ =~= a.out);
    assert(err@ =~= a.err);
    text_output(status, &out, &err)
}

/// After `complete -C SCRIPT CMD`, `complete -p CMD` lists the script
/// registered for `CMD`.
pub proof fn law_registered_script_is_listed(
    register: Seq<char>,
    query: Seq<char>,
    m: Map<Seq<char>, Seq<char>>,
)
    requires
        word_at(words(register), 1) == "-C"@,
        word_at(words(query), 1) == "-p"@,
        word_at(words(query), 2) == word_at(words(register), 3),
        word_at(words(register), 2).len() > 0,
    ensures
        complete_answer(query, complete_effect(register, m)) == (Answer {
            status: 0,
            out: "complete -C '"@ + word_at(words(register), 2) + "' "@ + word_at(
                words(register),
                3,
            ) + seq!['\n'],
            err: seq![],
        }),
{
    lemma_flags_differ();
    let ws = words(register);
    let m2 = m.insert(word_at(ws, 3), word_at(ws, 2));
    assert(complete_effect(register, m) == m2);
    assert(m2.contains_key(word_at(ws, 3)) && m2[word_at(ws, 3)] == word_at(ws, 2));
}

/// After `complete -r CMD`, `complete -p CMD` reports that `CMD` has no
/// completion script.
pub proof fn law_removed_script_is_not_listed(
    remove: Seq<char>,
    query: Seq<char>,
    m: Map<Seq<char>, Seq<char>>,
)
    requires
        word_at(words(remove), 1) == "-r"@,
        word_at(words(query), 1) == "-p"@,
        word_at(words(query), 2) == word_at(words(remove), 2),
    ensures
        complete_answer(query, complete_effect(remove, m)) == (Answer {
            status: 0,
            out: "complete: "@ + word_at(words(remove), 2) + ": no completion specification"@
                + seq!['\n'],
            err: seq![],
        }),
{
    lemma_flags_differ();
    let ws = words(remove);
    assert(complete_effect(remove, m) == m.remove(word_at(ws, 2)));
}

proof fn lemma_flags_differ()
    ensures
        "-C"@ != "-r"@,
        "-C"@ != "-p"@,
        "-r"@ != "-p"@,
{
    reveal_strlit("-C");
    reveal_strlit("-r");
    reveal_strlit("-p");
    assert("-C"@[1] != "-r"@[1]);
    assert("-C"@[1] != "-p"@[1]);
    assert("-r"@[1] != "-p"@[1]);
}

// ── declare ──────────────────────────────────────────────────────────────────

/// What `declare FLAG NAME` answers: the name is never found.
pub open spec fn declare_error(command: Seq<char>) -> Seq<char> {
    "declare: "@ + word_at(words(command), 2) + ": not found"@ + seq!['\n']
}

/// `declare FLAG NAME`.
pub fn handle_declare_command(command: &str) -> (r: CmdOutput)
    ensures
        output_is(r, 1, seq![], declare_error(command@)),
{
    let ws = split_whitespace(command);
    let argument = word_or_empty(&ws, 2);
    let mut err = String::new();
    err.append("declare: ");
    err.append(argument.as_str());
    err.append(": not found");
    push_char(&mut err, '\n');
    assert(err@ =~= declare_error(command@));
    let out = String::new();
    assert(out@ =~= seq![]);
    text_output(1, &out, &err)
}

// ── jobs ─────────────────────────────────────────────────────────────────────

/// `[n]m  State    cmd`: one line of the `jobs` listing; a finished job is
/// shown without ` &`.
pub open spec fn jobs_line(id: u32, marker: char, running: bool, cmd: Seq<char>) -> Seq<char> {
    seq!['['] + decimal(id as nat) + seq![']', marker, ' ', ' '] + (if running {
        "Running "@
    } else {
        "Done    "@
    }) + seq![' '] + (if running {
        cmd
    } else {
        finished_command(cmd)
    }) + seq!['\n']
}

/// The `jobs` listing of the first `n` jobs of `ids`.
pub open spec fn jobs_listing(ids: Seq<u32>, cmds: Map<u32, String>, running: Seq<bool>, n: nat) -> Seq<
    char,
>
    decreases n,
{
    if n == 0 {
        seq![]
    } else {
        let i = n - 1;
        jobs_listing(ids, cmds, running, (n - 1) as nat) + jobs_line(
            ids[i],
            job_marker(i, ids.len() as int),
            running[i],
            cmds[ids[i]]@,
        )
    }
}

/// The `jobs` listing, given whether each job's process (in increasing job
/// order) still runs.
#[verifier::spinoff_prover]
pub fn jobs_report(jobs: &Jobs, running: &Vec<bool>) -> (r: String)
    requires
        running@.len() == sorted_job_ids(jobs.jobs_list@.dom()).len(),
    ensures
        r@ == jobs_listing(
            sorted_job_ids(jobs.jobs_list@.dom()),
            jobs.jobs_list@,
            running@,
            running@.len(),
        ),
{
    let ids = jobs.sorted_ids();
    let total = ids.len();
    let mut r = String::new();
    let mut i: usize = 0;
    while i < total
        invariant
            total == ids@.len(),
            ids@ == sorted_job_ids(jobs.jobs_list@.dom()),
            ids@.to_set() == jobs.jobs_list@.dom(),
            running@.len() == total,
            i <= total,
            r@ == jobs_listing(ids@, jobs.jobs_list@, running@, i as nat),
        decreases total - i,
    {
        let id = ids[i];
        assert(ids@.to_set().contains(id));
        let cmd = jobs.jobs_list.get(&id).unwrap();
        let marker = if i == total - 1 {
            '+'
        } else if total >= 2 && i == total - 2 {
            '-'
        } else {
            ' '
        };
        let ghost before = r@;
        push_char(&mut r, '[');
        push_decimal(&mut r, id as usize);
        push_char(&mut r, ']');
        push_char(&mut r, marker);
        push_char(&mut r, ' ');
        push_char(&mut r, ' ');
        if running[i] {
            r.append("Running ");
            push_char(&mut r, ' ');
            r.append(cmd.as_str());
        } else {
            r.append("Done    ");
            push_char(&mut r, ' ');
            let shown = finished_command_string(cmd);
            r.append(shown.as_str());
        }
        push_char(&mut r, '\n');
        assert(r@ =~= before + jobs_line(
            id,
            job_marker(i as int, total as int),
            running@[i as int],
            cmd@,
        ));
        i = i + 1;
    }
    r
}

/// `jobs`: lists the jobs with their state, then forgets the finished ones
/// (process ids and commands alike).
/// Which processes still run is asked of the operating system, once for the
/// listing and once more for forgetting.
pub fn handle_jobs_command(jobs: &mut Jobs) -> (r: CmdOutput)
    requires
        old(jobs).wf(),
    ensures
        final(jobs).wf(),
        exists|running: Seq<bool>|
            #![trigger jobs_listing(sorted_job_ids(old(jobs).jobs_list@.dom()), old(jobs).jobs_list@, running, running.len())]
            running.len() == sorted_job_ids(old(jobs).jobs_list@.dom()).len() && output_is(
                r,
                0,
                jobs_listing(
                    sorted_job_ids(old(jobs).jobs_list@.dom()),
                    old(jobs).jobs_list@,
                    running,
                    running.len(),
                ),
                seq![],
            ),
        exists|again: Seq<bool>|
            #![trigger finished_ids(sorted_job_ids(old(jobs).jobs_list@.dom()), again)]
            {
                let ids = sorted_job_ids(old(jobs).jobs_list@.dom());
                &&& again.len() == ids.len()
                &&& final(jobs).jobs_list@ == old(jobs).jobs_list@.remove_keys(
                    finished_ids(ids, again),
                )
                &&& final(jobs).process_list@ == old(jobs).process_list@.remove_keys(
                    finished_ids(ids, again),
                )
            },
{
    let running = process_states(jobs);
    let text = jobs_report(jobs, &running);
    let _ = reap_jobs(jobs, false);
    let e = String::new();
    assert(e@ =~= seq![]);
    text_output(0, &text, &e)
}

// ── history ──────────────────────────────────────────────────────────────────

/// The text after the first space of `t`, or nothing when it has none
/// (`split_once(' ')` keeping the second part, `("", "")` when absent).
pub open spec fn after_first_space(t: Seq<char>) -> Seq<char>
    decreases t.len(),
{
    if t.len() == 0 {
        seq![]
    } else if t[0] == ' ' {
        t.drop_first()
    } else {
        after_first_space(t.drop_first())
    }
}

/// The command a history entry `\tN  command` records: the entry trimmed,
/// cut after its first space, trimmed again.
pub open spec fn entry_command(entry: Seq<char>) -> Seq<char> {
    trim_seq(after_first_space(trim_seq(entry)))
}

proof fn lemma_after_first_space_skip(d: Seq<char>, y: Seq<char>)
    requires
        forall|i: int| 0 <= i < d.len() ==> d[i] != ' ',
    ensures
        after_first_space(d + y) == after_first_space(y),
    decreases d.len(),
{
    if d.len() > 0 {
        assert((d + y)[0] == d[0]);
        assert((d + y).drop_first() =~= d.drop_first() + y);
        assert forall|i: int| 0 <= i < d.drop_first().len() implies d.drop_first()[i] != ' ' by {
            assert(d.drop_first()[i] == d[i + 1]);
        }
        lemma_after_first_space_skip(d.drop_first(), y);
    } else {
        assert(d + y =~= y);
    }
}

/// The command a history entry records is the command it was made from,
/// trimmed.
pub proof fn law_entry_records_command(n: nat, c: Seq<char>)
    ensures
        entry_command(history_entry_text(n, c)) == trim_seq(c),
{
    let d = decimal(n);
    crate::text::lemma_decimal_digits(n);
    let sp = seq![' ', ' '];
    let p = d + sp;
    let x = p + c;
    let tab = seq!['\t'];
    assert(history_entry_text(n, c) =~= tab + x);
    crate::text::lemma_trim_start_concat(tab, x);
    assert(tab.drop_first() =~= Seq::<char>::empty());
    assert(trim_start_seq(tab) == trim_start_seq(tab.drop_first()));
    assert(x[0] == d[0]);
    assert(is_digit(d[0]));
    assert(trim_start_seq(x) == x);
    crate::text::lemma_trim_end_concat(p, c);
    crate::text::lemma_trim_seq_end_first(c);
    assert forall|i: int| 0 <= i < d.len() implies d[i] != ' ' by {
        assert(is_digit(d[i]));
    }
    if trim_end_seq(c).len() > 0 {
        let ce = trim_end_seq(c);
        assert(trim_seq(history_entry_text(n, c)) == p + ce);
        assert(p + ce =~= d + (sp + ce));
        lemma_after_first_space_skip(d, sp + ce);
        assert((sp + ce).drop_first() =~= seq![' '] + ce);
        let one = seq![' '];
        crate::text::lemma_trim_start_concat(one, ce);
        assert(one.drop_first() =~= Seq::<char>::empty());
        assert(trim_start_seq(one) == trim_start_seq(one.drop_first()));
        assert(trim_seq(one + ce) == trim_seq(ce));
    } else {
        crate::text::lemma_trim_end_concat(d, sp);
        assert(sp.drop_last().drop_last() =~= Seq::<char>::empty());
        assert(trim_end_seq(sp.drop_last()) == trim_end_seq(sp.drop_last().drop_last()));
        assert(trim_end_seq(sp) == trim_end_seq(sp.drop_last()));
        assert(d.last() == d[d.len() - 1]);
        assert(is_digit(d.last()));
        assert(trim_end_seq(d) == d);
        lemma_after_first_space_skip(d, Seq::<char>::empty());
        assert(d + Seq::<char>::empty() =~= d);
        assert(trim_seq(history_entry_text(n, c)) == d);
        assert(after_first_space(d) =~= Seq::<char>::empty());
    }
}

/// The commands the entries of a history record.
pub open spec fn entry_commands(history: Seq<Seq<char>>) -> Seq<Seq<char>> {
    history.map_values(|e: Seq<char>| entry_command(e))
}

/// History as a file: the recorded commands, one per line, each line ended.
pub open spec fn history_file_text(history: Seq<Seq<char>>) -> Seq<char> {
    join_with(entry_commands(history), seq!['\n']) + seq!['\n']
}

fn entry_command_string(entry: &String) -> (r: String)
    ensures
        r@ == entry_command(entry@),
{
    let v = chars_of(entry.as_str());
    let (lo, hi) = trim_bounds(&v);
    let t = sub_vec(&v, lo, hi);
    let mut i: usize = 0;
    assert(t@.skip(0) =~= t@);
    while i < t.len() && t[i] != ' '
        invariant
            i <= t@.len(),
            after_first_space(t@.skip(i as int)) == after_first_space(t@),
        decreases t.len() - i,
    {
        assert(t@.skip(i as int).drop_first() =~= t@.skip(i + 1));
        i = i + 1;
    }
    let rest = if i < t.len() {
        assert(t@.skip(i as int).drop_first() =~= t@.subrange(i + 1, t@.len() as int));
        sub_vec(&t, i + 1, t.len())
    } else {
        assert(t@.skip(i as int) =~= Seq::<char>::empty());
        Vec::new()
    };
    let (a, b) = trim_bounds(&rest);
    string_of(&rest, a, b)
}

/// Strip formatting prefix from history entries and join into file content.
pub fn history_to_file_content(history: &Vec<String>) -> (r: String)
    ensures
        r@ == history_file_text(strings_view(history@)),
{
    let mut commands: Vec<String> = Vec::new();
    let mut i: usize = 0;
    while i < history.len()
        invariant
            i <= history@.len(),
            strings_view(commands@) == strings_view(history@).take(i as int).map_values(
                |e: Seq<char>| entry_command(e),
            ),
        decreases history.len() - i,
    {
        let c = entry_command_string(&history[i]);
        let ghost prev = strings_view(commands@);
        commands.push(c);
        assert(strings_view(commands@) =~= prev.push(c@));
        assert(strings_view(history@).take(i + 1) =~= strings_view(history@).take(i as int).push(
            history@[i as int]@,
        ));
        i = i + 1;
        assert(strings_view(commands@) =~= strings_view(history@).take(i as int).map_values(
            |e: Seq<char>| entry_command(e),
        ));
    }
    let mut r = join_from(&commands, 0, "\n");
    assert(strings_view(history@).take(history@.len() as int) =~= strings_view(history@));
    assert(strings_view(commands@).skip(0) =~= strings_view(commands@));
    proof {
        reveal_strlit("\n");
    }
    assert("\n"@ =~= seq!['\n']);
    push_char(&mut r, '\n');
    r
}

/// What `history` was asked to do.
pub enum HistoryStep {
    /// Answered without touching a file.
    Done(CmdOutput),
    /// `history -r PATH`: read entries from the file.
    Read(String),
    /// `history -w PATH`: write this text to the file.
    Write(String, String),
    /// `history -a PATH`: append to the file.
    Append(String),
}

/// The history request as texts.
pub enum HistoryRequest {
    Done(Answer),
    Read(Seq<char>),
    Write(Seq<char>, Seq<char>),
    Append(Seq<char>),
}

/// The last `count` entries (all of them when there are fewer).
pub open spec fn last_entries(history: Seq<Seq<char>>, count: nat) -> Seq<Seq<char>> {
    if count >= history.len() {
        history
    } else {
        history.skip(history.len() - count)
    }
}

/// What `history`, `history N`, `history -r|-w|-a PATH` asks for.
pub open spec fn history_request(command: Seq<char>, history: Seq<Seq<char>>) -> HistoryRequest {
    let ws = words(command);
    if ws.len() < 2 {
        HistoryRequest::Done(Answer { status: 0, out: join_with(history, seq!['\n']), err: seq![] })
    } else {
        let n = ws[1];
        match parse_usize_spec(n) {
            Some(count) => HistoryRequest::Done(
                Answer {
                    status: 0,
                    out: join_with(last_entries(history, count as nat), seq!['\n']),
                    err: seq![],
                },
            ),
            None => if ws.len() < 3 {
                HistoryRequest::Done(
                    Answer {
                        status: 1,
                        out: seq![],
                        err: "history "@ + n + ": missing file operand"@ + seq!['\n'],
                    },
                )
            } else if n == "-r"@ {
                HistoryRequest::Read(ws[2])
            } else if n == "-w"@ {
                HistoryRequest::Write(ws[2], history_file_text(history))
            } else if n == "-a"@ {
                HistoryRequest::Append(ws[2])
            } else {
                HistoryRequest::Done(
                    Answer {
                        status: 1,
                        out: seq![],
                        err: "history: "@ + n + ": invalid option"@ + seq!['\n'],
                    },
                )
            },
        }
    }
}

/// `step` is the request `req`.
pub open spec fn step_is(step: HistoryStep, req: HistoryRequest) -> bool {
    match (step, req) {
        (HistoryStep::Done(o), HistoryRequest::Done(a)) => output_is(o, a.status, a.out, a.err),
        (HistoryStep::Read(p), HistoryRequest::Read(q)) => p@ == q,
        (HistoryStep::Write(p, c), HistoryRequest::Write(q, d)) => p@ == q && c@ == d,
        (HistoryStep::Append(p), HistoryRequest::Append(q)) => p@ == q,
        _ => false,
    }
}

/// Decides what a `history` command line asks for.
pub fn history_step(command: &str, history: &Vec<String>) -> (r: HistoryStep)
    ensures
        step_is(r, history_request(command@, strings_view(history@))),
{
    let ws = split_whitespace(command);
    let ghost h = strings_view(history@);
    proof {
        reveal_strlit("\n");
    }
    assert("\n"@ =~= seq!['\n']);
    if ws.len() < 2 {
        let out = join_from(history, 0, "\n");
        assert(h.skip(0) =~= h);
        let e = String::new();
        assert(e@ =~= seq![]);
        return HistoryStep::Done(text_output(0, &out, &e));
    }
    let n = &ws[1];
    let nv = chars_of(n.as_str());
    assert(nv@.subrange(0, nv@.len() as int) =~= nv@);
    match parse_usize(&nv, 0, nv.len()) {
        Some(count) => {
            let start = if count >= history.len() {
                0
            } else {
                history.len() - count
            };
            let out = join_from(history, start, "\n");
            assert(count >= history@.len() ==> h.skip(start as int) =~= h);
            let e = String::new();
            assert(e@ =~= seq![]);
            HistoryStep::Done(text_output(0, &out, &e))
        },
        None => {
            if ws.len() < 3 {
                let mut err = String::new();
                err.append("history ");
                err.append(n.as_str());
                err.append(": missing file operand");
                push_char(&mut err, '\n');
                let o = String::new();
                assert(o@ =~= seq![]);
                let ghost req = history_request(command@, h);
                assert(err@ =~= "history "@ + n@ + ": missing file operand"@ + seq!['\n']);
                return HistoryStep::Done(text_output(1, &o, &err));
            }
            let path = ws[2].clone();
            if text_is(n, "-r") {
                HistoryStep::Read(path)
            } else if text_is(n, "-w") {
                HistoryStep::Write(path, history_to_file_content(history))
            } else if text_is(n, "-a") {
                HistoryStep::Append(path)
            } else {
                let mut err = String::new();
                err.append("history: ");
                err.append(n.as_str());
                err.append(": invalid option");
                push_char(&mut err, '\n');
                let o = String::new();
                assert(o@ =~= seq![]);
                assert(err@ =~= "history: "@ + n@ + ": invalid option"@ + seq!['\n']);
                HistoryStep::Done(text_output(1, &o, &err))
            }
        },
    }
}

/// The entry `\tN  command` recording a command as number `n`.
pub open spec fn history_entry_text(n: nat, command: Seq<char>) -> Seq<char> {
    seq!['\t'] + decimal(n) + seq![' ', ' '] + command
}

/// The entry recording `command` as number `n`.
pub fn history_entry(n: usize, command: &str) -> (r: String)
    ensures
        r@ == history_entry_text(n as nat, command@),
{
    let mut r = String::new();
    push_char(&mut r, '\t');
    push_decimal(&mut r, n);
    push_char(&mut r, ' ');
    push_char(&mut r, ' ');
    r.append(command);
    assert(r@ =~= history_entry_text(n as nat, command@));
    r
}

/// The entries `history -r` adds for file text `content` to a history of
/// `offset` entries: one per line of the trimmed text, numbered on from
/// `offset + 1`.
pub open spec fn read_entries(content: Seq<char>, offset: nat) -> Seq<Seq<char>> {
    let lines = split_on(trim_seq(content), '\n');
    Seq::new(lines.len(), |i: int| history_entry_text(offset + i as nat + 1, lines[i]))
}

/// `history -r`, once the file was read: appends its lines as entries.
pub fn history_read(history: &mut Vec<String>, content: &str)
    requires
        old(history)@.len() + content@.len() + 1 <= usize::MAX,
    ensures
        strings_view(final(history)@) == strings_view(old(history)@) + read_entries(
            content@,
            old(history)@.len(),
        ),
{
    let t = trim(content);
    let tv = chars_of(t.as_str());
    let lines = split_on_char(&tv, '\n');
    let offset = history.len();
    let ghost start = strings_view(history@);
    let ghost entries = read_entries(content@, offset as nat);
    proof {
        lemma_split_on_len(tv@, '\n');
        crate::text::lemma_trim_len(content@);
    }
    let mut i: usize = 0;
    while i < lines.len()
        invariant
            i <= lines@.len(),
            offset == start.len(),
            lines@.len() <= content@.len() + 1,
            offset + content@.len() + 1 <= usize::MAX,
            strings_view(lines@) == split_on(trim_seq(content@), '\n'),
            entries == read_entries(content@, offset as nat),
            strings_view(history@) == start + entries.take(i as int),
        decreases lines.len() - i,
    {
        let e = history_entry(offset + i + 1, lines[i].as_str());
        assert(strings_view(lines@)[i as int] == lines@[i as int]@);
        assert(e@ == entries[i as int]);
        let ghost prev = strings_view(history@);
        history.push(e);
        assert(strings_view(history@) =~= prev.push(e@));
        i = i + 1;
        assert(strings_view(history@) =~= start + entries.take(i as int));
    }
    assert(entries.take(lines@.len() as int) =~= entries);
}

pub proof fn lemma_split_on_len(s: Seq<char>, sep: char)
    ensures
        split_on(s, sep).len() <= s.len() + 1,
        split_run(s, sep).done.len() <= s.len(),
    decreases s.len(),
{
    if s.len() > 0 {
        lemma_split_on_len(s.drop_last(), sep);
    }
}

/// `history -r PATH` answers with this when the file cannot be read.
pub fn history_read_error_output(message: &str) -> (r: CmdOutput)
    ensures
        output_is(r, 1, seq![], "history -r: "@ + message@ + seq!['\n']),
{
    let mut err = String::new();
    err.append("history -r: ");
    err.append(message);
    push_char(&mut err, '\n');
    let o = String::new();
    assert(o@ =~= seq![]);
    assert(err@ =~= "history -r: "@ + message@ + seq!['\n']);
    text_output(1, &o, &err)
}

/// The marker `history -a PATH` leaves in the file it appends to.
pub open spec fn append_marker(path: Seq<char>) -> Seq<char> {
    "history -a "@ + path
}

/// Where the kept part of the file ends: one character after the first
/// marker, or the whole file when there is no marker.
pub open spec fn append_keep_len(existing: Seq<char>, path: Seq<char>) -> int {
    match find_from(existing, append_marker(path), 0) {
        Some(k) => k + append_marker(path).len() + 1,
        None => existing.len() as int,
    }
}

/// The file can be cut after its first marker: the marker is followed by a
/// one-byte character (`&existing[..idx + pattern.len() + 1]` is in bounds).
pub open spec fn append_cut_ok(existing: Seq<char>, path: Seq<char>) -> bool {
    match find_from(existing, append_marker(path), 0) {
        Some(k) => k + append_marker(path).len() < existing.len() && utf8_width(
            existing[k + append_marker(path).len()],
        ) == 1,
        None => true,
    }
}

fn marker_chars(path: &str) -> (r: Vec<char>)
    ensures
        r@ == append_marker(path@),
{
    let mut m = String::new();
    m.append("history -a ");
    m.append(path);
    chars_of(m.as_str())
}

/// Whether `history -a PATH` can cut the file text `existing` where it
/// wants to (otherwise the shell gives up).
pub fn history_append_cut_ok(existing: &str, path: &str) -> (b: bool)
    ensures
        b == append_cut_ok(existing@, path@),
{
    let v = chars_of(existing);
    let pat = marker_chars(path);
    match find(&v, &pat, 0) {
        Some(k) => pat.len() < v.len() - k && crate::text::len_utf8(v[k + pat.len()]) == 1,
        None => true,
    }
}

/// `history -a PATH`, once the file text `existing` was read: the new file
/// text (the file up to just after the marker of an earlier `history -a
/// PATH`, or all of it, followed by the history as file text), after which
/// the history is empty.
pub fn history_append(history: &mut Vec<String>, existing: &str, path: &str) -> (r: String)
    requires
        append_cut_ok(existing@, path@),
    ensures
        r@ == existing@.take(append_keep_len(existing@, path@)) + history_file_text(
            strings_view(old(history)@),
        ),
        final(history)@.len() == 0,
{
    let content = history_to_file_content(history);
    let v = chars_of(existing);
    let pat = marker_chars(path);
    let n = v.len();
    let keep = match find(&v, &pat, 0) {
        Some(k) => {
            assert(find_from(existing@, append_marker(path@), 0) == Some(k as int));
            assert(k + pat@.len() < n);
            k + pat.len() + 1
        },
        None => v.len(),
    };
    assert(keep == v@.len() ==> v@.take(keep as int) =~= v@);
    let mut r = string_of(&v, 0, keep);
    r.append(content.as_str());
    *history = Vec::new();
    r
}

// ── type ─────────────────────────────────────────────────────────────────────

/// The name `type NAME` asks about: the text after `type ` (five bytes), trimmed.
pub open spec fn type_argument(command: Seq<char>) -> Seq<char> {
    trim_seq(after_bytes(command, 5))
}

/// What `type` was asked to do.
pub enum TypeStep {
    /// Answered: the name is a built-in.
    Done(CmdOutput),
    /// Look the name up on `PATH`.
    Search(String),
}

/// `type NAME`: answers for a built-in, or asks for a `PATH` search.
pub fn handle_type_command(command: &str) -> (r: TypeStep)
    requires
        byte_boundary(command@, 5),
    ensures
        match r {
            TypeStep::Done(o) => shell_builtins().contains(type_argument(command@)) && output_is(
                o,
                0,
                type_argument(command@) + " is a shell builtin"@,
                seq![],
            ),
            TypeStep::Search(name) => !shell_builtins().contains(type_argument(command@))
                && name@ == type_argument(command@),
        },
{
    let a = chars_after(command, 5);
    let (lo, hi) = trim_bounds(&a);
    let name = string_of(&a, lo, hi);
    if is_builtin(name.as_str()) {
        let mut out = name.clone();
        out.append(" is a shell builtin");
        let e = String::new();
        assert(e@ =~= seq![]);
        TypeStep::Done(text_output(0, &out, &e))
    } else {
        TypeStep::Search(name)
    }
}

/// `type NAME` when `PATH` has an executable `NAME` at `path`.
pub fn type_found_output(name: &str, path: &str) -> (r: CmdOutput)
    ensures
        output_is(r, 0, name@ + " is "@ + path@, seq![]),
{
    let mut out = String::new();
    out.append(name);
    out.append(" is ");
    out.append(path);
    let e = String::new();
    assert(e@ =~= seq![]);
    text_output(0, &out, &e)
}

/// `type NAME` when nothing on `PATH` is an executable `NAME` (status 0).
pub fn type_not_found_output(name: &str) -> (r: CmdOutput)
    ensures
        output_is(r, 0, seq![], name@ + ": not found"@),
{
    let mut err = String::new();
    err.append(name);
    err.append(": not found");
    let o = String::new();
    assert(o@ =~= seq![]);
    text_output(0, &o, &err)
}

// ── cd ───────────────────────────────────────────────────────────────────────

/// Where `cd` was asked to go.
pub enum CdStep {
    /// Answered: no directory was given.
    Done(CmdOutput),
    /// `~`: the home directory.
    Home,
    /// Another directory.
    Dir(String),
}

/// The words after `cd ` (three bytes).
pub open spec fn cd_words(command: Seq<char>) -> Seq<Seq<char>> {
    words(trim_seq(after_bytes(command, 3)))
}

/// `cd DIR`: the directory asked for, `~` meaning home.
pub fn handle_cd_command(command: &str) -> (r: CdStep)
    requires
        byte_boundary(command@, 3),
    ensures
        match r {
            CdStep::Done(o) => cd_words(command@).len() == 0 && output_is(
                o,
                1,
                seq![],
                "cd: missing argument"@ + seq!['\n'],
            ),
            CdStep::Home => cd_words(command@).len() > 0 && cd_words(command@)[0] == "~"@,
            CdStep::Dir(d) => cd_words(command@).len() > 0 && cd_words(command@)[0] != "~"@
                && d@ == cd_words(command@)[0],
        },
{
    let a = chars_after(command, 3);
    let (lo, hi) = trim_bounds(&a);
    let t = string_of(&a, lo, hi);
    let ws = split_whitespace(t.as_str());
    if ws.len() == 0 {
        let mut err = String::new();
        err.append("cd: missing argument");
        push_char(&mut err, '\n');
        let o = String::new();
        assert(o@ =~= seq![]);
        assert(err@ =~= "cd: missing argument"@ + seq!['\n']);
        return CdStep::Done(text_output(1, &o, &err));
    }
    let dir = ws[0].clone();
    assert(strings_view(ws@)[0] == ws@[0]@);
    if text_is(&dir, "~") {
        CdStep::Home
    } else {
        CdStep::Dir(dir)
    }
}

/// `cd DIR` when `DIR` does not exist.
pub fn cd_no_such_dir_output(dir: &str) -> (r: CmdOutput)
    ensures
        output_is(r, 1, seq![], "cd: "@ + dir@ + ": No such file or directory"@ + seq!['\n']),
{
    let mut err = String::new();
    err.append("cd: ");
    err.append(dir);
    err.append(": No such file or directory");
    push_char(&mut err, '\n');
    let o = String::new();
    assert(o@ =~= seq![]);
    assert(err@ =~= "cd: "@ + dir@ + ": No such file or directory"@ + seq!['\n']);
    text_output(1, &o, &err)
}

/// `cd ~` when `HOME` is not set.
pub fn cd_home_unset_output() -> (r: CmdOutput)
    ensures
        output_is(r, 1, seq![], "cd: HOME not set"@ + seq!['\n']),
{
    let mut err = String::new();
    err.append("cd: HOME not set");
    push_char(&mut err, '\n');
    let o = String::new();
    assert(o@ =~= seq![]);
    assert(err@ =~= "cd: HOME not set"@ + seq!['\n']);
    text_output(1, &o, &err)
}

} // verus!
