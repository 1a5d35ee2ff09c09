//! Splitting a command line into a command name and its arguments, honouring
//! single quotes, double quotes and backslash escapes.

use vstd::prelude::*;
use crate::text::{
    chars_of, push_char, replace_all, replace_seq, skip_ws, string_of, strings_view, sub_vec,
    trim_bounds, trim_end_seq, trim_seq, trim_start_seq, drop_trailing_ws, non_empty, split_on,
    split_run,
};

verus! {

/// A parsed command: its name, its arguments, and the raw text after the name.
#[derive(Debug, Clone)]
pub struct Command {
    pub name: String,
    pub args: Vec<String>,
    /// The raw string after the command name (preserved for builtins that need it).
    pub raw_args: String,
}

// ── quote removal ────────────────────────────────────────────────────────────

/// State of quote removal after a prefix of the input.
pub struct QuoteState {
    pub in_single: bool,
    pub in_double: bool,
    pub escaped: bool,
    pub out: Seq<char>,
}

/// One character of quote removal: an escaped character is kept as is; a
/// backslash escapes the next character inside double quotes and outside any
/// quotes; a quote character toggles its kind of quoting unless the other kind
/// is open; everything else is kept.
pub open spec fn strip_step(st: QuoteState, c: char) -> QuoteState {
    if st.escaped {
        QuoteState { in_single: st.in_single, in_double: st.in_double, escaped: false, out: st.out.push(c) }
    } else if c == '\\' && (st.in_double || !st.in_single) {
        QuoteState { in_single: st.in_single, in_double: st.in_double, escaped: true, out: st.out }
    } else if c == '\'' && !st.in_double {
        QuoteState { in_single: !st.in_single, in_double: st.in_double, escaped: false, out: st.out }
    } else if c == '"' && !st.in_single {
        QuoteState { in_single: st.in_single, in_double: !st.in_double, escaped: false, out: st.out }
    } else {
        QuoteState { in_single: st.in_single, in_double: st.in_double, escaped: false, out: st.out.push(c) }
    }
}

pub open spec fn strip_run(s: Seq<char>) -> QuoteState
    decreases s.len(),
{
    if s.len() == 0 {
        QuoteState { in_single: false, in_double: false, escaped: false, out: seq![] }
    } else {
        strip_step(strip_run(s.drop_last()), s.last())
    }
}

/// The text with its quoting removed.
pub open spec fn strip_quotes_spec(s: Seq<char>) -> Seq<char> {
    strip_run(s).out
}

fn strip_quotes_chars(v: &Vec<char>) -> (r: String)
    ensures
        r@ == strip_quotes_spec(v@),
{
    let mut in_single = false;
    let mut in_double = false;
    let mut escaped = false;
    let mut out = String::new();
    let mut i: usize = 0;
    while i < v.len()
        invariant
            i <= v@.len(),
            strip_run(v@.take(i as int)).in_single == in_single,
            strip_run(v@.take(i as int)).in_double == in_double,
            strip_run(v@.take(i as int)).escaped == escaped,
            strip_run(v@.take(i as int)).out == out@,
        decreases v.len() - i,
    {
        let c = v[i];
        assert(v@.take(i + 1).drop_last() =~= v@.take(i as int));
        if escaped {
            push_char(&mut out, c);
            escaped = false;
        } else if c == '\\' && (in_double || !in_single) {
            escaped = true;
        } else if c == '\'' && !in_double {
            in_single = !in_single;
        } else if c == '"' && !in_single {
            in_double = !in_double;
        } else {
            push_char(&mut out, c);
        }
        i = i + 1;
    }
    assert(v@.take(v@.len() as int) =~= v@);
    out
}

/// Remove surrounding/embedded quotes and handle escape sequences.
pub fn strip_quotes(s: &str) -> (r: String)
    ensures
        r@ == strip_quotes_spec(s@),
{
    let v = chars_of(s);
    strip_quotes_chars(&v)
}

// ── argument splitting ───────────────────────────────────────────────────────

/// State of argument splitting after a prefix of the input.
pub struct ArgState {
    pub in_single: bool,
    pub in_double: bool,
    pub escaped: bool,
    pub cur: Seq<char>,
    pub args: Seq<Seq<char>>,
}

/// One character of argument splitting: as quote removal, and a space outside
/// quotes ends the current argument when it is not empty.
pub open spec fn arg_step(st: ArgState, c: char) -> ArgState {
    if st.escaped {
        ArgState { escaped: false, cur: st.cur.push(c), ..st }
    } else if c == '\\' && (st.in_double || !st.in_single) {
        ArgState { escaped: true, ..st }
    } else if c == '"' && !st.in_single {
        ArgState { in_double: !st.in_double, ..st }
    } else if c == '\'' && !st.in_double {
        ArgState { in_single: !st.in_single, ..st }
    } else if c == ' ' && !st.in_double && !st.in_single {
        if st.cur.len() > 0 {
            ArgState { cur: seq![], args: st.args.push(st.cur), ..st }
        } else {
            st
        }
    } else {
        ArgState { cur: st.cur.push(c), ..st }
    }
}

pub open spec fn arg_run(s: Seq<char>) -> ArgState
    decreases s.len(),
{
    if s.len() == 0 {
        ArgState { in_single: false, in_double: false, escaped: false, cur: seq![], args: seq![] }
    } else {
        arg_step(arg_run(s.drop_last()), s.last())
    }
}

/// The arguments of `s`: the pieces between unquoted spaces, quoting removed,
/// empty pieces dropped.
pub open spec fn args_spec(s: Seq<char>) -> Seq<Seq<char>> {
    let st = arg_run(s);
    if st.cur.len() > 0 {
        st.args.push(st.cur)
    } else {
        st.args
    }
}

proof fn lemma_arg_run_nonempty(s: Seq<char>)
    ensures
        forall|k: int| 0 <= k < arg_run(s).args.len() ==> (#[trigger] arg_run(s).args[k]).len() > 0,
    decreases s.len(),
{
    if s.len() > 0 {
        let prev = arg_run(s.drop_last());
        lemma_arg_run_nonempty(s.drop_last());
        assert(arg_run(s) == arg_step(prev, s.last()));
        assert forall|k: int| 0 <= k < arg_run(s).args.len() implies (#[trigger] arg_run(
            s,
        ).args[k]).len() > 0 by {
            if k < prev.args.len() {
                assert(prev.args[k].len() > 0);
            }
        }
    }
}

proof fn lemma_args_nonempty(s: Seq<char>)
    ensures
        forall|k: int| 0 <= k < args_spec(s).len() ==> (#[trigger] args_spec(s)[k]).len() > 0,
{
    lemma_arg_run_nonempty(s);
    let st = arg_run(s);
    assert forall|k: int| 0 <= k < args_spec(s).len() implies (#[trigger] args_spec(s)[k]).len()
        > 0 by {
        if k < st.args.len() {
            assert(st.args[k].len() > 0);
        }
    }
}

fn parse_args_chars(v: &Vec<char>) -> (r: Vec<String>)
    ensures
        strings_view(r@) == args_spec(v@),
{
    let mut in_single = false;
    let mut in_double = false;
    let mut escaped = false;
    let mut cur = String::new();
    let mut args: Vec<String> = Vec::new();
    let mut i: usize = 0;
    while i < v.len()
        invariant
            i <= v@.len(),
            arg_run(v@.take(i as int)).in_single == in_single,
            arg_run(v@.take(i as int)).in_double == in_double,
            arg_run(v@.take(i as int)).escaped == escaped,
            arg_run(v@.take(i as int)).cur == cur@,
            arg_run(v@.take(i as int)).args == strings_view(args@),
        decreases v.len() - i,
    {
        let c = v[i];
        assert(v@.take(i + 1).drop_last() =~= v@.take(i as int));
        if escaped {
            push_char(&mut cur, c);
            escaped = false;
        } else if c == '\\' && (in_double || !in_single) {
            escaped = true;
        } else if c == '"' && !in_single {
            in_double = !in_double;
        } else if c == '\'' && !in_double {
            in_single = !in_single;
        } else if c == ' ' && !in_double && !in_single {
            if !cur.as_str().is_empty() {
                let w = cur;
                args.push(w);
                cur = String::new();
                assert(strings_view(args@) =~= arg_run(v@.take(i + 1)).args);
            }
        } else {
            push_char(&mut cur, c);
        }
        i = i + 1;
    }
    assert(v@.take(v@.len() as int) =~= v@);
    if !cur.as_str().is_empty() {
        args.push(cur);
        assert(strings_view(args@) =~= args_spec(v@));
    }
    args
}

/// Split arguments respecting quotes and escape sequences.  No argument
/// returned is empty.
pub fn parse_args(input: &str) -> (r: Vec<String>)
    ensures
        strings_view(r@) == args_spec(input@),
        forall|k: int| 0 <= k < r@.len() ==> (#[trigger] r@[k])@.len() > 0,
{
    let v = chars_of(input);
    let r = parse_args_chars(&v);
    proof {
        lemma_args_nonempty(input@);
        assert forall|k: int| 0 <= k < r@.len() implies (#[trigger] r@[k])@.len() > 0 by {
            assert(strings_view(r@)[k] == r@[k]@);
            assert(args_spec(input@)[k].len() > 0);
        }
    }
    r
}

// ── echo arguments ───────────────────────────────────────────────────────────

/// State of echo argument collapsing after a prefix of the input.
pub struct EchoState {
    pub in_single: bool,
    pub in_double: bool,
    pub escaped: bool,
    pub out: Seq<char>,
}

/// One character of echo collapsing: quoting as for arguments (a backslash
/// escapes outside single quotes), and an unquoted space is written only when
/// the output does not already end with a space.
pub open spec fn echo_step(st: EchoState, c: char) -> EchoState {
    if st.escaped {
        EchoState { escaped: false, out: st.out.push(c), ..st }
    } else if c == '\\' && !st.in_single {
        EchoState { escaped: true, ..st }
    } else if c == '"' && !st.in_single {
        EchoState { in_double: !st.in_double, ..st }
    } else if c == '\'' && !st.in_double {
        EchoState { in_single: !st.in_single, ..st }
    } else if c == ' ' && !st.in_double && !st.in_single {
        if st.out.len() > 0 && st.out.last() == ' ' {
            st
        } else {
            EchoState { out: st.out.push(' '), ..st }
        }
    } else {
        EchoState { out: st.out.push(c), ..st }
    }
}

pub open spec fn echo_run(s: Seq<char>) -> EchoState
    decreases s.len(),
{
    if s.len() == 0 {
        EchoState { in_single: false, in_double: false, escaped: false, out: seq![] }
    } else {
        echo_step(echo_run(s.drop_last()), s.last())
    }
}

/// Echo text: quoting removed, runs of unquoted spaces collapsed to one.
pub open spec fn echo_collapse_spec(s: Seq<char>) -> Seq<char> {
    echo_run(s).out
}

/// The characters of echo text, quoting removed and unquoted spaces collapsed.
pub fn echo_collapse(v: &Vec<char>) -> (r: Vec<char>)
    ensures
        r@ == echo_collapse_spec(v@),
{
    let mut in_single = false;
    let mut in_double = false;
    let mut escaped = false;
    let mut out: Vec<char> = Vec::new();
    let mut i: usize = 0;
    while i < v.len()
        invariant
            i <= v@.len(),
            echo_run(v@.take(i as int)).in_single == in_single,
            echo_run(v@.take(i as int)).in_double == in_double,
            echo_run(v@.take(i as int)).escaped == escaped,
            echo_run(v@.take(i as int)).out == out@,
        decreases v.len() - i,
    {
        let c = v[i];
        assert(v@.take(i + 1).drop_last() =~= v@.take(i as int));
        if escaped {
            out.push(c);
            escaped = false;
        } else if c == '\\' && !in_single {
            escaped = true;
        } else if c == '"' && !in_single {
            in_double = !in_double;
        } else if c == '\'' && !in_double {
            in_single = !in_single;
        } else if c == ' ' && !in_double && !in_single {
            if !(out.len() > 0 && out[out.len() - 1] == ' ') {
                out.push(' ');
            }
        } else {
            out.push(c);
        }
        i = i + 1;
    }
    assert(v@.take(v@.len() as int) =~= v@);
    out
}

/// Echo input with the empty quote pairs `""` and then `''` removed.
pub open spec fn drop_empty_quotes(s: Seq<char>) -> Seq<char> {
    replace_seq(replace_seq(s, seq!['"', '"'], seq![]), seq!['\'', '\''], seq![])
}

/// Removes the empty quote pairs `""` and then `''`.
pub fn remove_empty_quotes(v: &Vec<char>) -> (r: Vec<char>)
    ensures
        r@ == drop_empty_quotes(v@),
{
    let dq: Vec<char> = vec!['"', '"'];
    let sq: Vec<char> = vec!['\'', '\''];
    let empty: Vec<char> = Vec::new();
    assert(dq@ =~= seq!['"', '"']);
    assert(sq@ =~= seq!['\'', '\'']);
    assert(empty@ =~= Seq::<char>::empty());
    let a = replace_all(v, &dq, &empty);
    replace_all(&a, &sq, &empty)
}

/// What `parse_echo_args` gives: the collapsed echo text without its
/// trailing whitespace.
pub open spec fn parse_echo_args_spec(s: Seq<char>) -> Seq<char> {
    trim_end_seq(echo_collapse_spec(drop_empty_quotes(s)))
}

/// Parse echo arguments (collapses extra spaces outside quotes).  The result
/// never ends with whitespace.
pub fn parse_echo_args(input: &str) -> (r: String)
    ensures
        r@ == parse_echo_args_spec(input@),
        r@.len() > 0 ==> !crate::text::is_ws(r@.last()),
{
    let v = chars_of(input);
    let a = remove_empty_quotes(&v);
    let c = echo_collapse(&a);
    let j = drop_trailing_ws(&c, 0, c.len());
    assert(c@.subrange(0, c@.len() as int) =~= c@);
    proof {
        lemma_trim_end_no_trailing_ws(c@);
    }
    string_of(&c, 0, j)
}

proof fn lemma_trim_end_no_trailing_ws(s: Seq<char>)
    ensures
        trim_end_seq(s).len() > 0 ==> !crate::text::is_ws(trim_end_seq(s).last()),
    decreases s.len(),
{
    if s.len() > 0 && crate::text::is_ws(s.last()) {
        lemma_trim_end_no_trailing_ws(s.drop_last());
    }
}

// ── command name ─────────────────────────────────────────────────────────────

/// State of the command-name scan after a prefix of the input.
pub struct NameScan {
    pub in_double: bool,
    pub in_single: bool,
    pub done: bool,
    pub token: Seq<char>,
}

/// One character of the command-name scan: an unquoted space ends the name;
/// any other character belongs to it, and each quote character toggles its
/// kind of quoting.
pub open spec fn name_step(st: NameScan, c: char) -> NameScan {
    if st.done {
        st
    } else if c == ' ' && !st.in_double && !st.in_single {
        NameScan { done: true, ..st }
    } else {
        NameScan {
            in_double: if c == '"' {
                !st.in_double
            } else {
                st.in_double
            },
            in_single: if c == '\'' {
                !st.in_single
            } else {
                st.in_single
            },
            done: false,
            token: st.token.push(c),
        }
    }
}

pub open spec fn name_run(s: Seq<char>) -> NameScan
    decreases s.len(),
{
    if s.len() == 0 {
        NameScan { in_double: false, in_single: false, done: false, token: seq![] }
    } else {
        name_step(name_run(s.drop_last()), s.last())
    }
}

/// The command-name token of `s`, quotes still in place.
pub open spec fn name_token(s: Seq<char>) -> Seq<char> {
    name_run(s).token
}

proof fn lemma_name_token_prefix(s: Seq<char>)
    ensures
        name_run(s).token.len() <= s.len(),
        name_run(s).token == s.take(name_run(s).token.len() as int),
        !name_run(s).done ==> name_run(s).token.len() == s.len(),
    decreases s.len(),
{
    if s.len() > 0 {
        lemma_name_token_prefix(s.drop_last());
        let p = name_run(s.drop_last());
        if !p.done {
            assert(s.drop_last().take(p.token.len() as int) =~= s.drop_last());
        }
        assert(name_run(s).token =~= s.take(name_run(s).token.len() as int));
    } else {
        assert(s.take(0) =~= s);
    }
}

/// Number of characters of the command-name token of `v`.
pub(crate) fn command_name_len(v: &Vec<char>) -> (k: usize)
    ensures
        k <= v@.len(),
        k == name_token(v@).len(),
        name_token(v@) == v@.take(k as int),
{
    let mut in_double = false;
    let mut in_single = false;
    let mut done = false;
    let mut k: usize = 0;
    let mut i: usize = 0;
    while i < v.len()
        invariant
            i <= v@.len(),
            k <= i,
            name_run(v@.take(i as int)).in_double == in_double,
            name_run(v@.take(i as int)).in_single == in_single,
            name_run(v@.take(i as int)).done == done,
            name_run(v@.take(i as int)).token.len() == k,
        decreases v.len() - i,
    {
        let c = v[i];
        assert(v@.take(i + 1).drop_last() =~= v@.take(i as int));
        if !done {
            if c == ' ' && !in_double && !in_single {
                done = true;
            } else {
                if c == '"' {
                    in_double = !in_double;
                }
                if c == '\'' {
                    in_single = !in_single;
                }
                k = k + 1;
            }
        }
        i = i + 1;
    }
    assert(v@.take(v@.len() as int) =~= v@);
    proof {
        lemma_name_token_prefix(v@);
    }
    k
}

/// The parts of a command line: the name with quoting removed, the
/// arguments, and the raw text after the name; `None` for a blank line.
pub open spec fn command_parts(input: Seq<char>) -> Option<(Seq<char>, Seq<Seq<char>>, Seq<char>)> {
    let t = trim_seq(input);
    if t.len() == 0 {
        None
    } else {
        let tok = name_token(t);
        let raw = trim_start_seq(t.skip(tok.len() as int));
        Some(
            (
                strip_quotes_spec(tok),
                if raw.len() == 0 {
                    seq![]
                } else {
                    args_spec(raw)
                },
                raw,
            ),
        )
    }
}

impl Command {
    /// Parses a command line; `None` when it holds only whitespace.
    pub fn parse(input: &str) -> (r: Option<Command>)
        ensures
            match r {
                None => command_parts(input@) is None,
                Some(c) => command_parts(input@) == Some(
                    (c.name@, strings_view(c.args@), c.raw_args@),
                ),
            },
    {
        let v = chars_of(input);
        let (lo, hi) = trim_bounds(&v);
        if lo == hi {
            return None;
        }
        let t = sub_vec(&v, lo, hi);
        let k = command_name_len(&t);
        let rs = skip_ws(&t, k, t.len());
        assert(t@.subrange(k as int, t@.len() as int) =~= t@.skip(k as int));
        let raw_args = string_of(&t, rs, t.len());
        let name_chars = sub_vec(&t, 0, k);
        assert(name_chars@ =~= t@.take(k as int));
        let name = strip_quotes_chars(&name_chars);
        let args = if rs == t.len() {
            let e: Vec<String> = Vec::new();
            assert(strings_view(e@) =~= Seq::<Seq<char>>::empty());
            e
        } else {
            let raw_chars = sub_vec(&t, rs, t.len());
            parse_args_chars(&raw_chars)
        };
        Some(Command { name, args, raw_args })
    }
}

// ── laws ─────────────────────────────────────────────────────────────────────

/// `s` holds no quote and no backslash.
pub open spec fn unquoted(s: Seq<char>) -> bool {
    forall|i: int| 0 <= i < s.len() ==> s[i] != '\'' && s[i] != '"' && s[i] != '\\'
}

proof fn lemma_unquoted_prefix(s: Seq<char>)
    requires
        unquoted(s),
        s.len() > 0,
    ensures
        unquoted(s.drop_last()),
        s.last() != '\'' && s.last() != '"' && s.last() != '\\',
{
    assert(s.last() == s[s.len() - 1]);
    assert forall|i: int| 0 <= i < s.drop_last().len() implies s.drop_last()[i] != '\''
        && s.drop_last()[i] != '"' && s.drop_last()[i] != '\\' by {
        assert(s.drop_last()[i] == s[i]);
    }
}

proof fn lemma_strip_run_plain(s: Seq<char>)
    requires
        unquoted(s),
    ensures
        strip_run(s) == (QuoteState { in_single: false, in_double: false, escaped: false, out: s }),
    decreases s.len(),
{
    if s.len() > 0 {
        lemma_unquoted_prefix(s);
        lemma_strip_run_plain(s.drop_last());
        assert(s.drop_last().push(s.last()) =~= s);
    } else {
        assert(s =~= seq![]);
    }
}

/// Quote removal leaves text without quotes and backslashes as it is.
pub proof fn law_strip_quotes_plain(s: Seq<char>)
    requires
        unquoted(s),
    ensures
        strip_quotes_spec(s) == s,
{
    lemma_strip_run_plain(s);
}

proof fn lemma_arg_run_plain(s: Seq<char>)
    requires
        unquoted(s),
    ensures
        !arg_run(s).in_single,
        !arg_run(s).in_double,
        !arg_run(s).escaped,
        arg_run(s).cur == split_run(s, ' ').cur,
        arg_run(s).args == non_empty(split_run(s, ' ').done),
    decreases s.len(),
{
    if s.len() > 0 {
        lemma_unquoted_prefix(s);
        lemma_arg_run_plain(s.drop_last());
        let st = split_run(s.drop_last(), ' ');
        if s.last() == ' ' {
            assert(st.done.push(st.cur).drop_last() =~= st.done);
        }
    }
}

/// Without quotes and backslashes, the arguments are the pieces between
/// spaces, empty pieces left out.
pub proof fn law_parse_args_plain(s: Seq<char>)
    requires
        unquoted(s),
    ensures
        args_spec(s) == non_empty(split_on(s, ' ')),
{
    lemma_arg_run_plain(s);
    let st = split_run(s, ' ');
    assert(st.done.push(st.cur).drop_last() =~= st.done);
}

/// `s` without its spaces.
pub open spec fn without_spaces(s: Seq<char>) -> Seq<char>
    decreases s.len(),
{
    if s.len() == 0 {
        seq![]
    } else if s.last() == ' ' {
        without_spaces(s.drop_last())
    } else {
        without_spaces(s.drop_last()).push(s.last())
    }
}

/// No two spaces of `s` are adjacent.
pub open spec fn single_spaced(s: Seq<char>) -> bool {
    forall|i: int| 0 <= i && i + 1 < s.len() ==> !(#[trigger] s[i] == ' ' && s[i + 1] == ' ')
}

proof fn lemma_echo_run_plain(s: Seq<char>)
    requires
        unquoted(s),
    ensures
        !echo_run(s).in_single,
        !echo_run(s).in_double,
        !echo_run(s).escaped,
        single_spaced(echo_run(s).out),
        without_spaces(echo_run(s).out) == without_spaces(s),
    decreases s.len(),
{
    if s.len() > 0 {
        lemma_unquoted_prefix(s);
        lemma_echo_run_plain(s.drop_last());
        let prev = echo_run(s.drop_last()).out;
        let out = echo_run(s).out;
        let c = s.last();
        if out != prev {
            assert(out == prev.push(c));
            assert(out.drop_last() =~= prev);
            assert forall|i: int| 0 <= i && i + 1 < out.len() implies !(#[trigger] out[i] == ' '
                && out[i + 1] == ' ') by {
                if i + 1 < prev.len() {
                    assert(out[i] == prev[i] && out[i + 1] == prev[i + 1]);
                }
            }
        } else {
            assert(c == ' ');
        }
    }
}

/// Echo text written without quotes or backslashes keeps its other
/// characters and has no run of spaces left: each is collapsed to one space.
pub proof fn law_echo_collapses_spaces(s: Seq<char>)
    requires
        unquoted(s),
    ensures
        single_spaced(echo_collapse_spec(s)),
        without_spaces(echo_collapse_spec(s)) == without_spaces(s),
{
    lemma_echo_run_plain(s);
}

proof fn lemma_unquoted_sub(s: Seq<char>, lo: int, hi: int)
    requires
        unquoted(s),
        0 <= lo <= hi <= s.len(),
    ensures
        unquoted(s.subrange(lo, hi)),
{
    assert forall|i: int| 0 <= i < s.subrange(lo, hi).len() implies s.subrange(lo, hi)[i] != '\''
        && s.subrange(lo, hi)[i] != '"' && s.subrange(lo, hi)[i] != '\\' by {
        assert(s.subrange(lo, hi)[i] == s[lo + i]);
    }
}

proof fn lemma_unquoted_trim_start(s: Seq<char>)
    requires
        unquoted(s),
    ensures
        unquoted(trim_start_seq(s)),
    decreases s.len(),
{
    if s.len() > 0 {
        lemma_unquoted_sub(s, 1, s.len() as int);
        assert(s.subrange(1, s.len() as int) =~= s.drop_first());
        lemma_unquoted_trim_start(s.drop_first());
    }
}

proof fn lemma_unquoted_trim_end(s: Seq<char>)
    requires
        unquoted(s),
    ensures
        unquoted(trim_end_seq(s)),
    decreases s.len(),
{
    if s.len() > 0 {
        lemma_unquoted_prefix(s);
        lemma_unquoted_trim_end(s.drop_last());
    }
}

proof fn lemma_unquoted_trim(s: Seq<char>)
    requires
        unquoted(s),
    ensures
        unquoted(trim_start_seq(s)),
        unquoted(trim_seq(s)),
{
    lemma_unquoted_trim_start(s);
    lemma_unquoted_trim_end(trim_start_seq(s));
}

proof fn lemma_name_run_plain(s: Seq<char>)
    requires
        unquoted(s),
    ensures
        !name_run(s).in_double,
        !name_run(s).in_single,
        name_run(s).done == (split_run(s, ' ').done.len() > 0),
        name_run(s).token == split_on(s, ' ')[0],
    decreases s.len(),
{
    if s.len() > 0 {
        lemma_unquoted_prefix(s);
        lemma_name_run_plain(s.drop_last());
        let sp = split_run(s.drop_last(), ' ');
        if sp.done.len() > 0 {
            assert(sp.done.push(sp.cur)[0] == sp.done[0]);
        }
    }
}

/// A command line without quotes or backslashes: the name is the first
/// space-separated piece of the trimmed line, and the arguments are the other
/// non-empty pieces.
pub proof fn law_parse_plain(input: Seq<char>)
    requires
        unquoted(input),
        command_parts(input) is Some,
    ensures
        command_parts(input).unwrap().0 == split_on(trim_seq(input), ' ')[0],
        command_parts(input).unwrap().1 == non_empty(split_on(command_parts(input).unwrap().2, ' ')),
{
    let t = trim_seq(input);
    lemma_unquoted_trim(input);
    lemma_name_run_plain(t);
    lemma_name_token_prefix(t);
    let tok = name_token(t);
    lemma_unquoted_sub(t, 0, tok.len() as int);
    assert(t.subrange(0, tok.len() as int) =~= t.take(tok.len() as int));
    law_strip_quotes_plain(tok);
    lemma_unquoted_sub(t, tok.len() as int, t.len() as int);
    assert(t.subrange(tok.len() as int, t.len() as int) =~= t.skip(tok.len() as int));
    let raw = trim_start_seq(t.skip(tok.len() as int));
    lemma_unquoted_trim(t.skip(tok.len() as int));
    if raw.len() == 0 {
        assert(split_run(raw, ' ').done =~= Seq::<Seq<char>>::empty());
        assert(split_on(raw, ' ') =~= seq![Seq::<char>::empty()]);
        assert(seq![Seq::<char>::empty()].drop_last() =~= Seq::<Seq<char>>::empty());
        assert(non_empty(Seq::<Seq<char>>::empty()) =~= Seq::<Seq<char>>::empty());
        assert(non_empty(seq![Seq::<char>::empty()]) =~= Seq::<Seq<char>>::empty());
    } else {
        law_parse_args_plain(raw);
    }
}

// ── quoted text laws ─────────────────────────────────────────────────────────

/// No character of `w` is `a` or `b`.
pub open spec fn avoids(w: Seq<char>, a: char, b: char) -> bool {
    forall|i: int| 0 <= i < w.len() ==> w[i] != a && w[i] != b
}

proof fn lemma_arg_inside(q: char, w: Seq<char>, k: int)
    requires
        q == '"' || q == '\'',
        0 <= k <= w.len(),
        q == '"' ==> avoids(w, '"', '\\'),
        q == '\'' ==> avoids(w, '\'', '\''),
    ensures
        arg_run(seq![q] + w.take(k)).in_double == (q == '"'),
        arg_run(seq![q] + w.take(k)).in_single == (q == '\''),
        !arg_run(seq![q] + w.take(k)).escaped,
        arg_run(seq![q] + w.take(k)).cur == w.take(k),
        arg_run(seq![q] + w.take(k)).args == Seq::<Seq<char>>::empty(),
    decreases k,
{
    if k == 0 {
        assert(seq![q] + w.take(0) =~= seq![q]);
        assert(seq![q].drop_last() =~= Seq::<char>::empty());
        assert(arg_run(seq![q]) == arg_step(arg_run(Seq::<char>::empty()), q));
    } else {
        lemma_arg_inside(q, w, k - 1);
        let pre = seq![q] + w.take(k - 1);
        assert((seq![q] + w.take(k)).drop_last() =~= pre);
        assert((seq![q] + w.take(k)).last() == w[k - 1]);
        assert(arg_run(seq![q] + w.take(k)) == arg_step(arg_run(pre), w[k - 1]));
        assert(w[k - 1] != q);
        assert(w.take(k - 1).push(w[k - 1]) =~= w.take(k));
    }
}

/// A non-empty text in double quotes with no `"` or backslash in it is one
/// argument, exactly as written: its single quotes and spaces are kept.  In
/// single quotes, a text with no `'` in it is one argument likewise.
pub proof fn law_quoted_argument(w: Seq<char>)
    requires
        w.len() > 0,
    ensures
        avoids(w, '"', '\\') ==> args_spec(seq!['"'] + w + seq!['"']) == seq![w],
        avoids(w, '\'', '\'') ==> args_spec(seq!['\''] + w + seq!['\'']) == seq![w],
{
    if avoids(w, '"', '\\') {
        lemma_arg_inside('"', w, w.len() as int);
        assert(w.take(w.len() as int) =~= w);
        let s = seq!['"'] + w + seq!['"'];
        assert(s.drop_last() =~= seq!['"'] + w.take(w.len() as int));
    }
    if avoids(w, '\'', '\'') {
        lemma_arg_inside('\'', w, w.len() as int);
        assert(w.take(w.len() as int) =~= w);
        let s = seq!['\''] + w + seq!['\''];
        assert(s.drop_last() =~= seq!['\''] + w.take(w.len() as int));
    }
}

proof fn lemma_echo_inside(q: char, w: Seq<char>, k: int)
    requires
        q == '"' || q == '\'',
        0 <= k <= w.len(),
        q == '"' ==> avoids(w, '"', '\\'),
        q == '\'' ==> avoids(w, '\'', '\''),
    ensures
        echo_run(seq![q] + w.take(k)).in_double == (q == '"'),
        echo_run(seq![q] + w.take(k)).in_single == (q == '\''),
        !echo_run(seq![q] + w.take(k)).escaped,
        echo_run(seq![q] + w.take(k)).out == w.take(k),
    decreases k,
{
    if k == 0 {
        assert(seq![q] + w.take(0) =~= seq![q]);
        assert(seq![q].drop_last() =~= Seq::<char>::empty());
        assert(echo_run(seq![q]) == echo_step(echo_run(Seq::<char>::empty()), q));
    } else {
        lemma_echo_inside(q, w, k - 1);
        let pre = seq![q] + w.take(k - 1);
        assert((seq![q] + w.take(k)).drop_last() =~= pre);
        assert((seq![q] + w.take(k)).last() == w[k - 1]);
        assert(echo_run(seq![q] + w.take(k)) == echo_step(echo_run(pre), w[k - 1]));
        assert(w[k - 1] != q);
        assert(w.take(k - 1).push(w[k - 1]) =~= w.take(k));
    }
}

proof fn lemma_strip_inside(q: char, w: Seq<char>, k: int)
    requires
        q == '"' || q == '\'',
        0 <= k <= w.len(),
        q == '"' ==> avoids(w, '"', '\\'),
        q == '\'' ==> avoids(w, '\'', '\''),
    ensures
        strip_run(seq![q] + w.take(k)).in_double == (q == '"'),
        strip_run(seq![q] + w.take(k)).in_single == (q == '\''),
        !strip_run(seq![q] + w.take(k)).escaped,
        strip_run(seq![q] + w.take(k)).out == w.take(k),
    decreases k,
{
    if k == 0 {
        assert(seq![q] + w.take(0) =~= seq![q]);
        assert(seq![q].drop_last() =~= Seq::<char>::empty());
        assert(strip_run(seq![q]) == strip_step(strip_run(Seq::<char>::empty()), q));
    } else {
        lemma_strip_inside(q, w, k - 1);
        let pre = seq![q] + w.take(k - 1);
        assert((seq![q] + w.take(k)).drop_last() =~= pre);
        assert((seq![q] + w.take(k)).last() == w[k - 1]);
        assert(strip_run(seq![q] + w.take(k)) == strip_step(strip_run(pre), w[k - 1]));
        assert(w[k - 1] != q);
        assert(w.take(k - 1).push(w[k - 1]) =~= w.take(k));
    }
}

/// Echo text in double quotes with no `"` or backslash in it comes out as
/// written, single quotes and runs of spaces included; so does text in single
/// quotes with no `'` in it, double quotes and backslashes included.
pub proof fn law_echo_quoted(w: Seq<char>)
    ensures
        avoids(w, '"', '\\') ==> echo_collapse_spec(seq!['"'] + w + seq!['"']) == w,
        avoids(w, '\'', '\'') ==> echo_collapse_spec(seq!['\''] + w + seq!['\'']) == w,
{
    assert(w.take(w.len() as int) =~= w);
    if avoids(w, '"', '\\') {
        lemma_echo_inside('"', w, w.len() as int);
        let s = seq!['"'] + w + seq!['"'];
        assert(s.drop_last() =~= seq!['"'] + w.take(w.len() as int));
    }
    if avoids(w, '\'', '\'') {
        lemma_echo_inside('\'', w, w.len() as int);
        let s = seq!['\''] + w + seq!['\''];
        assert(s.drop_last() =~= seq!['\''] + w.take(w.len() as int));
    }
}

/// Quote removal takes the quotes off a double-quoted text with no `"` or
/// backslash in it, and off a single-quoted text with no `'` in it, leaving
/// the text as written.
pub proof fn law_strip_quotes_quoted(w: Seq<char>)
    ensures
        avoids(w, '"', '\\') ==> strip_quotes_spec(seq!['"'] + w + seq!['"']) == w,
        avoids(w, '\'', '\'') ==> strip_quotes_spec(seq!['\''] + w + seq!['\'']) == w,
{
    assert(w.take(w.len() as int) =~= w);
    if avoids(w, '"', '\\') {
        lemma_strip_inside('"', w, w.len() as int);
        let s = seq!['"'] + w + seq!['"'];
        assert(s.drop_last() =~= seq!['"'] + w.take(w.len() as int));
    }
    if avoids(w, '\'', '\'') {
        lemma_strip_inside('\'', w, w.len() as int);
        let s = seq!['\''] + w + seq!['\''];
        assert(s.drop_last() =~= seq!['\''] + w.take(w.len() as int));
    }
}

} // verus!
