//! Turning a command line into what to run: background jobs, redirect
//! stripping, pipeline stages, program names and arguments.

use vstd::prelude::*;
use crate::parser::name_token;
use vstd::string::StrSliceExecFns;
use crate::strmap::StrMap;
use crate::utils::{expand_args, expand_spec, RedirectInfo, RedirectMode};
use crate::constants::EXIT_CMD;
use crate::text::{
    same_chars as same_chars_vec,
    char_at_byte, byte_boundary, char_index_of_byte, chars_of, push_char, replace_all,
    replace_seq, split_on, split_on_char, split_whitespace, string_of, string_of_all,
    strings_view, sub_vec, trim_bounds, trim_seq, words, is_ws,
};

verus! {

// ── String helpers ───────────────────────────────────────────────────────────

/// The text without one final newline, if it ends with one.
pub open spec fn without_last_newline(s: Seq<char>) -> Seq<char> {
    if s.len() > 0 && s.last() == '\n' {
        s.drop_last()
    } else {
        s
    }
}

/// `s.strip_suffix('\n').unwrap_or(s)`.
pub fn clean_last_newline(s: &str) -> (r: String)
    ensures
        r@ == without_last_newline(s@),
{
    let v = chars_of(s);
    let n = v.len();
    if n > 0 && v[n - 1] == '\n' {
        string_of(&v, 0, n - 1)
    } else {
        string_of_all(&v)
    }
}

// ── Argument / quoting helpers ───────────────────────────────────────────────

/// State of splitting on one kind of quote after a prefix of the input.
pub struct QuoteSplit {
    pub in_quotes: bool,
    pub escaped: bool,
    pub cur: Seq<char>,
    pub result: Seq<Seq<char>>,
}

/// One character of splitting on the quote `q`: a backslash escapes the next
/// character outside quotes (and inside them too when `q` is `"`); `q`
/// toggles quoting and closing a quoted part ends a token; an unquoted space
/// ends a token; empty tokens are dropped.
pub open spec fn quote_split_step(q: char, st: QuoteSplit, c: char) -> QuoteSplit {
    if st.escaped {
        QuoteSplit { escaped: false, cur: st.cur.push(c), ..st }
    } else if c == '\\' && (q == '"' || !st.in_quotes) {
        QuoteSplit { escaped: true, ..st }
    } else if c == q {
        if st.in_quotes && st.cur.len() > 0 {
            QuoteSplit { in_quotes: false, cur: seq![], result: st.result.push(st.cur), ..st }
        } else {
            QuoteSplit { in_quotes: !st.in_quotes, ..st }
        }
    } else if !st.in_quotes && c == ' ' {
        if st.cur.len() > 0 {
            QuoteSplit { cur: seq![], result: st.result.push(st.cur), ..st }
        } else {
            st
        }
    } else {
        QuoteSplit { cur: st.cur.push(c), ..st }
    }
}

pub open spec fn quote_split_run(q: char, s: Seq<char>) -> QuoteSplit
    decreases s.len(),
{
    if s.len() == 0 {
        QuoteSplit { in_quotes: false, escaped: false, cur: seq![], result: seq![] }
    } else {
        quote_split_step(q, quote_split_run(q, s.drop_last()), s.last())
    }
}

/// The tokens of `s` split on the quote character `q`.
pub open spec fn quote_split(q: char, s: Seq<char>) -> Seq<Seq<char>> {
    let st = quote_split_run(q, s);
    if st.cur.len() > 0 {
        st.result.push(st.cur)
    } else {
        st.result
    }
}

/// Split `input` on `ch` (a quote character), collecting both quoted segments
/// and the unquoted text that surrounds them into a single flat token list.
pub fn split_char(ch: char, input: &str) -> (r: Vec<String>)
    ensures
        strings_view(r@) == quote_split(ch, input@),
{
    let v = chars_of(input);
    let double_quotes = ch == '"';
    let mut in_quotes = false;
    let mut escaped = false;
    let mut current = String::new();
    let mut result: Vec<String> = Vec::new();
    let mut i: usize = 0;
    while i < v.len()
        invariant
            i <= v@.len(),
            v@ == input@,
            double_quotes == (ch == '"'),
            quote_split_run(ch, v@.take(i as int)).in_quotes == in_quotes,
            quote_split_run(ch, v@.take(i as int)).escaped == escaped,
            quote_split_run(ch, v@.take(i as int)).cur == current@,
            quote_split_run(ch, v@.take(i as int)).result == strings_view(result@),
        decreases v.len() - i,
    {
        let c = v[i];
        assert(v@.take(i + 1).drop_last() =~= v@.take(i as int));
        let ghost prev = strings_view(result@);
        if escaped {
            push_char(&mut current, c);
            escaped = false;
        } else if c == '\\' && (double_quotes || !in_quotes) {
            escaped = true;
        } else if c == ch {
            in_quotes = !in_quotes;
            if !in_quotes && !current.as_str().is_empty() {
                let t = current;
                result.push(t);
                current = String::new();
                assert(strings_view(result@) =~= quote_split_run(ch, v@.take(i + 1)).result);
            }
        } else if !in_quotes && c == ' ' {
            if !current.as_str().is_empty() {
                let t = current;
                result.push(t);
                current = String::new();
                assert(strings_view(result@) =~= quote_split_run(ch, v@.take(i + 1)).result);
            }
        } else {
            push_char(&mut current, c);
        }
        i = i + 1;
    }
    assert(v@.take(v@.len() as int) =~= v@);
    if !current.as_str().is_empty() {
        result.push(current);
        assert(strings_view(result@) =~= quote_split(ch, input@));
    }
    result
}

/// A word without its backslashes: a double backslash becomes one when the
/// word has any, otherwise every backslash goes.
pub open spec fn unescape_word(w: Seq<char>) -> Seq<char> {
    if exists|k: int| 0 <= k && k + 1 < w.len() && #[trigger] w[k] == '\\' && w[k + 1] == '\\' {
        replace_seq(w, seq!['\\', '\\'], seq!['\\'])
    } else {
        replace_seq(w, seq!['\\'], seq![])
    }
}

/// The argument words of the text after a program's name, before expansion:
/// split on `"` if it has one, else on `'` if it has one, else on whitespace
/// with backslashes removed; each trimmed.
pub open spec fn raw_command_args(s: Seq<char>) -> Seq<Seq<char>> {
    if s.contains('"') {
        quote_split('"', s).map_values(|a: Seq<char>| trim_seq(a))
    } else if s.contains('\'') {
        quote_split('\'', s).map_values(|a: Seq<char>| trim_seq(a))
    } else {
        words(s).map_values(|a: Seq<char>| trim_seq(unescape_word(a)))
    }
}

/// The arguments of a program: the raw argument words, each expanded.
pub open spec fn command_args(s: Seq<char>, vars: Map<Seq<char>, Seq<char>>) -> Seq<Seq<char>> {
    raw_command_args(s).map_values(|a: Seq<char>| expand_spec(a, vars, Set::empty()))
}

fn has_char(v: &Vec<char>, c: char) -> (b: bool)
    ensures
        b == v@.contains(c),
{
    let mut i: usize = 0;
    while i < v.len()
        invariant
            i <= v@.len(),
            forall|j: int| 0 <= j < i ==> v@[j] != c,
        decreases v.len() - i,
    {
        if v[i] == c {
            return true;
        }
        i = i + 1;
    }
    false
}

fn has_double_backslash(v: &Vec<char>) -> (b: bool)
    ensures
        b == exists|k: int| 0 <= k && k + 1 < v@.len() && #[trigger] v@[k] == '\\' && v@[k + 1] == '\\',
{
    let mut i: usize = 0;
    while i < v.len()
        invariant
            i <= v@.len(),
            forall|k: int| 0 <= k < i && k + 1 < v@.len() ==> !(#[trigger] v@[k] == '\\' && v@[k + 1] == '\\'),
        decreases v.len() - i,
    {
        if v[i] == '\\' && i + 1 < v.len() && v[i + 1] == '\\' {
            return true;
        }
        i = i + 1;
    }
    false
}

fn unescape(w: &String) -> (r: String)
    ensures
        r@ == unescape_word(w@),
{
    let v = chars_of(w.as_str());
    let pair: Vec<char> = vec!['\\', '\\'];
    let one: Vec<char> = vec!['\\'];
    let none: Vec<char> = Vec::new();
    assert(pair@ =~= seq!['\\', '\\']);
    assert(one@ =~= seq!['\\']);
    assert(none@ =~= Seq::<char>::empty());
    if has_double_backslash(&v) {
        string_of_all(&replace_all(&v, &pair, &one))
    } else {
        string_of_all(&replace_all(&v, &one, &none))
    }
}

fn trimmed(s: &String) -> (r: String)
    ensures
        r@ == trim_seq(s@),
{
    crate::text::trim(s.as_str())
}

fn raw_args_of(args: &str) -> (r: Vec<String>)
    ensures
        strings_view(r@) == raw_command_args(args@),
{
    let v = chars_of(args);
    let handle_slashes: bool;
    let parts: Vec<String>;
    if has_char(&v, '"') {
        parts = split_char('"', args);
        handle_slashes = false;
    } else if has_char(&v, '\'') {
        parts = split_char('\'', args);
        handle_slashes = false;
    } else {
        parts = split_whitespace(args);
        handle_slashes = true;
    }
    let mut out: Vec<String> = Vec::new();
    let mut i: usize = 0;
    while i < parts.len()
        invariant
            i <= parts@.len(),
            out@.len() == i,
            v@ == args@,
            handle_slashes == (!args@.contains('"') && !args@.contains('\'')),
            handle_slashes ==> strings_view(parts@) == words(args@),
            !handle_slashes && args@.contains('"') ==> strings_view(parts@) == quote_split(
                '"',
                args@,
            ),
            !handle_slashes && !args@.contains('"') ==> strings_view(parts@) == quote_split(
                '\'',
                args@,
            ),
            forall|k: int|
                0 <= k < i ==> (#[trigger] out@[k])@ == raw_command_args(args@)[k],
            raw_command_args(args@).len() == parts@.len(),
        decreases parts.len() - i,
    {
        assert(strings_view(parts@)[i as int] == parts@[i as int]@);
        let a = if handle_slashes {
            unescape(&parts[i])
        } else {
            parts[i].clone()
        };
        let t = trimmed(&a);
        out.push(t);
        i = i + 1;
    }
    assert(strings_view(out@) =~= raw_command_args(args@));
    out
}

/// The expanded arguments of a program, from the text after its name.
pub fn get_command_args(args: &str, variables: &StrMap) -> (r: Vec<String>)
    ensures
        strings_view(r@) == command_args(args@, variables@),
{
    let raw = raw_args_of(args);
    let r = expand_args(raw, variables);
    assert(strings_view(r@) =~= command_args(args@, variables@));
    r
}

// ── Program names ────────────────────────────────────────────────────────────

/// State of name cleanup after a prefix of the input.
pub struct CleanState {
    pub in_single: bool,
    pub in_double: bool,
    pub escaped: bool,
    pub out: Seq<char>,
}

/// One character of name cleanup: quotes removed (each kind toggles unless
/// the other is open), a backslash escaping only inside double quotes.
pub open spec fn clean_step(st: CleanState, c: char) -> CleanState {
    if st.escaped {
        CleanState { escaped: false, out: st.out.push(c), ..st }
    } else if c == '\\' && st.in_double {
        CleanState { escaped: true, ..st }
    } else if c == '\'' && !st.in_double {
        CleanState { in_single: !st.in_single, ..st }
    } else if c == '"' && !st.in_single {
        CleanState { in_double: !st.in_double, ..st }
    } else {
        CleanState { out: st.out.push(c), ..st }
    }
}

pub open spec fn clean_run(s: Seq<char>) -> CleanState
    decreases s.len(),
{
    if s.len() == 0 {
        CleanState { in_single: false, in_double: false, escaped: false, out: seq![] }
    } else {
        clean_step(clean_run(s.drop_last()), s.last())
    }
}

/// A program name with its quoting removed.
pub open spec fn cleaned_name(s: Seq<char>) -> Seq<char> {
    clean_run(s).out
}

/// Removes the quoting from a program name.
pub fn cleanup_name(name: &str) -> (r: String)
    ensures
        r@ == cleaned_name(name@),
{
    let v = chars_of(name);
    let mut in_single = false;
    let mut in_double = false;
    let mut escaped = false;
    let mut out = String::new();
    let mut i: usize = 0;
    while i < v.len()
        invariant
            i <= v@.len(),
            clean_run(v@.take(i as int)).in_single == in_single,
            clean_run(v@.take(i as int)).in_double == in_double,
            clean_run(v@.take(i as int)).escaped == escaped,
            clean_run(v@.take(i as int)).out == out@,
        decreases v.len() - i,
    {
        let c = v[i];
        assert(v@.take(i + 1).drop_last() =~= v@.take(i as int));
        if escaped {
            push_char(&mut out, c);
            escaped = false;
        } else if c == '\\' && in_double {
            escaped = true;
        } else if c == '\'' && !in_double {
            in_single = !in_single;
        } else if c == '"' && !in_single {
            in_double = !in_double;
        } else {
            push_char(&mut out, c);
        }
        i = i + 1;
    }
    assert(v@.take(v@.len() as int) =~= v@);
    out
}

/// The program part of a pipeline stage: up to the first space outside
/// quotes, quotes kept.
pub fn get_command_path(s: &str) -> (r: String)
    ensures
        r@ == name_token(s@),
        r@.len() <= s@.len(),
        name_token(s@) == s@.take(r@.len() as int),
{
    let v = chars_of(s);
    let k = crate::parser::command_name_len(&v);
    string_of(&v, 0, k)
}

/// The components of a path: its pieces between `/`, without empty pieces
/// and `.` pieces.
pub open spec fn path_components(s: Seq<char>) -> Seq<Seq<char>> {
    split_on(s, '/').filter(|p: Seq<char>| p.len() > 0 && p != seq!['.'])
}

/// The last component of a path, unless the path has none or ends in `..`
/// (`Path::file_name`).
pub open spec fn path_file_name_spec(s: Seq<char>) -> Option<Seq<char>> {
    let cs = path_components(s);
    if cs.len() == 0 || cs.last() == seq!['.', '.'] {
        None
    } else {
        Some(cs.last())
    }
}

/// `Path::new(s).file_name()` as text.
pub fn path_file_name(s: &str) -> (r: Option<String>)
    ensures
        match r {
            Some(n) => path_file_name_spec(s@) == Some(n@),
            None => path_file_name_spec(s@) is None,
        },
{
    let v = chars_of(s);
    let pieces = split_on_char(&v, '/');
    let ghost all = strings_view(pieces@);
    let mut kept: Vec<String> = Vec::new();
    let mut i: usize = 0;
    while i < pieces.len()
        invariant
            i <= pieces@.len(),
            all == strings_view(pieces@),
            all == split_on(s@, '/'),
            v@ == s@,
            strings_view(kept@) == all.take(i as int).filter(
                |p: Seq<char>| p.len() > 0 && p != seq!['.'],
            ),
        decreases pieces.len() - i,
    {
        let p = &pieces[i];
        let pv = chars_of(p.as_str());
        let dot: Vec<char> = vec!['.'];
        assert(dot@ =~= seq!['.']);
        let keep = pv.len() > 0 && !same_chars_vec(&pv, &dot);
        assert(all[i as int] == p@);
        let ghost prev = strings_view(kept@);
        proof {
            assert(all.take(i + 1).drop_last() =~= all.take(i as int));
            reveal_with_fuel(Seq::filter, 1);
        }
        if keep {
            kept.push(p.clone());
            assert(strings_view(kept@) =~= prev.push(p@));
        }
        i = i + 1;
    }
    assert(all.take(all.len() as int) =~= all);
    if kept.len() == 0 {
        return None;
    }
    let last = &kept[kept.len() - 1];
    let lv = chars_of(last.as_str());
    let dots: Vec<char> = vec!['.', '.'];
    assert(dots@ =~= seq!['.', '.']);
    assert(strings_view(kept@).last() == last@);
    if same_chars_vec(&lv, &dots) {
        None
    } else {
        Some(last.clone())
    }
}

/// The program a pipeline stage runs: the last component of its program
/// part (`unknown` when it has none), quoting removed.
pub open spec fn stage_program(c: Seq<char>) -> Seq<char> {
    match path_file_name_spec(name_token(c)) {
        Some(n) => cleaned_name(n),
        None => cleaned_name("unknown"@),
    }
}

/// The arguments a pipeline stage passes: from the text after its program part.
pub open spec fn stage_args(c: Seq<char>, vars: Map<Seq<char>, Seq<char>>) -> Seq<Seq<char>> {
    command_args(c.skip(name_token(c).len() as int), vars)
}

/// The program and the arguments of an external pipeline stage.
pub fn external_stage(c: &str, variables: &StrMap) -> (r: (String, Vec<String>))
    ensures
        r.0@ == stage_program(c@),
        strings_view(r.1@) == stage_args(c@, variables@),
{
    let path = get_command_path(c);
    let name = match path_file_name(path.as_str()) {
        Some(n) => cleanup_name(n.as_str()),
        None => cleanup_name("unknown"),
    };
    let v = chars_of(c);
    let rest = string_of(&v, path.as_str().unicode_len(), v.len());
    assert(rest@ =~= c@.skip(name_token(c@).len() as int));
    let args = get_command_args(rest.as_str(), variables);
    (name, args)
}

/// The command of a background job: the trimmed line ends with ` &`, and
/// the job runs what comes before it, trimmed.
pub open spec fn background_command_spec(command: Seq<char>) -> Option<Seq<char>> {
    let t = trim_seq(command);
    if t.len() >= 2 && t[t.len() - 2] == ' ' && t[t.len() - 1] == '&' {
        Some(trim_seq(t.take(t.len() - 2)))
    } else {
        None
    }
}

/// The command to run in the background, if the line asks for that.
pub fn background_command(command: &str) -> (r: Option<String>)
    ensures
        match r {
            Some(b) => background_command_spec(command@) == Some(b@),
            None => background_command_spec(command@) is None,
        },
{
    let v = chars_of(command);
    let (lo, hi) = trim_bounds(&v);
    if hi - lo >= 2 && v[hi - 2] == ' ' && v[hi - 1] == '&' {
        let t = sub_vec(&v, lo, hi - 2);
        let (a, b) = trim_bounds(&t);
        assert(t@ =~= v@.subrange(lo as int, hi as int).take(hi - lo - 2));
        Some(string_of(&t, a, b))
    } else {
        None
    }
}

/// The command line before a redirect that starts at byte `index`, trimmed.
pub open spec fn before_redirect(command: Seq<char>, index: nat) -> Seq<char> {
    trim_seq(command.take(char_at_byte(command, index)))
}

/// `command[..index].trim()`: the command line without its redirect.
pub fn strip_redirect(command: &str, index: usize) -> (r: String)
    requires
        byte_boundary(command@, index as nat),
    ensures
        r@ == before_redirect(command@, index as nat),
{
    let v = chars_of(command);
    let k = char_index_of_byte(&v, index).unwrap();
    let t = sub_vec(&v, 0, k);
    let (a, b) = trim_bounds(&t);
    assert(t@ =~= v@.take(k as int));
    string_of(&t, a, b)
}

/// The stages of a pipeline: the pieces between `|`, each trimmed.
pub open spec fn pipeline_stages(input: Seq<char>) -> Seq<Seq<char>> {
    split_on(input, '|').map_values(|c: Seq<char>| trim_seq(c))
}

/// `input.split('|').map(|c| c.trim())`.
pub fn split_pipeline(input: &str) -> (r: Vec<String>)
    ensures
        strings_view(r@) == pipeline_stages(input@),
{
    let v = chars_of(input);
    let pieces = split_on_char(&v, '|');
    let mut r: Vec<String> = Vec::new();
    let mut i: usize = 0;
    while i < pieces.len()
        invariant
            i <= pieces@.len(),
            strings_view(pieces@) == split_on(input@, '|'),
            r@.len() == i,
            forall|k: int| 0 <= k < i ==> (#[trigger] r@[k])@ == trim_seq(pieces@[k]@),
        decreases pieces.len() - i,
    {
        r.push(crate::text::trim(pieces[i].as_str()));
        i = i + 1;
    }
    assert(strings_view(r@) =~= pipeline_stages(input@)) by {
        assert forall|k: int| 0 <= k < r@.len() implies strings_view(r@)[k] == pipeline_stages(
            input@,
        )[k] by {
            assert(strings_view(pieces@)[k] == pieces@[k]@);
        }
    }
    r
}

/// The first word of a stage, or the empty text.
pub open spec fn first_word_spec(c: Seq<char>) -> Seq<char> {
    if words(c).len() > 0 {
        words(c)[0]
    } else {
        seq![]
    }
}

/// `c.split_whitespace().next().unwrap_or("")`.
pub fn first_word(c: &str) -> (r: String)
    ensures
        r@ == first_word_spec(c@),
{
    let ws = split_whitespace(c);
    if ws.len() > 0 {
        assert(strings_view(ws@)[0] == ws@[0]@);
        ws[0].clone()
    } else {
        String::new()
    }
}

/// Where the output of a redirected command goes: the stdout redirect file
/// when there is one, else the stderr redirect file; with the file's path and
/// whether it is appended to.
pub fn output_target(info: &RedirectInfo) -> (r: Option<(RedirectMode, String, bool)>)
    ensures
        match r {
            None => info.redirect_stdout_file is None && info.redirect_stderr_file is None,
            Some((m, p, a)) => match info.redirect_stdout_file {
                Some(f) => m == RedirectMode::Stdout && p@ == f@ && a == info.append_stdout,
                None => info.redirect_stderr_file matches Some(f) && m == RedirectMode::Stderr
                    && p@ == f@ && a == info.append_stderr,
            },
        },
{
    match &info.redirect_stdout_file {
        Some(f) => Some((RedirectMode::Stdout, f.clone(), info.append_stdout)),
        None => match &info.redirect_stderr_file {
            Some(f) => Some((RedirectMode::Stderr, f.clone(), info.append_stderr)),
            None => None,
        },
    }
}

/// Whether a command line, once run, ends the session: it starts with `exit`.
pub fn ends_session(command: &str) -> (b: bool)
    ensures
        b == EXIT_CMD@.is_prefix_of(command@),
{
    let v = chars_of(command);
    let e = chars_of(EXIT_CMD);
    crate::text::starts_with(&v, &e)
}

// ── laws ─────────────────────────────────────────────────────────────────────

proof fn lemma_quote_split_snoc(q: char, s: Seq<char>, c: char)
    ensures
        quote_split_run(q, s.push(c)) == quote_split_step(q, quote_split_run(q, s), c),
{
    assert(s.push(c).drop_last() =~= s);
}

proof fn lemma_split_inside_double(w: Seq<char>, k: int)
    requires
        0 <= k <= w.len(),
        forall|i: int| 0 <= i < w.len() ==> w[i] != '"' && w[i] != '\\',
    ensures
        quote_split_run('"', seq![' ', '"'] + w.take(k)).in_quotes,
        !quote_split_run('"', seq![' ', '"'] + w.take(k)).escaped,
        quote_split_run('"', seq![' ', '"'] + w.take(k)).cur == w.take(k),
        quote_split_run('"', seq![' ', '"'] + w.take(k)).result == Seq::<Seq<char>>::empty(),
    decreases k,
{
    if k == 0 {
        assert(seq![' ', '"'] + w.take(0) =~= seq![' '].push('"'));
        lemma_quote_split_snoc('"', seq![' '], '"');
        lemma_quote_split_snoc('"', Seq::<char>::empty(), ' ');
        assert(Seq::<char>::empty().push(' ') =~= seq![' ']);
    } else {
        lemma_split_inside_double(w, k - 1);
        let pre = seq![' ', '"'] + w.take(k - 1);
        assert(seq![' ', '"'] + w.take(k) =~= pre.push(w[k - 1]));
        lemma_quote_split_snoc('"', pre, w[k - 1]);
        assert(w.take(k - 1).push(w[k - 1]) =~= w.take(k));
    }
}

/// When the text after a program's name holds a `"`, it is split on double
/// quotes: a double-quoted part is one argument (trimmed), whatever single
/// quotes and spaces it holds, and a following word is the next argument.
pub proof fn law_double_quotes_split_arguments(w: Seq<char>, y: Seq<char>)
    requires
        w.len() > 0,
        forall|i: int| 0 <= i < w.len() ==> w[i] != '"' && w[i] != '\\',
        y.len() > 0,
        forall|i: int| 0 <= i < y.len() ==> y[i] != '"' && y[i] != '\\' && !is_ws(y[i]),
    ensures
        raw_command_args(seq![' ', '"'] + w + seq!['"', ' '] + y) == seq![trim_seq(w), y],
{
    let a = seq![' ', '"'] + w;
    lemma_split_inside_double(w, w.len() as int);
    assert(w.take(w.len() as int) =~= w);
    assert(seq![' ', '"'] + w.take(w.len() as int) =~= a);
    lemma_quote_split_snoc('"', a, '"');
    lemma_quote_split_snoc('"', a.push('"'), ' ');
    let b = a.push('"').push(' ');
    assert(Seq::<Seq<char>>::empty().push(w) =~= seq![w]);
    assert(quote_split_run('"', b).result == seq![w]);
    assert(quote_split_run('"', b).cur == Seq::<char>::empty());
    assert forall|k: int| 0 <= k <= y.len() implies {
        &&& !quote_split_run('"', b + y.take(k)).in_quotes
        &&& !quote_split_run('"', b + y.take(k)).escaped
        &&& quote_split_run('"', b + y.take(k)).cur == y.take(k)
        &&& quote_split_run('"', b + y.take(k)).result == seq![w]
    } by {
        lemma_plain_word(b, y, k, w);
    }
    let s = seq![' ', '"'] + w + seq!['"', ' '] + y;
    assert(s =~= b + y.take(y.len() as int));
    assert(y.take(y.len() as int) =~= y);
    assert(s.contains('"')) by {
        assert(s[1] == '"');
    }
    assert(quote_split('"', s) =~= seq![w, y]);
    assert(trim_seq(y) == y) by {
        assert(y[0] == y[0]);
        assert(y.last() == y[y.len() - 1]);
    }
    assert(raw_command_args(s) =~= seq![trim_seq(w), y]);
}

proof fn lemma_plain_word(b: Seq<char>, y: Seq<char>, k: int, w: Seq<char>)
    requires
        0 <= k <= y.len(),
        forall|i: int| 0 <= i < y.len() ==> y[i] != '"' && y[i] != '\\' && !is_ws(y[i]),
        !quote_split_run('"', b).in_quotes,
        !quote_split_run('"', b).escaped,
        quote_split_run('"', b).cur == Seq::<char>::empty(),
        quote_split_run('"', b).result == seq![w],
    ensures
        !quote_split_run('"', b + y.take(k)).in_quotes,
        !quote_split_run('"', b + y.take(k)).escaped,
        quote_split_run('"', b + y.take(k)).cur == y.take(k),
        quote_split_run('"', b + y.take(k)).result == seq![w],
    decreases k,
{
    if k == 0 {
        assert(b + y.take(0) =~= b);
    } else {
        lemma_plain_word(b, y, k - 1, w);
        let pre = b + y.take(k - 1);
        assert(b + y.take(k) =~= pre.push(y[k - 1]));
        lemma_quote_split_snoc('"', pre, y[k - 1]);
        assert(y[k - 1] != ' ');
        assert(y.take(k - 1).push(y[k - 1]) =~= y.take(k));
    }
}

proof fn lemma_clean_inside(q: char, w: Seq<char>, k: int)
    requires
        q == '"' || q == '\'',
        0 <= k <= w.len(),
        forall|i: int| 0 <= i < w.len() ==> w[i] != q && (q == '"' ==> w[i] != '\\'),
    ensures
        clean_run(seq![q] + w.take(k)).in_double == (q == '"'),
        clean_run(seq![q] + w.take(k)).in_single == (q == '\''),
        !clean_run(seq![q] + w.take(k)).escaped,
        clean_run(seq![q] + w.take(k)).out == w.take(k),
    decreases k,
{
    if k == 0 {
        assert(seq![q] + w.take(0) =~= seq![q]);
        assert(seq![q].drop_last() =~= Seq::<char>::empty());
        assert(clean_run(seq![q]) == clean_step(clean_run(Seq::<char>::empty()), q));
    } else {
        lemma_clean_inside(q, w, k - 1);
        let pre = seq![q] + w.take(k - 1);
        assert((seq![q] + w.take(k)).drop_last() =~= pre);
        assert((seq![q] + w.take(k)).last() == w[k - 1]);
        assert(clean_run(seq![q] + w.take(k)) == clean_step(clean_run(pre), w[k - 1]));
        assert(w.take(k - 1).push(w[k - 1]) =~= w.take(k));
    }
}

/// A program name written in double quotes (with no `"` or backslash inside)
/// or in single quotes (with no `'` inside) is the text between the quotes,
/// spaces and the other kind of quote included.
pub proof fn law_quoted_program_name(w: Seq<char>)
    ensures
        (forall|i: int| 0 <= i < w.len() ==> w[i] != '"' && w[i] != '\\') ==> cleaned_name(
            seq!['"'] + w + seq!['"'],
        ) == w,
        (forall|i: int| 0 <= i < w.len() ==> w[i] != '\'') ==> cleaned_name(
            seq!['\''] + w + seq!['\''],
        ) == w,
{
    assert(w.take(w.len() as int) =~= w);
    if forall|i: int| 0 <= i < w.len() ==> w[i] != '"' && w[i] != '\\' {
        lemma_clean_inside('"', w, w.len() as int);
        let s = seq!['"'] + w + seq!['"'];
        assert(s.drop_last() =~= seq!['"'] + w.take(w.len() as int));
    }
    if forall|i: int| 0 <= i < w.len() ==> w[i] != '\'' {
        lemma_clean_inside('\'', w, w.len() as int);
        let s = seq!['\''] + w + seq!['\''];
        assert(s.drop_last() =~= seq!['\''] + w.take(w.len() as int));
    }
}

proof fn lemma_split_inside_single(w: Seq<char>, k: int)
    requires
        0 <= k <= w.len(),
        forall|i: int| 0 <= i < w.len() ==> w[i] != '\'',
    ensures
        quote_split_run('\'', seq![' ', '\''] + w.take(k)).in_quotes,
        !quote_split_run('\'', seq![' ', '\''] + w.take(k)).escaped,
        quote_split_run('\'', seq![' ', '\''] + w.take(k)).cur == w.take(k),
        quote_split_run('\'', seq![' ', '\''] + w.take(k)).result == Seq::<Seq<char>>::empty(),
    decreases k,
{
    if k == 0 {
        assert(seq![' ', '\''] + w.take(0) =~= seq![' '].push('\''));
        lemma_quote_split_snoc('\'', seq![' '], '\'');
        lemma_quote_split_snoc('\'', Seq::<char>::empty(), ' ');
        assert(Seq::<char>::empty().push(' ') =~= seq![' ']);
    } else {
        lemma_split_inside_single(w, k - 1);
        let pre = seq![' ', '\''] + w.take(k - 1);
        assert(seq![' ', '\''] + w.take(k) =~= pre.push(w[k - 1]));
        lemma_quote_split_snoc('\'', pre, w[k - 1]);
        assert(w.take(k - 1).push(w[k - 1]) =~= w.take(k));
    }
}

proof fn lemma_plain_word_single(b: Seq<char>, y: Seq<char>, k: int, w: Seq<char>)
    requires
        0 <= k <= y.len(),
        forall|i: int| 0 <= i < y.len() ==> y[i] != '\'' && y[i] != '\\' && !is_ws(y[i]),
        !quote_split_run('\'', b).in_quotes,
        !quote_split_run('\'', b).escaped,
        quote_split_run('\'', b).cur == Seq::<char>::empty(),
        quote_split_run('\'', b).result == seq![w],
    ensures
        !quote_split_run('\'', b + y.take(k)).in_quotes,
        !quote_split_run('\'', b + y.take(k)).escaped,
        quote_split_run('\'', b + y.take(k)).cur == y.take(k),
        quote_split_run('\'', b + y.take(k)).result == seq![w],
    decreases k,
{
    if k == 0 {
        assert(b + y.take(0) =~= b);
    } else {
        lemma_plain_word_single(b, y, k - 1, w);
        let pre = b + y.take(k - 1);
        assert(b + y.take(k) =~= pre.push(y[k - 1]));
        lemma_quote_split_snoc('\'', pre, y[k - 1]);
        assert(y[k - 1] != ' ');
        assert(y.take(k - 1).push(y[k - 1]) =~= y.take(k));
    }
}

/// When the text after a program's name holds a `'` but no `"`, it is split
/// on single quotes: a single-quoted part is one argument (trimmed), spaces
/// and backslashes in it included, and a following word is the next argument.
pub proof fn law_single_quotes_split_arguments(w: Seq<char>, y: Seq<char>)
    requires
        w.len() > 0,
        forall|i: int| 0 <= i < w.len() ==> w[i] != '\'' && w[i] != '"',
        y.len() > 0,
        forall|i: int| 0 <= i < y.len() ==> y[i] != '\'' && y[i] != '"' && y[i] != '\\' && !is_ws(y[i]),
    ensures
        raw_command_args(seq![' ', '\''] + w + seq!['\'', ' '] + y) == seq![trim_seq(w), y],
{
    let a = seq![' ', '\''] + w;
    lemma_split_inside_single(w, w.len() as int);
    assert(w.take(w.len() as int) =~= w);
    assert(seq![' ', '\''] + w.take(w.len() as int) =~= a);
    lemma_quote_split_snoc('\'', a, '\'');
    lemma_quote_split_snoc('\'', a.push('\''), ' ');
    let b = a.push('\'').push(' ');
    assert(Seq::<Seq<char>>::empty().push(w) =~= seq![w]);
    assert(quote_split_run('\'', b).result == seq![w]);
    assert(quote_split_run('\'', b).cur == Seq::<char>::empty());
    lemma_plain_word_single(b, y, y.len() as int, w);
    let s = seq![' ', '\''] + w + seq!['\'', ' '] + y;
    assert(s =~= b + y.take(y.len() as int));
    assert(y.take(y.len() as int) =~= y);
    assert(s.contains('\'')) by {
        assert(s[1] == '\'');
    }
    assert(!s.contains('"')) by {
        if s.contains('"') {
            let i = choose|i: int| 0 <= i < s.len() && s[i] == '"';
            if 2 <= i < 2 + w.len() {
                assert(s[i] == w[i - 2]);
            } else if i >= 4 + w.len() {
                assert(s[i] == y[i - 4 - w.len()]);
            }
        }
    }
    assert(quote_split('\'', s) =~= seq![w, y]);
    assert(trim_seq(y) == y) by {
        assert(y.last() == y[y.len() - 1]);
    }
    assert(raw_command_args(s) =~= seq![trim_seq(w), y]);
}

} // verus!
