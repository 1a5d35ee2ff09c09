//! Redirect parsing, variable expansion and identifier checks.

use vstd::prelude::*;
use vstd::string::StringExecFns;
use crate::strmap::StrMap;
use sysinfo::ProcessStatus as P;
use crate::text::{
    chars_of, len_utf8, push_char, string_of, strings_view, trim_bounds, trim_seq, utf8_len,
    utf8_width, byte_boundary, char_at_byte, trim_start_seq,
};

verus! {

// ── Redirect parsing ─────────────────────────────────────────────────────────

/// Where a redirect sends its output.
#[derive(Clone, Copy, PartialEq, Eq, Structural, Debug)]
pub enum RedirectMode {
    Stdout,
    Stderr,
}

/// What a command line says about redirecting its output.
pub struct RedirectInfo {
    pub redirect_stdout_file: Option<String>,
    pub redirect_stderr_file: Option<String>,
    /// Byte offset in the command line where the redirect token begins.
    /// The caller can use `&command[..file_index_start]` to strip the redirect.
    pub file_index_start: Option<usize>,
    pub append_stdout: bool,
    pub append_stderr: bool,
}

/// State of the redirect scan after a prefix of the command line.
pub struct RedirectScan {
    pub in_single: bool,
    pub in_double: bool,
    pub mode: Option<RedirectMode>,
    pub filename: Seq<char>,
    pub append: bool,
    /// Byte offset of the redirect operator.
    pub index: nat,
    /// The `>` after a `1` or `2` is consumed with it.
    pub skip: bool,
}

/// One character `s[i]` of the redirect scan.  Before an operator is found,
/// quotes are tracked and an unquoted `>`, or an unquoted `1` or `2` that
/// starts a word and is followed by `>`, starts the redirect (the digit
/// choosing stdout or stderr).  After it, a `>` right after the operator
/// means append, and every other character belongs to the file name.
pub open spec fn redirect_step(s: Seq<char>, i: int, st: RedirectScan) -> RedirectScan {
    let c = s[i];
    if st.skip {
        RedirectScan { skip: false, ..st }
    } else if st.mode is Some {
        if c == '>' && st.filename.len() == 0 && !st.append {
            RedirectScan { append: true, ..st }
        } else {
            RedirectScan { filename: st.filename.push(c), ..st }
        }
    } else if c == '\'' && !st.in_double {
        RedirectScan { in_single: !st.in_single, ..st }
    } else if c == '"' && !st.in_single {
        RedirectScan { in_double: !st.in_double, ..st }
    } else if st.in_single || st.in_double {
        st
    } else if (c == '1' || c == '2') && (i == 0 || s[i - 1] == ' ') && i + 1 < s.len() && s[i + 1]
        == '>' {
        RedirectScan {
            index: utf8_len(s.take(i)),
            mode: Some(
                if c == '2' {
                    RedirectMode::Stderr
                } else {
                    RedirectMode::Stdout
                },
            ),
            skip: true,
            ..st
        }
    } else if c == '>' {
        RedirectScan { index: utf8_len(s.take(i)), mode: Some(RedirectMode::Stdout), ..st }
    } else {
        st
    }
}

/// The redirect scan over the first `n` characters of `s`.
pub open spec fn redirect_run(s: Seq<char>, n: nat) -> RedirectScan
    decreases n,
{
    if n == 0 {
        RedirectScan {
            in_single: false,
            in_double: false,
            mode: None,
            filename: seq![],
            append: false,
            index: 0,
            skip: false,
        }
    } else {
        redirect_step(s, n - 1, redirect_run(s, (n - 1) as nat))
    }
}

/// `r` describes the redirect of the command line `s`: the first unquoted
/// operator found, the trimmed file name after it, its byte offset and
/// whether it appends.
pub open spec fn describes_redirect(r: RedirectInfo, s: Seq<char>) -> bool {
    let st = redirect_run(s, s.len());
    match st.mode {
        None => {
            &&& r.redirect_stdout_file is None
            &&& r.redirect_stderr_file is None
            &&& r.file_index_start is None
            &&& !r.append_stdout
            &&& !r.append_stderr
        },
        Some(RedirectMode::Stdout) => {
            &&& r.redirect_stdout_file matches Some(f) && f@ == trim_seq(st.filename)
            &&& r.redirect_stderr_file is None
            &&& r.file_index_start == Some(st.index as usize)
            &&& r.append_stdout == st.append
            &&& !r.append_stderr
        },
        Some(RedirectMode::Stderr) => {
            &&& r.redirect_stdout_file is None
            &&& r.redirect_stderr_file matches Some(f) && f@ == trim_seq(st.filename)
            &&& r.file_index_start == Some(st.index as usize)
            &&& !r.append_stdout
            &&& r.append_stderr == st.append
        },
    }
}

pub proof fn lemma_utf8_len_prefix(s: Seq<char>, i: int)
    requires
        0 <= i <= s.len(),
    ensures
        utf8_len(s.take(i)) <= utf8_len(s),
    decreases s.len() - i,
{
    if i < s.len() {
        lemma_utf8_len_prefix(s, i + 1);
        assert(s.take(i + 1).drop_last() =~= s.take(i));
    } else {
        assert(s.take(i) =~= s);
    }
}

/// Parse the first unquoted redirect operator (`>`, `>>`, `2>`, `2>>`, `1>`,
/// `1>>`) found in `input` and return metadata about it.
///
/// A digit (`1` or `2`) is only treated as a file-descriptor prefix when it
/// sits at a word boundary (preceded by a space or at the start of the string)
/// **and** is immediately followed by `>`.  Digits inside filenames or
/// arguments are left untouched.
pub fn get_redirect(input: &str) -> (r: RedirectInfo)
    requires
        utf8_len(input@) <= usize::MAX,
    ensures
        describes_redirect(r, input@),
{
    let v = chars_of(input);
    let n = v.len();
    let mut in_single = false;
    let mut in_double = false;
    let mut mode: Option<RedirectMode> = None;
    let mut filename: Vec<char> = Vec::new();
    let mut append = false;
    let mut redirect_index: usize = 0;
    let mut skip = false;
    let mut byte_offset: usize = 0;
    let mut i: usize = 0;
    while i < n
        invariant
            n == v@.len(),
            v@ == input@,
            utf8_len(v@) <= usize::MAX,
            i <= n,
            byte_offset == utf8_len(v@.take(i as int)),
            redirect_run(v@, i as nat).in_single == in_single,
            redirect_run(v@, i as nat).in_double == in_double,
            redirect_run(v@, i as nat).mode == mode,
            redirect_run(v@, i as nat).filename == filename@,
            redirect_run(v@, i as nat).append == append,
            redirect_run(v@, i as nat).index == redirect_index,
            redirect_run(v@, i as nat).skip == skip,
        decreases n - i,
    {
        let c = v[i];
        proof {
            assert(v@.take(i + 1).drop_last() =~= v@.take(i as int));
            lemma_utf8_len_prefix(v@, i + 1);
        }
        if skip {
            skip = false;
        } else if mode.is_some() {
            if c == '>' && filename.len() == 0 && !append {
                append = true;
            } else {
                filename.push(c);
            }
        } else if c == '\'' && !in_double {
            in_single = !in_single;
        } else if c == '"' && !in_single {
            in_double = !in_double;
        } else if in_single || in_double {
        } else if (c == '1' || c == '2') && (i == 0 || v[i - 1] == ' ') && i + 1 < n && v[i + 1]
            == '>' {
            redirect_index = byte_offset;
            mode = Some(
                if c == '2' {
                    RedirectMode::Stderr
                } else {
                    RedirectMode::Stdout
                },
            );
            skip = true;
        } else if c == '>' {
            redirect_index = byte_offset;
            mode = Some(RedirectMode::Stdout);
        }
        byte_offset = byte_offset + len_utf8(c);
        i = i + 1;
    }
    let (lo, hi) = trim_bounds(&filename);
    let name = string_of(&filename, lo, hi);
    match mode {
        Some(RedirectMode::Stdout) => RedirectInfo {
            redirect_stdout_file: Some(name),
            redirect_stderr_file: None,
            file_index_start: Some(redirect_index),
            append_stdout: append,
            append_stderr: false,
        },
        Some(RedirectMode::Stderr) => RedirectInfo {
            redirect_stdout_file: None,
            redirect_stderr_file: Some(name),
            file_index_start: Some(redirect_index),
            append_stdout: false,
            append_stderr: append,
        },
        None => RedirectInfo {
            redirect_stdout_file: None,
            redirect_stderr_file: None,
            file_index_start: None,
            append_stdout: false,
            append_stderr: false,
        },
    }
}

proof fn lemma_no_operator_no_mode(s: Seq<char>, n: nat)
    requires
        n <= s.len(),
        forall|i: int| 0 <= i < s.len() ==> s[i] != '>',
    ensures
        redirect_run(s, n).mode is None,
        !redirect_run(s, n).skip,
    decreases n,
{
    if n > 0 {
        lemma_no_operator_no_mode(s, (n - 1) as nat);
        let i = n - 1;
        if i + 1 < s.len() {
            assert(s[i + 1] != '>');
        }
        assert(s[i] != '>');
    }
}

/// A command line without `>` redirects nothing.
pub proof fn law_no_redirect_without_operator(r: RedirectInfo, s: Seq<char>)
    requires
        describes_redirect(r, s),
        forall|i: int| 0 <= i < s.len() ==> s[i] != '>',
    ensures
        r.redirect_stdout_file is None,
        r.redirect_stderr_file is None,
        r.file_index_start is None,
{
    lemma_no_operator_no_mode(s, s.len());
}

/// A redirect operator starts at character `i` of `s`: a `>`, or a `1` or `2`
/// followed by `>`.
pub open spec fn operator_at(s: Seq<char>, i: int) -> bool {
    &&& 0 <= i < s.len()
    &&& s[i] == '>' || ((s[i] == '1' || s[i] == '2') && i + 1 < s.len() && s[i + 1] == '>')
}

proof fn lemma_scan_index(s: Seq<char>, n: nat)
    requires
        n <= s.len(),
    ensures
        redirect_run(s, n).mode is Some ==> exists|i: int|
            0 <= i < n && operator_at(s, i) && #[trigger] utf8_len(s.take(i)) == redirect_run(
                s,
                n,
            ).index,
    decreases n,
{
    if n > 0 {
        lemma_scan_index(s, (n - 1) as nat);
        let prev = redirect_run(s, (n - 1) as nat);
        if prev.mode is Some {
            let i = choose|i: int|
                0 <= i < n - 1 && operator_at(s, i) && #[trigger] utf8_len(s.take(i)) == prev.index;
            assert(utf8_len(s.take(i)) == redirect_run(s, n).index);
        } else if redirect_run(s, n).mode is Some {
            let i = n - 1;
            assert(operator_at(s, i));
            assert(utf8_len(s.take(i)) == redirect_run(s, n).index);
        }
    }
}

/// The byte offset of a redirect that was found falls between characters, at
/// the `>` or at the `1` or `2` of `1>` or `2>` (so `&command[..offset]` is
/// the text before it).
pub proof fn law_redirect_index_at_operator(r: RedirectInfo, s: Seq<char>)
    requires
        utf8_len(s) <= usize::MAX,
        describes_redirect(r, s),
        r.file_index_start is Some,
    ensures
        byte_boundary(s, r.file_index_start.unwrap() as nat),
        operator_at(s, char_at_byte(s, r.file_index_start.unwrap() as nat)),
{
    let st = redirect_run(s, s.len());
    lemma_scan_index(s, s.len());
    let i = choose|i: int|
        0 <= i < s.len() && operator_at(s, i) && #[trigger] utf8_len(s.take(i)) == st.index;
    lemma_utf8_len_prefix(s, i);
    let b = r.file_index_start.unwrap() as nat;
    assert(b == st.index);
    assert(byte_boundary(s, b));
    let k = char_at_byte(s, b);
    if k < i {
        crate::text::lemma_utf8_len_strict(s, k, i);
    }
    if k > i {
        crate::text::lemma_utf8_len_strict(s, i, k);
    }
}

// ── Variable expansion ──────────────────────────────────────────────────────

/// A character that may appear in a variable name: ASCII letter, digit or `_`.
pub open spec fn is_key_char(c: char) -> bool {
    ('0' <= c && c <= '9') || ('a' <= c && c <= 'z') || ('A' <= c && c <= 'Z') || c == '_'
}

fn key_char(c: char) -> (b: bool)
    ensures
        b == is_key_char(c),
{
    ('0' <= c && c <= '9') || ('a' <= c && c <= 'z') || ('A' <= c && c <= 'Z') || c == '_'
}

/// Length of the run of name characters at the start of `t`.
pub open spec fn key_len(t: Seq<char>) -> nat
    decreases t.len(),
{
    if t.len() > 0 && is_key_char(t[0]) {
        1 + key_len(t.drop_first())
    } else {
        0
    }
}

pub proof fn lemma_key_len_bound(t: Seq<char>)
    ensures
        key_len(t) <= t.len(),
    decreases t.len(),
{
    if t.len() > 0 && is_key_char(t[0]) {
        lemma_key_len_bound(t.drop_first());
    }
}

pub proof fn lemma_key_len_exact(t: Seq<char>, m: int)
    requires
        0 <= m <= t.len(),
        forall|k: int| 0 <= k < m ==> is_key_char(#[trigger] t[k]),
        m == t.len() || !is_key_char(t[m]),
    ensures
        key_len(t) == m,
    decreases m,
{
    if m > 0 {
        assert forall|k: int| 0 <= k < m - 1 implies is_key_char(#[trigger] t.drop_first()[k]) by {
            assert(t.drop_first()[k] == t[k + 1]);
        }
        if m < t.len() {
            assert(t.drop_first()[m - 1] == t[m]);
        }
        lemma_key_len_exact(t.drop_first(), m - 1);
    }
}

pub proof fn lemma_visit_shrinks(dom: Set<Seq<char>>, visited: Set<Seq<char>>, key: Seq<char>)
    requires
        dom.finite(),
        dom.contains(key),
        !visited.contains(key),
    ensures
        dom.difference(visited.insert(key)).len() < dom.difference(visited).len(),
{
    let d = dom.difference(visited);
    vstd::set_lib::lemma_len_subset(d, dom);
    assert(dom.difference(visited.insert(key)) =~= d.remove(key));
}

/// Where the `$` reference at the start of `s` (with `s[0] == '$'`) ends:
/// after the braces' `{`, the name characters, and a closing `}` when braced.
pub open spec fn reference_end(s: Seq<char>) -> int {
    let braced = s.len() > 1 && s[1] == '{';
    let ks: int = if braced {
        2
    } else {
        1
    };
    let kl = key_len(s.skip(ks)) as int;
    if braced && ks + kl < s.len() && s[ks + kl] == '}' {
        ks + kl + 1
    } else {
        ks + kl
    }
}

/// The name in the `$` reference at the start of `s`.
pub open spec fn reference_name(s: Seq<char>) -> Seq<char> {
    let ks: int = if s.len() > 1 && s[1] == '{' {
        2
    } else {
        1
    };
    s.subrange(ks, ks + key_len(s.skip(ks)))
}

/// `s` with every `$name` and `${name}` replaced by the expansion of the
/// variable's value, where the names in `visited` are being expanded already
/// and so stay as `$name`.  Unknown names stay as written, and a `$` not
/// followed by a name stays a `$`.
pub open spec fn expand_spec(
    s: Seq<char>,
    vars: Map<Seq<char>, Seq<char>>,
    visited: Set<Seq<char>>,
) -> Seq<char>
    decreases vars.dom().difference(visited).len(), s.len(), 1nat,
    when vars.dom().finite()
{
    if s.len() == 0 {
        seq![]
    } else if s[0] != '$' {
        seq![s[0]] + expand_spec(s.drop_first(), vars, visited)
    } else {
        proof {
            let ks: int = if s.len() > 1 && s[1] == '{' {
                2
            } else {
                1
            };
            lemma_key_len_bound(s.skip(ks));
        }
        reference_value(s, vars, visited) + expand_spec(s.skip(reference_end(s)), vars, visited)
    }
}

/// The reference at the start of `s` is braced and its closing `}` is there.
pub open spec fn closes_brace(s: Seq<char>) -> bool {
    &&& s.len() > 1 && s[1] == '{'
    &&& 2 + key_len(s.skip(2)) < s.len()
    &&& s[2 + key_len(s.skip(2)) as int] == '}'
}

/// What the `$` reference at the start of `s` expands to.
pub open spec fn reference_value(
    s: Seq<char>,
    vars: Map<Seq<char>, Seq<char>>,
    visited: Set<Seq<char>>,
) -> Seq<char>
    decreases vars.dom().difference(visited).len(), s.len(), 0nat,
    when vars.dom().finite()
{
    let key = reference_name(s);
    if key.len() == 0 {
        seq!['$']
    } else if vars.contains_key(key) {
        if visited.contains(key) {
            seq!['$'] + key
        } else {
            proof {
                lemma_visit_shrinks(vars.dom(), visited, key);
            }
            expand_spec(vars[key], vars, visited.insert(key))
        }
    } else if closes_brace(s) {
        seq!['$', '{'] + key + seq!['}']
    } else if s.len() > 1 && s[1] == '{' {
        seq!['$', '{'] + key
    } else {
        seq!['$'] + key
    }
}

pub proof fn lemma_push_to_set(v: Seq<Seq<char>>, x: Seq<char>)
    ensures
        v.push(x).to_set() == v.to_set().insert(x),
{
    assert forall|y: Seq<char>| v.push(x).to_set().contains(y) <==> v.to_set().insert(x).contains(
        y,
    ) by {
        if v.push(x).to_set().contains(y) {
            let k = choose|k: int| 0 <= k < v.push(x).len() && v.push(x)[k] == y;
            if k < v.len() {
                assert(v[k] == y);
            }
        }
        if v.to_set().contains(y) {
            let k = choose|k: int| 0 <= k < v.len() && v[k] == y;
            assert(v.push(x)[k] == y);
        }
        if y == x {
            assert(v.push(x)[v.len() as int] == x);
        }
    }
    assert(v.push(x).to_set() =~= v.to_set().insert(x));
}

pub(crate) fn contains_string(v: &Vec<String>, k: &String) -> (b: bool)
    ensures
        b == strings_view(v@).to_set().contains(k@),
{
    let mut i: usize = 0;
    while i < v.len()
        invariant
            i <= v@.len(),
            forall|j: int| 0 <= j < i ==> v@[j]@ != k@,
        decreases v.len() - i,
    {
        if v[i] == *k {
            assert(strings_view(v@)[i as int] == k@);
            return true;
        }
        i = i + 1;
    }
    assert forall|j: int| 0 <= j < strings_view(v@).len() implies strings_view(v@)[j] != k@ by {
        assert(strings_view(v@)[j] == v@[j]@);
    }
    false
}

/// Scans the `$` reference at `v[i]`: returns where it ends and where its
/// name lies.
fn scan_reference(v: &Vec<char>, i: usize) -> (r: (usize, usize, usize))
    requires
        i < v@.len(),
        v@[i as int] == '$',
    ensures
        i < r.0 <= v@.len(),
        r.0 - i == reference_end(v@.skip(i as int)),
        r.1 <= r.2 <= v@.len(),
        v@.subrange(r.1 as int, r.2 as int) == reference_name(v@.skip(i as int)),
        closes_brace(v@.skip(i as int)) == (r.0 == r.2 + 1 && r.1 == i + 2),
{
    let ghost rest = v@.skip(i as int);
    let n = v.len();
    let braced = i + 1 < n && v[i + 1] == '{';
    let key_start: usize = if braced {
        i + 2
    } else {
        i + 1
    };
    let mut j = key_start;
    while j < n && key_char(v[j])
        invariant
            key_start <= j <= n,
            n == v@.len(),
            forall|k: int| key_start <= k < j ==> is_key_char(#[trigger] v@[k]),
        decreases n - j,
    {
        j = j + 1;
    }
    let key_end = j;
    let ghost ks: int = key_start - i;
    proof {
        let t = rest.skip(ks);
        assert forall|k: int| 0 <= k < key_end - key_start implies is_key_char(#[trigger] t[k]) by {
            assert(t[k] == v@[key_start + k]);
        }
        if key_end < n {
            assert(t[key_end - key_start] == v@[key_end as int]);
        }
        lemma_key_len_exact(t, key_end - key_start);
        assert(braced == (rest.len() > 1 && rest[1] == '{'));
    }
    if braced && j < n && v[j] == '}' {
        assert(rest[ks + (key_end - key_start)] == v@[key_end as int]);
        j = j + 1;
    } else if braced && j < n {
        assert(rest[ks + (key_end - key_start)] == v@[key_end as int]);
    }
    assert(v@.subrange(key_start as int, key_end as int) =~= reference_name(rest));
    (j, key_start, key_end)
}

fn expand_string(s: &str, variables: &StrMap, visited: &mut Vec<String>) -> (r: String)
    requires
        variables@.dom().finite(),
    ensures
        r@ == expand_spec(s@, variables@, strings_view(old(visited)@).to_set()),
        final(visited)@ == old(visited)@,
    decreases variables@.dom().difference(strings_view(old(visited)@).to_set()).len(), 1nat,
{
    let ghost vars = variables@;
    let ghost seen = strings_view(visited@).to_set();
    let v = chars_of(s);
    let n = v.len();
    let mut result = String::new();
    let mut i: usize = 0;
    assert(v@.skip(0) =~= v@);
    while i < n
        invariant
            n == v@.len(),
            v@ == s@,
            i <= n,
            vars == variables@,
            vars.dom().finite(),
            seen == strings_view(visited@).to_set(),
            visited@ == old(visited)@,
            result@ + expand_spec(v@.skip(i as int), vars, seen) == expand_spec(v@, vars, seen),
        decreases n - i,
    {
        let ghost rest = v@.skip(i as int);
        let ghost before = result@;
        let c = v[i];
        if c != '$' {
            push_char(&mut result, c);
            assert(rest.drop_first() =~= v@.skip(i + 1));
            i = i + 1;
        } else {
            let (j, key_start, key_end) = scan_reference(&v, i);
            let piece = expand_reference(&v, i, key_start, key_end, j, variables, visited);
            result.append(piece.as_str());
            assert(rest.skip(j - i) =~= v@.skip(j as int));
            assert(result@ + expand_spec(v@.skip(j as int), vars, seen) =~= before + expand_spec(
                rest,
                vars,
                seen,
            ));
            i = j;
        }
    }
    assert(v@.skip(n as int) =~= Seq::<char>::empty());
    assert(result@ + Seq::<char>::empty() =~= result@);
    result
}

/// The expansion of the `$` reference at `v[i]`, whose name is
/// `v[key_start..key_end]`.
fn expand_reference(
    v: &Vec<char>,
    i: usize,
    key_start: usize,
    key_end: usize,
    end: usize,
    variables: &StrMap,
    visited: &mut Vec<String>,
) -> (r: String)
    requires
        i < v@.len(),
        v@[i as int] == '$',
        key_start <= key_end <= v@.len(),
        closes_brace(v@.skip(i as int)) == (end == key_end + 1 && key_start == i + 2),
        v@.subrange(key_start as int, key_end as int) == reference_name(v@.skip(i as int)),
        variables@.dom().finite(),
    ensures
        r@ == reference_value(v@.skip(i as int), variables@, strings_view(old(visited)@).to_set()),
        final(visited)@ == old(visited)@,
    decreases variables@.dom().difference(strings_view(old(visited)@).to_set()).len(), 0nat,
{
    let ghost rest = v@.skip(i as int);
    let ghost seen = strings_view(visited@).to_set();
    let braced = v.len() - i > 1 && v[i + 1] == '{';
    assert(braced == (rest.len() > 1 && rest[1] == '{'));
    let mut result = String::new();
    if key_end > key_start {
        let key = string_of(v, key_start, key_end);
        match variables.get(key.as_str()) {
            Some(value) => {
                if contains_string(visited, &key) {
                    push_char(&mut result, '$');
                    result.append(key.as_str());
                } else {
                    proof {
                        lemma_visit_shrinks(variables@.dom(), seen, key@);
                        lemma_push_to_set(strings_view(visited@), key@);
                    }
                    visited.push(key);
                    assert(strings_view(visited@) =~= strings_view(old(visited)@).push(key@));
                    let e = expand_string(value.as_str(), variables, visited);
                    visited.pop();
                    assert(visited@ =~= old(visited)@);
                    result = e;
                }
            },
            None => {
                push_char(&mut result, '$');
                if braced {
                    push_char(&mut result, '{');
                }
                result.append(key.as_str());
                if braced && key_start == i + 2 && end >= key_end && end - key_end == 1 {
                    push_char(&mut result, '}');
                }
            },
        }
    } else {
        push_char(&mut result, '$');
    }
    assert(result@ =~= reference_value(rest, variables@, seen));
    result
}

/// Expands `$name` and `${name}` references in `s` from `variables`,
/// expanding values in turn and leaving a reference that would recur as
/// written.
pub fn expand_string_with_vars(s: &str, variables: &StrMap) -> (r: String)
    ensures
        r@ == expand_spec(s@, variables@, Set::empty()),
{
    let mut visited: Vec<String> = Vec::new();
    variables.finite_domain();
    assert(strings_view(visited@).to_set() =~= Set::<Seq<char>>::empty());
    expand_string(s, variables, &mut visited)
}

/// Expands each argument with `expand_string_with_vars`.
pub fn expand_args(args: Vec<String>, variables: &StrMap) -> (r: Vec<String>)
    ensures
        r@.len() == args@.len(),
        forall|k: int|
            0 <= k < args@.len() ==> (#[trigger] r@[k])@ == expand_spec(
                args@[k]@,
                variables@,
                Set::empty(),
            ),
{
    let mut r: Vec<String> = Vec::new();
    let mut i: usize = 0;
    while i < args.len()
        invariant
            i <= args@.len(),
            r@.len() == i,
            forall|k: int|
                0 <= k < i ==> (#[trigger] r@[k])@ == expand_spec(
                    args@[k]@,
                    variables@,
                    Set::empty(),
                ),
        decreases args.len() - i,
    {
        let e = expand_string_with_vars(args[i].as_str(), variables);
        r.push(e);
        i = i + 1;
    }
    r
}

// ── Processes ────────────────────────────────────────────────────────────────

/// `sysinfo`'s state of a process.
#[verifier::external_type_specification]
#[verifier::external_body]
pub struct ExProcessStatus(sysinfo::ProcessStatus);

/// The scheduling state of a process, one variant per state `sysinfo` reports.
#[derive(Clone, Copy, PartialEq, Eq, Structural, Debug)]
pub enum RunState {
    Idle,
    Run,
    Sleep,
    Stop,
    Zombie,
    Tracing,
    Dead,
    Wakekill,
    Waking,
    Parked,
    LockBlocked,
    UninterruptibleDiskSleep,
    Suspended,
    Unknown(u32),
}

/// What the process table says of one process.
#[derive(Clone, Copy, PartialEq, Eq, Structural, Debug)]
pub enum ProcessState {
    /// The process table could not be read.
    Unreadable,
    /// No process has that id.
    Absent,
    /// The process exists, in this state.
    Present(RunState),
}

/// Calls `sysinfo::System::new`, then `System::refresh_processes` for `pid`
/// alone, then `System::process` and `Process::status`: `None` when the
/// process table cannot be read, `Some(None)` when there is no such process,
/// else its status.  The answer depends on the operating system at the moment
/// of the call, so nothing is claimed of it.
#[verifier::external_body]
fn read_process_status(pid: u32) -> (r: Option<Option<sysinfo::ProcessStatus>>) {
    let Ok(mut system) = sysinfo::System::new() else { return None };
    let sysinfo_pid = sysinfo::Pid::from(pid as usize);
    system.refresh_processes(sysinfo::ProcessesToUpdate::Some(&[sysinfo_pid]), false);
    match system.process(sysinfo_pid) {
        Some(p) => Some(Some(p.status())),
        None => Some(None),
    }
}

/// Names the variant of a `sysinfo::ProcessStatus`, one arm per variant.
/// Nothing is claimed of it: the outside value is opaque here.
#[verifier::external_body]
fn run_state(s: sysinfo::ProcessStatus) -> (r: RunState) {
    match s {
        P::Idle => RunState::Idle, P::Run => RunState::Run, P::Sleep => RunState::Sleep,
        P::Stop => RunState::Stop, P::Zombie => RunState::Zombie, P::Tracing => RunState::Tracing,
        P::Dead => RunState::Dead, P::Wakekill => RunState::Wakekill, P::Waking => RunState::Waking,
        P::Parked => RunState::Parked, P::LockBlocked => RunState::LockBlocked,
        P::UninterruptibleDiskSleep => RunState::UninterruptibleDiskSleep,
        P::Suspended => RunState::Suspended, P::Unknown(n) => RunState::Unknown(n),
    }
}

/// What the process table says of `pid` right now.
pub fn process_state(pid: u32) -> (r: ProcessState) {
    match read_process_status(pid) {
        None => ProcessState::Unreadable,
        Some(None) => ProcessState::Absent,
        Some(Some(s)) => ProcessState::Present(run_state(s)),
    }
}

/// A process counts as running while it exists and is not a zombie.
pub fn is_running(s: ProcessState) -> (b: bool)
    ensures
        b == (s matches ProcessState::Present(st) && st != RunState::Zombie),
{
    match s {
        ProcessState::Present(RunState::Zombie) => false,
        ProcessState::Present(_) => true,
        _ => false,
    }
}

/// Whether the process `pid` is alive and not a zombie, as the process table
/// says right now; `false` when the table cannot be read.  The table's answer
/// depends on the operating system at the moment of the call, so nothing is
/// stated of the result.
pub fn is_process_running(pid: u32) -> (b: bool) {
    is_running(process_state(pid))
}

// ── Identifiers ──────────────────────────────────────────────────────────────

/// What `char::is_alphabetic` answers for `c` (the Unicode `Alphabetic`
/// property).
pub uninterp spec fn spec_is_alphabetic(c: char) -> bool;

/// What `char::is_alphanumeric` answers for `c` (`Alphabetic` or `Numeric`).
pub uninterp spec fn spec_is_alphanumeric(c: char) -> bool;

/// Calls `char::is_alphabetic`; trusted to answer `spec_is_alphabetic(c)`,
/// a name of which nothing else is claimed: its answer depends on `c` alone.
#[verifier::external_body]
fn char_is_alphabetic(c: char) -> (b: bool)
    ensures
        b == spec_is_alphabetic(c),
{
    c.is_alphabetic()
}

/// Calls `char::is_alphanumeric`; trusted to answer
/// `spec_is_alphanumeric(c)`, a name of which nothing else is claimed: its
/// answer depends on `c` alone.
#[verifier::external_body]
fn char_is_alphanumeric(c: char) -> (b: bool)
    ensures
        b == spec_is_alphanumeric(c),
{
    c.is_alphanumeric()
}

/// A valid variable name, given which of its characters are alphabetic and
/// which alphanumeric: it starts with a letter or `_` and holds only letters,
/// digits and `_` (the empty name passes).
pub open spec fn identifier_ok(name: Seq<char>, alphabetic: Seq<bool>, alphanumeric: Seq<bool>) -> bool {
    &&& name.len() > 0 ==> (alphabetic[0] || name[0] == '_')
    &&& forall|i: int| 0 <= i < name.len() ==> (#[trigger] alphanumeric[i] || name[i] == '_')
}

/// A valid variable name by the Unicode classes of its characters.
pub open spec fn valid_identifier(name: Seq<char>) -> bool {
    identifier_ok(
        name,
        Seq::new(name.len(), |i: int| spec_is_alphabetic(name[i])),
        Seq::new(name.len(), |i: int| spec_is_alphanumeric(name[i])),
    )
}

/// Decides a variable name from the classes of its characters.
pub fn identifier_valid_given(name: &Vec<char>, alphabetic: &Vec<bool>, alphanumeric: &Vec<bool>) -> (b: bool)
    requires
        alphabetic@.len() == name@.len(),
        alphanumeric@.len() == name@.len(),
    ensures
        b == identifier_ok(name@, alphabetic@, alphanumeric@),
{
    let mut i: usize = 0;
    while i < name.len()
        invariant
            i <= name@.len(),
            alphabetic@.len() == name@.len(),
            alphanumeric@.len() == name@.len(),
            i > 0 ==> (alphabetic@[0] || name@[0] == '_'),
            forall|j: int| 0 <= j < i ==> (#[trigger] alphanumeric@[j] || name@[j] == '_'),
        decreases name.len() - i,
    {
        if i == 0 && !(alphabetic[0] || name[0] == '_') {
            return false;
        }
        if !(alphanumeric[i] || name[i] == '_') {
            return false;
        }
        i = i + 1;
    }
    true
}

/// Whether `name` is a valid variable name.  (The shell reports an invalid
/// one as ``declare: `DECLARATION': not a valid identifier``; see
/// `invalid_identifier_message`.)
pub fn validate(name: &str) -> (b: bool)
    ensures
        b == valid_identifier(name@),
{
    let v = chars_of(name);
    let mut alphabetic: Vec<bool> = Vec::new();
    let mut alphanumeric: Vec<bool> = Vec::new();
    let mut i: usize = 0;
    while i < v.len()
        invariant
            i <= v@.len(),
            alphabetic@ == Seq::new(i as nat, |j: int| spec_is_alphabetic(v@[j])),
            alphanumeric@ == Seq::new(i as nat, |j: int| spec_is_alphanumeric(v@[j])),
        decreases v.len() - i,
    {
        alphabetic.push(char_is_alphabetic(v[i]));
        alphanumeric.push(char_is_alphanumeric(v[i]));
        i = i + 1;
        assert(alphabetic@ =~= Seq::new(i as nat, |j: int| spec_is_alphabetic(v@[j])));
        assert(alphanumeric@ =~= Seq::new(i as nat, |j: int| spec_is_alphanumeric(v@[j])));
    }
    identifier_valid_given(&v, &alphabetic, &alphanumeric)
}

/// ``declare: `DECLARATION': not a valid identifier``.
pub fn invalid_identifier_message(declaration: &str) -> (r: String)
    ensures
        r@ == "declare: `"@ + declaration@ + "': not a valid identifier"@,
{
    let mut r = String::new();
    r.append("declare: `");
    r.append(declaration);
    r.append("': not a valid identifier");
    r
}

/// Text without `$` expands to itself.
pub proof fn law_expand_plain(s: Seq<char>, vars: Map<Seq<char>, Seq<char>>, visited: Set<Seq<char>>)
    requires
        vars.dom().finite(),
        forall|i: int| 0 <= i < s.len() ==> s[i] != '$',
    ensures
        expand_spec(s, vars, visited) == s,
    decreases s.len(),
{
    if s.len() > 0 {
        assert(s[0] != '$');
        assert forall|i: int| 0 <= i < s.drop_first().len() implies s.drop_first()[i] != '$' by {
            assert(s.drop_first()[i] == s[i + 1]);
        }
        law_expand_plain(s.drop_first(), vars, visited);
        assert(seq![s[0]] + s.drop_first() =~= s);
    }
}

/// `$NAME` expands to the value of the variable `NAME`, when that value holds
/// no further reference.
pub proof fn law_expand_reference(name: Seq<char>, vars: Map<Seq<char>, Seq<char>>)
    requires
        vars.dom().finite(),
        name.len() > 0,
        forall|i: int| 0 <= i < name.len() ==> is_key_char(#[trigger] name[i]),
        vars.contains_key(name),
        forall|i: int| 0 <= i < vars[name].len() ==> vars[name][i] != '$',
    ensures
        expand_spec(seq!['$'] + name, vars, Set::empty()) == vars[name],
{
    let s = seq!['$'] + name;
    assert(s.skip(1) =~= name);
    assert(is_key_char(name[0]));
    assert(s[1] == name[0]);
    lemma_key_len_exact(name, name.len() as int);
    assert(reference_name(s) =~= name);
    assert(reference_end(s) == s.len());
    law_expand_plain(vars[name], vars, Set::<Seq<char>>::empty().insert(name));
    assert(s.skip(s.len() as int) =~= Seq::<char>::empty());
    assert(expand_spec(s.skip(reference_end(s)), vars, Set::empty()) == Seq::<char>::empty());
    assert(!Set::<Seq<char>>::empty().contains(name));
    assert(reference_value(s, vars, Set::empty()) == expand_spec(
        vars[name],
        vars,
        Set::<Seq<char>>::empty().insert(name),
    ));
    assert(s[0] == '$');
    assert(expand_spec(s, vars, Set::empty()) == reference_value(s, vars, Set::empty())
        + expand_spec(s.skip(reference_end(s)), vars, Set::empty()));
    assert(vars[name] + Seq::<char>::empty() =~= vars[name]);
}

/// A reference to a variable that is not set stays as written.
pub proof fn law_unknown_reference_stays(name: Seq<char>, vars: Map<Seq<char>, Seq<char>>)
    requires
        vars.dom().finite(),
        name.len() > 0,
        forall|i: int| 0 <= i < name.len() ==> is_key_char(#[trigger] name[i]),
        !vars.contains_key(name),
    ensures
        expand_spec(seq!['$'] + name, vars, Set::empty()) == seq!['$'] + name,
{
    let s = seq!['$'] + name;
    assert(s.skip(1) =~= name);
    assert(is_key_char(name[0]));
    assert(s[1] == name[0]);
    lemma_key_len_exact(name, name.len() as int);
    assert(reference_name(s) =~= name);
    assert(reference_end(s) == s.len());
    assert(s.skip(s.len() as int) =~= Seq::<char>::empty());
    assert(expand_spec(s.skip(reference_end(s)), vars, Set::empty()) == Seq::<char>::empty());
    assert(s[0] == '$');
    assert(expand_spec(s, vars, Set::empty()) == reference_value(s, vars, Set::empty())
        + expand_spec(s.skip(reference_end(s)), vars, Set::empty()));
    assert(s + Seq::<char>::empty() =~= s);
}

/// A variable whose value is a reference to itself expands to that
/// reference: the cycle is cut instead of followed.
pub proof fn law_self_reference_stays(name: Seq<char>, vars: Map<Seq<char>, Seq<char>>)
    requires
        vars.dom().finite(),
        name.len() > 0,
        forall|i: int| 0 <= i < name.len() ==> is_key_char(#[trigger] name[i]),
        vars.contains_key(name),
        vars[name] == seq!['$'] + name,
    ensures
        expand_spec(seq!['$'] + name, vars, Set::empty()) == seq!['$'] + name,
{
    let s = seq!['$'] + name;
    let once = Set::<Seq<char>>::empty().insert(name);
    assert(s.skip(1) =~= name);
    assert(is_key_char(name[0]));
    assert(s[1] == name[0]);
    lemma_key_len_exact(name, name.len() as int);
    assert(reference_name(s) =~= name);
    assert(reference_end(s) == s.len());
    assert(s.skip(s.len() as int) =~= Seq::<char>::empty());
    assert(s[0] == '$');
    assert(expand_spec(s.skip(reference_end(s)), vars, once) == Seq::<char>::empty());
    assert(reference_value(s, vars, once) == s);
    assert(expand_spec(s, vars, once) == reference_value(s, vars, once) + expand_spec(
        s.skip(reference_end(s)),
        vars,
        once,
    ));
    assert(s + Seq::<char>::empty() =~= s);
    assert(expand_spec(s.skip(reference_end(s)), vars, Set::empty()) == Seq::<char>::empty());
    assert(!Set::<Seq<char>>::empty().contains(name));
    assert(reference_value(s, vars, Set::empty()) == expand_spec(vars[name], vars, once));
    assert(expand_spec(s, vars, Set::empty()) == reference_value(s, vars, Set::empty())
        + expand_spec(s.skip(reference_end(s)), vars, Set::empty()));
}

/// A variable name as the shell reads one: ASCII letters, ASCII digits and
/// `_`, at least one of them.
pub open spec fn ascii_name(name: Seq<char>) -> bool {
    &&& name.len() > 0
    &&& forall|i: int|
        0 <= i < name.len() ==> ('0' <= #[trigger] name[i] <= '9' || 'a' <= name[i] <= 'z' || 'A'
            <= name[i] <= 'Z' || name[i] == '_')
}

/// For every name of ASCII letters, digits and underscores that is set to a
/// value holding no `$`, expanding `$` followed by that name gives the value,
/// and so does `${` name `}`.
pub proof fn law_named_reference_expands(name: Seq<char>, vars: Map<Seq<char>, Seq<char>>)
    requires
        vars.dom().finite(),
        ascii_name(name),
        vars.contains_key(name),
        forall|i: int| 0 <= i < vars[name].len() ==> vars[name][i] != '$',
    ensures
        expand_spec(seq!['$'] + name, vars, Set::empty()) == vars[name],
        expand_spec(seq!['$', '{'] + name + seq!['}'], vars, Set::empty()) == vars[name],
{
    assert forall|i: int| 0 <= i < name.len() implies is_key_char(#[trigger] name[i]) by {
        assert('0' <= name[i] <= '9' || 'a' <= name[i] <= 'z' || 'A' <= name[i] <= 'Z'
            || name[i] == '_');
    }
    law_expand_reference(name, vars);
    let s = seq!['$', '{'] + name + seq!['}'];
    assert(s.skip(2) =~= name + seq!['}']);
    assert((name + seq!['}'])[name.len() as int] == '}');
    assert forall|k: int| 0 <= k < name.len() implies is_key_char(#[trigger] (name + seq!['}'])[k]) by {
        assert((name + seq!['}'])[k] == name[k]);
    }
    lemma_key_len_exact(name + seq!['}'], name.len() as int);
    assert(reference_name(s) =~= name);
    assert(reference_end(s) == s.len());
    assert(s.skip(s.len() as int) =~= Seq::<char>::empty());
    let once = Set::<Seq<char>>::empty().insert(name);
    law_expand_plain(vars[name], vars, once);
    assert(!Set::<Seq<char>>::empty().contains(name));
    assert(reference_value(s, vars, Set::empty()) == expand_spec(vars[name], vars, once));
    assert(s[0] == '$');
    assert(expand_spec(s.skip(reference_end(s)), vars, Set::empty()) == Seq::<char>::empty());
    assert(expand_spec(s, vars, Set::empty()) == reference_value(s, vars, Set::empty())
        + expand_spec(s.skip(reference_end(s)), vars, Set::empty()));
    assert(vars[name] + Seq::<char>::empty() =~= vars[name]);
}

// ── quoting and redirects ───────────────────────────────────────────────────

/// The text of one piece of a command line: kind 1 is `w` in double quotes,
/// kind 2 is `w` in single quotes, any other kind is `w` unquoted.
pub open spec fn piece_text(p: (nat, Seq<char>)) -> Seq<char> {
    if p.0 == 1 {
        seq!['"'] + p.1 + seq!['"']
    } else if p.0 == 2 {
        seq!['\''] + p.1 + seq!['\'']
    } else {
        p.1
    }
}

/// A well-formed piece: a double-quoted text holds no `"` (single quotes are
/// fine), a single-quoted text holds no `'` (double quotes are fine), and
/// unquoted text is not empty and holds no quote and no `>`.
pub open spec fn piece_ok(p: (nat, Seq<char>)) -> bool {
    if p.0 == 1 {
        forall|i: int| 0 <= i < p.1.len() ==> p.1[i] != '"'
    } else if p.0 == 2 {
        forall|i: int| 0 <= i < p.1.len() ==> p.1[i] != '\''
    } else {
        &&& p.1.len() > 0
        &&& forall|i: int| 0 <= i < p.1.len() ==> p.1[i] != '"' && p.1[i] != '\'' && p.1[i] != '>'
    }
}

/// The pieces written one after another.
pub open spec fn pieces_text(ps: Seq<(nat, Seq<char>)>) -> Seq<char>
    decreases ps.len(),
{
    if ps.len() == 0 {
        seq![]
    } else {
        pieces_text(ps.drop_last()) + piece_text(ps.last())
    }
}

/// The scan has found nothing and stands outside quotes.
pub open spec fn scan_idle(st: RedirectScan) -> bool {
    &&& !st.in_single
    &&& !st.in_double
    &&& st.mode is None
    &&& st.filename.len() == 0
    &&& !st.append
    &&& !st.skip
}

proof fn lemma_piece_scan(s: Seq<char>, base: nat, p: (nat, Seq<char>))
    requires
        piece_ok(p),
        base + piece_text(p).len() <= s.len(),
        s.subrange(base as int, (base + piece_text(p).len()) as int) == piece_text(p),
        base + piece_text(p).len() == s.len() || s[(base + piece_text(p).len()) as int] != '>',
        scan_idle(redirect_run(s, base)),
    ensures
        scan_idle(redirect_run(s, base + piece_text(p).len())),
{
    let t = piece_text(p);
    let w = p.1;
    assert forall|j: int| 0 <= j < t.len() implies s[base + j] == #[trigger] t[j] by {
        assert(s.subrange(base as int, (base + t.len()) as int)[j] == s[base + j]);
    }
    if p.0 == 1 || p.0 == 2 {
        let q: char = if p.0 == 1 { '"' } else { '\'' };
        assert(t[0] == q);
        lemma_quoted_scan(s, base, w, q, w.len(), t);
        assert(t[w.len() + 1int] == q);
        assert(redirect_run(s, base + t.len()) == redirect_step(
            s,
            base + w.len() + 1int,
            redirect_run(s, base + 1 + w.len()),
        ));
    } else {
        assert(t == w);
        lemma_plain_scan(s, base, w, w.len());
    }
}

proof fn lemma_quoted_scan(s: Seq<char>, base: nat, w: Seq<char>, q: char, j: nat, t: Seq<char>)
    requires
        q == '"' || q == '\'',
        t == seq![q] + w + seq![q],
        forall|i: int| 0 <= i < w.len() ==> w[i] != q,
        base + t.len() <= s.len(),
        forall|k: int| 0 <= k < t.len() ==> s[base + k] == #[trigger] t[k],
        scan_idle(redirect_run(s, base)),
        j <= w.len(),
    ensures
        ({
            let st = redirect_run(s, base + 1 + j);
            &&& !st.skip && st.mode is None && st.filename.len() == 0 && !st.append
            &&& st.in_double == (q == '"')
            &&& st.in_single == (q == '\'')
        }),
    decreases j,
{
    if j == 0 {
        assert(s[base as int] == t[0]);
    } else {
        lemma_quoted_scan(s, base, w, q, (j - 1) as nat, t);
        assert(t[j as int] == w[j - 1]);
        assert(s[base + j as int] == t[j as int]);
    }
}

proof fn lemma_plain_scan(s: Seq<char>, base: nat, w: Seq<char>, j: nat)
    requires
        w.len() > 0,
        forall|i: int| 0 <= i < w.len() ==> w[i] != '"' && w[i] != '\'' && w[i] != '>',
        base + w.len() <= s.len(),
        forall|k: int| 0 <= k < w.len() ==> s[base + k] == #[trigger] w[k],
        base + w.len() == s.len() || s[(base + w.len()) as int] != '>',
        scan_idle(redirect_run(s, base)),
        j <= w.len(),
    ensures
        scan_idle(redirect_run(s, base + j)),
    decreases j,
{
    if j > 0 {
        lemma_plain_scan(s, base, w, (j - 1) as nat);
        let i = base + j - 1;
        assert(s[i] == w[j - 1]);
        if j < w.len() {
            assert(s[i + 1] == w[j as int]);
        }
    }
}

proof fn lemma_pieces_scan(s: Seq<char>, ps: Seq<(nat, Seq<char>)>)
    requires
        forall|k: int| 0 <= k < ps.len() ==> piece_ok(#[trigger] ps[k]),
        pieces_text(ps).len() <= s.len(),
        s.take(pieces_text(ps).len() as int) == pieces_text(ps),
        pieces_text(ps).len() == s.len() || s[pieces_text(ps).len() as int] != '>',
    ensures
        scan_idle(redirect_run(s, pieces_text(ps).len())),
    decreases ps.len(),
{
    if ps.len() > 0 {
        let init = ps.drop_last();
        let last = ps.last();
        assert(piece_ok(last)) by {
            assert(ps[ps.len() - 1] == last);
        }
        assert forall|k: int| 0 <= k < init.len() implies piece_ok(#[trigger] init[k]) by {
            assert(init[k] == ps[k]);
        }
        let a = pieces_text(init);
        let t = piece_text(last);
        assert(pieces_text(ps) == a + t);
        assert(s.take(a.len() as int) =~= a) by {
            assert forall|k: int| 0 <= k < a.len() implies s.take(a.len() as int)[k] == a[k] by {
                assert(s.take(pieces_text(ps).len() as int)[k] == (a + t)[k]);
            }
        }
        assert(t.len() > 0 && t[0] != '>') by {
            if last.0 != 1 && last.0 != 2 {
                assert(t[0] == last.1[0]);
            }
        }
        assert(s[a.len() as int] == t[0]) by {
            assert(s.take(pieces_text(ps).len() as int)[a.len() as int] == (a + t)[a.len() as int]);
        }
        lemma_pieces_scan(s, init);
        assert(s.subrange(a.len() as int, (a.len() + t.len()) as int) =~= t) by {
            assert forall|k: int| 0 <= k < t.len() implies s.subrange(
                a.len() as int,
                (a.len() + t.len()) as int,
            )[k] == t[k] by {
                assert(s.take(pieces_text(ps).len() as int)[a.len() + k] == (a + t)[a.len() + k]);
            }
        }
        lemma_piece_scan(s, a.len(), last);
    }
}

proof fn lemma_target_scan(s: Seq<char>, n: nat, f: Seq<char>, k: nat)
    requires
        n + 3 + f.len() == s.len(),
        s == s.take(n as int) + seq![' ', '>', ' '] + f,
        scan_idle(redirect_run(s, n)),
        k <= f.len(),
    ensures
        redirect_run(s, n + 3 + k).mode == Some(RedirectMode::Stdout),
        redirect_run(s, n + 3 + k).filename == seq![' '] + f.take(k as int),
        !redirect_run(s, n + 3 + k).append,
        !redirect_run(s, n + 3 + k).skip,
        redirect_run(s, n + 3 + k).index == utf8_len(s.take(n + 1int)),
    decreases k,
{
    assert(s[n as int] == (s.take(n as int) + seq![' ', '>', ' '] + f)[n as int]);
    assert(s[n as int] == ' ');
    assert(s[n + 1int] == (s.take(n as int) + seq![' ', '>', ' '] + f)[n + 1int]);
    assert(s[n + 1int] == '>');
    assert(s[n + 2int] == (s.take(n as int) + seq![' ', '>', ' '] + f)[n + 2int]);
    assert(s[n + 2int] == ' ');
    let r1 = redirect_run(s, n + 1);
    let r2 = redirect_run(s, n + 2);
    assert(r1 == redirect_step(s, n as int, redirect_run(s, n)));
    assert(scan_idle(r1));
    assert(r2 == redirect_step(s, n + 1int, r1));
    assert(r2.mode == Some(RedirectMode::Stdout));
    assert(r2.index == utf8_len(s.take(n + 1int)));
    assert(redirect_run(s, n + 3) == redirect_step(s, n + 2int, r2));
    if k == 0 {
        assert(seq![' '] + f.take(0) =~= seq![' ']);
        assert(redirect_run(s, n + 2).filename.len() == 0);
        assert(redirect_run(s, n + 3).filename =~= Seq::<char>::empty().push(' '));
    } else {
        lemma_target_scan(s, n, f, (k - 1) as nat);
        assert(s[n + 3 + k - 1] == (s.take(n as int) + seq![' ', '>', ' '] + f)[n + 3 + k - 1]);
        assert(s[n + 3 + k - 1] == f[k - 1]);
        assert(seq![' '] + f.take(k as int) =~= (seq![' '] + f.take(k - 1)).push(f[k - 1]));
    }
}

/// A command line made of well-quoted pieces (double-quoted text may hold
/// single quotes and the other way round; unquoted text holds no `>`),
/// then ` > ` and a file name, redirects standard output, without appending,
/// to the trimmed file name, from the byte offset of that `>`.
pub proof fn law_redirect_after_quoted_text(
    r: RedirectInfo,
    ps: Seq<(nat, Seq<char>)>,
    f: Seq<char>,
)
    requires
        forall|k: int| 0 <= k < ps.len() ==> piece_ok(#[trigger] ps[k]),
        utf8_len(pieces_text(ps) + seq![' ', '>', ' '] + f) <= usize::MAX,
        describes_redirect(r, pieces_text(ps) + seq![' ', '>', ' '] + f),
    ensures
        r.redirect_stdout_file matches Some(name) && name@ == trim_seq(f),
        r.redirect_stderr_file is None,
        r.file_index_start == Some((utf8_len(pieces_text(ps)) + 1) as usize),
        !r.append_stdout,
{
    let p = pieces_text(ps);
    let s = p + seq![' ', '>', ' '] + f;
    let n = p.len();
    assert(s.take(n as int) =~= p);
    assert(s[n as int] == ' ');
    lemma_pieces_scan(s, ps);
    assert(s =~= s.take(n as int) + seq![' ', '>', ' '] + f);
    lemma_target_scan(s, n, f, f.len());
    assert(f.take(f.len() as int) =~= f);
    assert(s.len() == n + 3 + f.len());
    crate::text::lemma_utf8_len_step(s, n as int);
    lemma_utf8_len_prefix(s, n + 1int);
    crate::text::lemma_trim_start_concat(seq![' '], f);
    assert(seq![' '].drop_first() =~= Seq::<char>::empty());
    assert(trim_start_seq(seq![' ']) == trim_start_seq(seq![' '].drop_first()));
}

} // verus!
