//! Tab completion: which words the line editor offers for the text before
//! the cursor, in which order, and what each one inserts.

use vstd::prelude::*;
use crate::complete::Complete;
use crate::constants::{shell_builtins, shell_builtins_list};
use crate::text::{
    byte_boundary, char_at_byte, char_index_of_byte, chars_of, len_utf8, push_char, split_on,
    split_on_char, split_whitespace, starts_with, string_of, strings_view, sub_vec, utf8_len,
    words,
};
use crate::utils::lemma_utf8_len_prefix;

verus! {

/// One completion offered to the line editor: the text the list shows and the
/// text that replaces the word under the cursor.
pub struct Candidate {
    pub display: String,
    pub replacement: String,
}

/// The candidates as pairs of display and replacement text.
pub open spec fn pairs_view(v: Seq<Candidate>) -> Seq<(Seq<char>, Seq<char>)> {
    v.map_values(|c: Candidate| (c.display@, c.replacement@))
}

/// `a < b` for strings: lexicographic by code point, which is the byte order
/// of their UTF-8 encodings that `String`'s `Ord` uses.
pub open spec fn text_less(a: Seq<char>, b: Seq<char>) -> bool
    decreases a.len(),
{
    if b.len() == 0 {
        false
    } else if a.len() == 0 {
        true
    } else if a[0] != b[0] {
        a[0] < b[0]
    } else {
        text_less(a.drop_first(), b.drop_first())
    }
}

pub proof fn lemma_text_less_irreflexive(a: Seq<char>)
    ensures
        !text_less(a, a),
    decreases a.len(),
{
    if a.len() > 0 {
        lemma_text_less_irreflexive(a.drop_first());
    }
}

pub proof fn lemma_text_less_transitive(a: Seq<char>, b: Seq<char>, c: Seq<char>)
    requires
        text_less(a, b),
        text_less(b, c),
    ensures
        text_less(a, c),
    decreases a.len(),
{
    if a.len() > 0 && b.len() > 0 && c.len() > 0 && a[0] == b[0] && b[0] == c[0] {
        lemma_text_less_transitive(a.drop_first(), b.drop_first(), c.drop_first());
    }
}

pub proof fn lemma_text_less_total(a: Seq<char>, b: Seq<char>)
    requires
        a != b,
    ensures
        text_less(a, b) || text_less(b, a),
    decreases a.len(),
{
    if a.len() == 0 && b.len() == 0 {
        assert(a =~= b);
    } else if a.len() > 0 && b.len() > 0 && a[0] == b[0] {
        if a.drop_first() == b.drop_first() {
            assert(a =~= seq![a[0]] + a.drop_first());
            assert(b =~= seq![b[0]] + b.drop_first());
        } else {
            lemma_text_less_total(a.drop_first(), b.drop_first());
        }
    }
}

/// Whether `a` sorts before `b`.
fn text_lt(a: &Vec<char>, b: &Vec<char>) -> (r: bool)
    ensures
        r == text_less(a@, b@),
{
    let mut i: usize = 0;
    assert(a@.skip(0) =~= a@);
    assert(b@.skip(0) =~= b@);
    while i < a.len() && i < b.len()
        invariant
            i <= a@.len(),
            i <= b@.len(),
            text_less(a@, b@) == text_less(a@.skip(i as int), b@.skip(i as int)),
        decreases a.len() - i,
    {
        if a[i] != b[i] {
            return a[i] < b[i];
        }
        assert(a@.skip(i as int).drop_first() =~= a@.skip(i + 1));
        assert(b@.skip(i as int).drop_first() =~= b@.skip(i + 1));
        i = i + 1;
    }
    i < b.len()
}

/// The entries of `s` whose display text is `k`, in order.
pub open spec fn with_display(s: Seq<(Seq<char>, Seq<char>)>, k: Seq<char>) -> Seq<(Seq<char>, Seq<char>)>
    decreases s.len(),
{
    if s.len() == 0 {
        seq![]
    } else if s.last().0 == k {
        with_display(s.drop_last(), k).push(s.last())
    } else {
        with_display(s.drop_last(), k)
    }
}

/// No entry of `s` is displayed after one that sorts later.
pub open spec fn sorted_by_display(s: Seq<(Seq<char>, Seq<char>)>) -> bool {
    forall|i: int, j: int| 0 <= i < j < s.len() ==> !text_less(#[trigger] s[j].0, #[trigger] s[i].0)
}

/// `r` is `s` sorted by display text, entries with the same display keeping
/// their order (`sort_by` on the displays, which is stable).
pub open spec fn sorted_from(r: Seq<(Seq<char>, Seq<char>)>, s: Seq<(Seq<char>, Seq<char>)>) -> bool {
    &&& sorted_by_display(r)
    &&& forall|k: Seq<char>| #[trigger] with_display(r, k) == with_display(s, k)
}

proof fn lemma_with_display_add(a: Seq<(Seq<char>, Seq<char>)>, b: Seq<(Seq<char>, Seq<char>)>, k: Seq<char>)
    ensures
        with_display(a + b, k) == with_display(a, k) + with_display(b, k),
    decreases b.len(),
{
    if b.len() == 0 {
        assert(a + b =~= a);
        assert(with_display(a, k) + with_display(b, k) =~= with_display(a, k));
    } else {
        assert((a + b).drop_last() =~= a + b.drop_last());
        lemma_with_display_add(a, b.drop_last(), k);
        if b.last().0 == k {
            assert(with_display(a, k) + with_display(b.drop_last(), k).push(b.last()) =~= (
            with_display(a, k) + with_display(b.drop_last(), k)).push(b.last()));
        }
    }
}

proof fn lemma_with_display_none(s: Seq<(Seq<char>, Seq<char>)>, k: Seq<char>)
    requires
        forall|j: int| 0 <= j < s.len() ==> (#[trigger] s[j]).0 != k,
    ensures
        with_display(s, k) == Seq::<(Seq<char>, Seq<char>)>::empty(),
    decreases s.len(),
{
    if s.len() > 0 {
        assert(s.last() == s[s.len() - 1]);
        lemma_with_display_none(s.drop_last(), k);
    }
}

/// One step of a stable insertion: `x` goes after every entry that does not
/// sort after it.
proof fn lemma_insert_sorted(r: Seq<(Seq<char>, Seq<char>)>, p: int, x: (Seq<char>, Seq<char>))
    requires
        0 <= p <= r.len(),
        sorted_by_display(r),
        forall|i: int| 0 <= i < p ==> !text_less(x.0, (#[trigger] r[i]).0),
        p < r.len() ==> text_less(x.0, r[p].0),
    ensures
        sorted_by_display(r.take(p).push(x) + r.skip(p)),
        forall|k: Seq<char>| #[trigger] with_display(r.take(p).push(x) + r.skip(p), k)
            == if x.0 == k {
            with_display(r, k).push(x)
        } else {
            with_display(r, k)
        },
{
    let n = r.take(p).push(x) + r.skip(p);
    assert forall|j: int| p <= j < r.len() implies text_less(x.0, (#[trigger] r[j]).0) by {
        if j > p {
            if r[j].0 != r[p].0 {
                lemma_text_less_total(r[j].0, r[p].0);
                lemma_text_less_transitive(x.0, r[p].0, r[j].0);
            }
        }
    }
    assert forall|i: int, j: int| 0 <= i < j < n.len() implies !text_less(
        #[trigger] n[j].0,
        #[trigger] n[i].0,
    ) by {
        if i < p && j == p {
        } else if i < p && j > p {
            assert(n[j] == r[j - 1]);
            assert(r[i] == n[i]);
        } else if i == p {
            assert(n[j] == r[j - 1]);
            if text_less(r[j - 1].0, x.0) {
                lemma_text_less_transitive(r[j - 1].0, x.0, r[j - 1].0);
                lemma_text_less_irreflexive(r[j - 1].0);
            }
        } else if i > p {
            assert(n[j] == r[j - 1]);
            assert(n[i] == r[i - 1]);
        } else {
            assert(n[j] == r[j]);
            assert(n[i] == r[i]);
        }
    }
    assert forall|k: Seq<char>| #[trigger] with_display(n, k) == if x.0 == k {
        with_display(r, k).push(x)
    } else {
        with_display(r, k)
    } by {
        let a = r.take(p);
        let b = r.skip(p);
        assert(r =~= a + b);
        lemma_with_display_add(a, b, k);
        lemma_with_display_add(a.push(x), b, k);
        assert(a.push(x).drop_last() =~= a);
        if x.0 == k {
            assert forall|j: int| 0 <= j < b.len() implies (#[trigger] b[j]).0 != k by {
                assert(b[j] == r[p + j]);
                lemma_text_less_irreflexive(k);
            }
            lemma_with_display_none(b, k);
            assert(with_display(a, k).push(x) + with_display(b, k) =~= with_display(a, k).push(x));
            assert(with_display(a, k) + with_display(b, k) =~= with_display(a, k));
        }
    }
}

/// The candidates sorted by display text, stably (`sort_by` comparing the
/// displays).
pub fn sort_candidates(v: &Vec<Candidate>) -> (r: Vec<Candidate>)
    ensures
        sorted_from(pairs_view(r@), pairs_view(v@)),
{
    let mut r: Vec<Candidate> = Vec::new();
    let mut i: usize = 0;
    while i < v.len()
        invariant
            i <= v@.len(),
            sorted_by_display(pairs_view(r@)),
            forall|k: Seq<char>| #[trigger] with_display(pairs_view(r@), k) == with_display(
                pairs_view(v@.take(i as int)),
                k,
            ),
        decreases v.len() - i,
    {
        let display = v[i].display.clone();
        let replacement = v[i].replacement.clone();
        let key = chars_of(display.as_str());
        let ghost x = (display@, replacement@);
        let ghost rv = pairs_view(r@);
        let mut p: usize = 0;
        loop
            invariant
                p <= r@.len(),
                rv == pairs_view(r@),
                key@ == x.0,
                forall|j: int| 0 <= j < p ==> !text_less(x.0, (#[trigger] rv[j]).0),
            ensures
                p <= r@.len(),
                forall|j: int| 0 <= j < p ==> !text_less(x.0, (#[trigger] rv[j]).0),
                p < r@.len() ==> text_less(x.0, rv[p as int].0),
            decreases r.len() - p,
        {
            if p == r.len() {
                break;
            }
            let other = chars_of(r[p].display.as_str());
            if text_lt(&key, &other) {
                break;
            }
            p = p + 1;
        }
        proof {
            lemma_insert_sorted(rv, p as int, x);
        }
        r.insert(p, Candidate { display, replacement });
        assert(pairs_view(r@) =~= rv.take(p as int).push(x) + rv.skip(p as int));
        assert(pairs_view(v@.take(i + 1)) =~= pairs_view(v@.take(i as int)).push(x));
        assert(pairs_view(v@.take(i as int)).push(x).drop_last() =~= pairs_view(v@.take(i as int)));
        assert forall|k: Seq<char>| #[trigger] with_display(pairs_view(r@), k) == with_display(
            pairs_view(v@.take(i + 1)),
            k,
        ) by {
            assert(with_display(rv.take(p as int).push(x) + rv.skip(p as int), k) == if x.0 == k {
                with_display(rv, k).push(x)
            } else {
                with_display(rv, k)
            });
        }
        i = i + 1;
    }
    assert(v@.take(v@.len() as int) =~= v@);
    r
}

/// `l` without one trailing carriage return.
pub open spec fn strip_cr(l: Seq<char>) -> Seq<char> {
    if l.len() > 0 && l.last() == '\r' {
        l.drop_last()
    } else {
        l
    }
}

/// The lines of `s` (`str::lines`): split at `\n` or `\r\n`, a final line
/// ending adding no empty line.
pub open spec fn lines_of(s: Seq<char>) -> Seq<Seq<char>> {
    let p = split_on(s, '\n');
    let body = p.drop_last().map_values(|l: Seq<char>| strip_cr(l));
    if p.last().len() == 0 {
        body
    } else {
        body.push(p.last())
    }
}

/// The words of `ws` that start with `pre`, in order, each offered as itself
/// followed by a space.
pub open spec fn offered(ws: Seq<Seq<char>>, pre: Seq<char>) -> Seq<(Seq<char>, Seq<char>)>
    decreases ws.len(),
{
    if ws.len() == 0 {
        seq![]
    } else if pre.is_prefix_of(ws.last()) {
        offered(ws.drop_last(), pre).push((ws.last(), ws.last().push(' ')))
    } else {
        offered(ws.drop_last(), pre)
    }
}

/// The lines of `s`.
pub fn lines(s: &str) -> (r: Vec<String>)
    ensures
        strings_view(r@) == lines_of(s@),
{
    let v = chars_of(s);
    let pieces = split_on_char(&v, '\n');
    let ghost p = split_on(s@, '\n');
    assert(strings_view(pieces@).len() == pieces@.len());
    let n = pieces.len();
    let mut r: Vec<String> = Vec::new();
    let mut j: usize = 0;
    while j + 1 < n
        invariant
            n == pieces@.len(),
            n >= 1,
            j < n,
            strings_view(pieces@) == p,
            strings_view(r@) == p.take(j as int).map_values(|l: Seq<char>| strip_cr(l)),
        decreases n - j,
    {
        let c = chars_of(pieces[j].as_str());
        assert(c@ == p[j as int]);
        let line = if c.len() > 0 && c[c.len() - 1] == '\r' {
            assert(c@.subrange(0, c@.len() - 1) =~= c@.drop_last());
            string_of(&c, 0, c.len() - 1)
        } else {
            pieces[j].clone()
        };
        assert(line@ == strip_cr(p[j as int]));
        let ghost before = strings_view(r@);
        r.push(line);
        assert(strings_view(r@) =~= before.push(line@));
        assert(strings_view(r@) =~= p.take(j + 1).map_values(|l: Seq<char>| strip_cr(l)));
        j = j + 1;
    }
    assert(p.take(j as int) =~= p.drop_last());
    let last = pieces[n - 1].clone();
    assert(last@ == p.last());
    if !last.as_str().is_empty() {
        r.push(last);
        assert(strings_view(r@) =~= p.drop_last().map_values(|l: Seq<char>| strip_cr(l)).push(
            p.last(),
        ));
    }
    r
}

/// The candidate that inserts `w` and a space.
fn word_candidate(w: &String) -> (c: Candidate)
    ensures
        c.display@ == w@,
        c.replacement@ == w@.push(' '),
{
    let mut replacement = w.clone();
    push_char(&mut replacement, ' ');
    Candidate { display: w.clone(), replacement }
}

/// The words of `ws` that start with `pre`, each offered with a space after it.
fn offer_words(ws: &Vec<String>, pre: &Vec<char>) -> (r: Vec<Candidate>)
    ensures
        pairs_view(r@) == offered(strings_view(ws@), pre@),
{
    let mut r: Vec<Candidate> = Vec::new();
    let mut i: usize = 0;
    while i < ws.len()
        invariant
            i <= ws@.len(),
            pairs_view(r@) == offered(strings_view(ws@.take(i as int)), pre@),
        decreases ws.len() - i,
    {
        let w = chars_of(ws[i].as_str());
        assert(strings_view(ws@.take(i + 1)).drop_last() =~= strings_view(ws@.take(i as int)));
        assert(strings_view(ws@.take(i + 1)).last() == ws@[i as int]@);
        if starts_with(&w, pre) {
            let c = word_candidate(&ws[i]);
            r.push(c);
            assert(pairs_view(r@) =~= offered(strings_view(ws@.take(i + 1)), pre@));
        }
        i = i + 1;
    }
    assert(ws@.take(ws@.len() as int) =~= ws@);
    r
}

/// What a completion script printed, kept where it starts with the word being
/// completed, one candidate per line, in the script's order.
pub fn script_candidates(stdout: &str, token: &str) -> (r: Vec<Candidate>)
    ensures
        pairs_view(r@) == offered(lines_of(stdout@), token@),
{
    let ls = lines(stdout);
    let pre = chars_of(token);
    offer_words(&ls, &pre)
}

/// The command names that start with `prefix`, sorted.
pub fn command_candidates(executables: &Vec<String>, prefix: &str) -> (r: Vec<Candidate>)
    ensures
        sorted_from(pairs_view(r@), offered(strings_view(executables@), prefix@)),
{
    let pre = chars_of(prefix);
    let found = offer_words(executables, &pre);
    sort_candidates(&found)
}

/// The words completed in command position: the built-in names, then the
/// executables found on the search path.
pub fn completion_words(externals: &Vec<String>) -> (r: Vec<String>)
    ensures
        strings_view(r@) == shell_builtins() + strings_view(externals@),
{
    let names = shell_builtins_list();
    let mut r: Vec<String> = Vec::new();
    let mut i: usize = 0;
    while i < names.len()
        invariant
            i <= names@.len(),
            names@.len() == shell_builtins().len(),
            forall|k: int| 0 <= k < names@.len() ==> (#[trigger] names@[k])@ == shell_builtins()[k],
            strings_view(r@) == shell_builtins().take(i as int),
        decreases names.len() - i,
    {
        let name = names[i].to_owned();
        assert(name@ == shell_builtins()[i as int]);
        let ghost before = strings_view(r@);
        r.push(name);
        assert(strings_view(r@) =~= before.push(name@));
        assert(strings_view(r@) =~= shell_builtins().take(i + 1));
        i = i + 1;
    }
    let mut j: usize = 0;
    while j < externals.len()
        invariant
            j <= externals@.len(),
            strings_view(r@) == shell_builtins() + strings_view(externals@.take(j as int)),
        decreases externals.len() - j,
    {
        let name = externals[j].clone();
        assert(name@ == externals@[j as int]@);
        let ghost before = strings_view(r@);
        r.push(name);
        assert(strings_view(r@) =~= before.push(name@));
        assert(strings_view(r@) =~= shell_builtins() + strings_view(externals@.take(j + 1)));
        j = j + 1;
    }
    assert(externals@.take(externals@.len() as int) =~= externals@);
    r
}

/// A file-name replacement as offered: a space is added unless it names a
/// directory (ends with `/`).
pub fn finish_replacement(s: String) -> (r: String)
    ensures
        r@ == if s@.len() > 0 && s@.last() == '/' {
            s@
        } else {
            s@.push(' ')
        },
{
    let v = chars_of(s.as_str());
    if v.len() > 0 && v[v.len() - 1] == '/' {
        s
    } else {
        let mut r = s;
        push_char(&mut r, ' ');
        r
    }
}

/// Position of the last space in `s`, or -1 when there is none.
pub open spec fn last_space(s: Seq<char>) -> int
    decreases s.len(),
{
    if s.len() == 0 {
        -1
    } else if s.last() == ' ' {
        s.len() - 1
    } else {
        last_space(s.drop_last())
    }
}

/// For the text `t` before the cursor, in argument position: the command
/// (its first word), the word being completed (after the last space) and the
/// word before that one.
pub open spec fn argument_context(t: Seq<char>) -> (Seq<char>, Seq<char>, Seq<char>) {
    let ws = words(t);
    let command = if ws.len() > 0 {
        ws[0]
    } else {
        seq![]
    };
    let previous = if t.len() > 0 && t.last() == ' ' {
        if ws.len() > 0 {
            ws.last()
        } else {
            seq![]
        }
    } else if ws.len() >= 2 {
        ws[ws.len() - 2]
    } else {
        seq![]
    };
    (command, t.skip(last_space(t) + 1), previous)
}

/// The text of `line` before byte offset `pos`.
pub open spec fn before_cursor(line: Seq<char>, pos: nat) -> Seq<char> {
    line.take(char_at_byte(line, pos))
}

/// What the line editor does on a completion request.
pub enum CompletionPlan {
    /// Offer nothing.
    Nothing,
    /// Offer `candidates`, each replacing the text from byte `start` up to
    /// the cursor.
    Offer { start: usize, candidates: Vec<Candidate> },
    /// Run the completion `script` with `args`; the lines it prints that start
    /// with `token` are offered from byte `start` (see `script_candidates`);
    /// if it cannot be run, complete file names instead.
    RunScript { start: usize, script: String, args: Vec<String>, token: String },
    /// Complete file names.
    Files,
}

/// The decision on a completion request for `line` with the cursor at byte
/// `pos`: command names while the cursor is in the first word, the
/// registered script of the command in argument position, file names
/// otherwise.
pub fn plan_completion(line: &str, pos: usize, executables: &Vec<String>, complete: &Complete) -> (r: CompletionPlan)
    requires
        byte_boundary(line@, pos as nat),
    ensures
        ({
            let t = before_cursor(line@, pos as nat);
            let (command, token, previous) = argument_context(t);
            let scripted = complete.scripts@.contains_key(command)
                && complete.scripts@[command].len() > 0;
            match r {
                CompletionPlan::Nothing => last_space(t) < 0 && t.len() == 0,
                CompletionPlan::Offer { start, candidates } => last_space(t) < 0 && t.len() > 0
                    && start == 0 && sorted_from(
                    pairs_view(candidates@),
                    offered(strings_view(executables@), t),
                ),
                CompletionPlan::RunScript { start, script, args, token: tok } => last_space(t)
                    >= 0 && scripted && start == utf8_len(t.take(last_space(t) + 1)) && script@
                    == complete.scripts@[command] && strings_view(args@) == seq![
                    command,
                    token,
                    previous,
                ] && tok@ == token,
                CompletionPlan::Files => last_space(t) >= 0 && !scripted,
            }
        }),
{
    let v = chars_of(line);
    let k = match char_index_of_byte(&v, pos) {
        Some(k) => k,
        None => {
            return CompletionPlan::Nothing;
        },
    };
    let t = sub_vec(&v, 0, k);
    assert(t@ == before_cursor(line@, pos as nat));
    let mut j: usize = t.len();
    assert(t@.take(t@.len() as int) =~= t@);
    while j > 0 && t[j - 1] != ' '
        invariant
            j <= t@.len(),
            last_space(t@) == last_space(t@.take(j as int)),
        decreases j,
    {
        assert(t@.take(j as int).drop_last() =~= t@.take(j - 1));
        j = j - 1;
    }
    assert(t@.take(t@.len() as int) =~= t@);
    if j == 0 {
        assert(t@.take(0) =~= Seq::<char>::empty());
        if t.len() == 0 {
            return CompletionPlan::Nothing;
        }
        let prefix = string_of(&t, 0, t.len());
        assert(t@.subrange(0, t@.len() as int) =~= t@);
        let candidates = command_candidates(executables, prefix.as_str());
        return CompletionPlan::Offer { start: 0, candidates };
    }
    assert(t@.take(j as int).drop_last() =~= t@.take(j - 1));
    assert(last_space(t@) == j - 1);
    let mut start: usize = 0;
    let mut i: usize = 0;
    proof {
        lemma_utf8_len_prefix(v@, k as int);
    }
    while i < j
        invariant
            i <= j <= t@.len(),
            t@ == v@.take(k as int),
            utf8_len(t@) <= usize::MAX,
            start == utf8_len(t@.take(i as int)),
        decreases j - i,
    {
        proof {
            lemma_utf8_len_prefix(t@, i + 1);
            assert(t@.take(i + 1).drop_last() =~= t@.take(i as int));
        }
        start = start + len_utf8(t[i]);
        i = i + 1;
    }
    let ghost ctx = argument_context(t@);
    let text = string_of(&t, 0, t.len());
    assert(t@.subrange(0, t@.len() as int) =~= t@);
    let ws = split_whitespace(text.as_str());
    let token = string_of(&t, j, t.len());
    assert(t@.subrange(j as int, t@.len() as int) =~= t@.skip(j as int));
    let command = if ws.len() > 0 {
        ws[0].clone()
    } else {
        String::new()
    };
    let previous = if t[t.len() - 1] == ' ' {
        if ws.len() > 0 {
            ws[ws.len() - 1].clone()
        } else {
            String::new()
        }
    } else if ws.len() >= 2 {
        ws[ws.len() - 2].clone()
    } else {
        String::new()
    };
    assert(command@ == ctx.0);
    assert(previous@ == ctx.2);
    match complete.scripts.get(command.as_str()) {
        Some(script) => {
            if script.as_str().is_empty() {
                CompletionPlan::Files
            } else {
                let script = script.clone();
                let tok = token.clone();
                let args = vec![command, token, previous];
                assert(strings_view(args@) =~= seq![ctx.0, ctx.1, ctx.2]);
                CompletionPlan::RunScript { start, script, args, token: tok }
            }
        },
        None => CompletionPlan::Files,
    }
}

/// Every candidate offered for a typed prefix starts with that prefix and
/// inserts itself followed by a space; and every word that starts with the
/// prefix is offered.
pub proof fn law_offered_match_prefix(ws: Seq<Seq<char>>, pre: Seq<char>)
    ensures
        forall|i: int| 0 <= i < offered(ws, pre).len() ==> {
            let c = #[trigger] offered(ws, pre)[i];
            &&& pre.is_prefix_of(c.0)
            &&& c.1 == c.0.push(' ')
            &&& ws.contains(c.0)
        },
        forall|j: int| 0 <= j < ws.len() && pre.is_prefix_of(#[trigger] ws[j]) ==> offered(
            ws,
            pre,
        ).contains((ws[j], ws[j].push(' '))),
    decreases ws.len(),
{
    if ws.len() > 0 {
        let init = ws.drop_last();
        law_offered_match_prefix(init, pre);
        let r = offered(init, pre);
        assert forall|i: int| 0 <= i < offered(ws, pre).len() implies {
            let c = #[trigger] offered(ws, pre)[i];
            &&& pre.is_prefix_of(c.0)
            &&& c.1 == c.0.push(' ')
            &&& ws.contains(c.0)
        } by {
            if i < r.len() {
                assert(offered(ws, pre)[i] == r[i]);
                let k = choose|k: int| 0 <= k < init.len() && init[k] == r[i].0;
                assert(ws[k] == init[k]);
            } else {
                assert(ws[ws.len() - 1] == ws.last());
            }
        }
        assert forall|j: int| 0 <= j < ws.len() && pre.is_prefix_of(#[trigger] ws[j]) implies offered(
            ws,
            pre,
        ).contains((ws[j], ws[j].push(' '))) by {
            if j < init.len() {
                assert(init[j] == ws[j]);
                let k = choose|k: int| 0 <= k < r.len() && r[k] == (init[j], init[j].push(' '));
                assert(offered(ws, pre)[k] == r[k]);
            } else {
                let o = offered(ws, pre);
                assert(o[o.len() - 1] == (ws[j], ws[j].push(' ')));
            }
        }
    }
}

} // verus!
