//! The interactive session around the commands: the history loaded at start
//! and the line read from the terminal.

use vstd::prelude::*;
use crate::builtins::{
    entry_commands, history_entry, history_entry_text, history_file_text, lemma_split_on_len,
};
use crate::text::{
    chars_of, join_with, lemma_non_empty_len, lemma_split_concat, lemma_split_join,
    non_empty, split_on, split_on_char, split_run, string_of, strings_view,
};

verus! {

/// The history a session starts with, given the text of the history file:
/// each non-empty line becomes an entry, numbered from 0.
pub open spec fn loaded_entries(content: Seq<char>) -> Seq<Seq<char>> {
    let lines = non_empty(split_on(content, '\n'));
    Seq::new(lines.len(), |i: int| history_entry_text(i as nat, lines[i]))
}

/// The history entries for the history file's text.
pub fn loaded_history(content: &str) -> (r: Vec<String>)
    ensures
        strings_view(r@) == loaded_entries(content@),
{
    let v = chars_of(content);
    let pieces = split_on_char(&v, '\n');
    let ghost p = split_on(content@, '\n');
    let ghost lines = non_empty(p);
    proof {
        lemma_split_on_len(v@, '\n');
    }
    let mut r: Vec<String> = Vec::new();
    let mut i: usize = 0;
    while i < pieces.len()
        invariant
            i <= pieces@.len(),
            pieces@.len() <= content@.len() + 1,
            strings_view(pieces@) == p,
            lines == non_empty(p),
            non_empty(p.take(i as int)).len() == r@.len(),
            strings_view(r@) == Seq::new(
                r@.len() as nat,
                |j: int| history_entry_text(j as nat, non_empty(p.take(i as int))[j]),
            ),
        decreases pieces.len() - i,
    {
        assert(p.take(i + 1).drop_last() =~= p.take(i as int));
        assert(p.take(i + 1).last() == pieces@[i as int]@);
        proof {
            lemma_non_empty_len(p.take(i as int));
        }
        if !pieces[i].as_str().is_empty() {
            let e = history_entry(r.len(), pieces[i].as_str());
            let ghost before = strings_view(r@);
            assert(non_empty(p.take(i + 1)) == non_empty(p.take(i as int)).push(pieces@[i as int]@));
            r.push(e);
            assert(strings_view(r@) =~= before.push(e@));
            assert(strings_view(r@) =~= Seq::new(
                r@.len() as nat,
                |j: int| history_entry_text(j as nat, non_empty(p.take(i + 1))[j]),
            ));
        } else {
            assert(strings_view(r@) =~= Seq::new(
                r@.len() as nat,
                |j: int| history_entry_text(j as nat, non_empty(p.take(i + 1))[j]),
            ));
        }
        i = i + 1;
    }
    assert(p.take(pieces@.len() as int) =~= p);
    assert(strings_view(r@) =~= loaded_entries(content@));
    r
}

/// `s` without the run of `c` at its end (`str::trim_end_matches(c)`).
pub open spec fn trim_end_char(s: Seq<char>, c: char) -> Seq<char>
    decreases s.len(),
{
    if s.len() > 0 && s.last() == c {
        trim_end_char(s.drop_last(), c)
    } else {
        s
    }
}

/// Number of characters left once the run of `c` at the end of `v[..n]` is
/// removed.
fn trim_end_len(v: &Vec<char>, n: usize, c: char) -> (k: usize)
    requires
        n <= v@.len(),
    ensures
        k <= n,
        v@.take(k as int) == trim_end_char(v@.take(n as int), c),
{
    let mut k = n;
    while k > 0 && v[k - 1] == c
        invariant
            k <= n <= v@.len(),
            trim_end_char(v@.take(n as int), c) == trim_end_char(v@.take(k as int), c),
        decreases k,
    {
        assert(v@.take(k as int).drop_last() =~= v@.take(k - 1));
        k = k - 1;
    }
    k
}

/// A line as read from the terminal, without its line ending: the trailing
/// newlines, then the trailing carriage returns, are removed.
pub fn strip_line_ending(line: &str) -> (r: String)
    ensures
        r@ == trim_end_char(trim_end_char(line@, '\n'), '\r'),
{
    let v = chars_of(line);
    assert(v@.take(v@.len() as int) =~= v@);
    let a = trim_end_len(&v, v.len(), '\n');
    let b = trim_end_len(&v, a, '\r');
    assert(v@.subrange(0, b as int) =~= v@.take(b as int));
    string_of(&v, 0, b)
}

/// Saving the history to its file and loading that file at the next start
/// gives back the recorded commands, the empty ones left out, as entries
/// numbered from 0.
pub proof fn law_history_file_roundtrip(history: Seq<Seq<char>>)
    requires
        forall|i: int, j: int|
            0 <= i < history.len() && 0 <= j < entry_commands(history)[i].len()
                ==> entry_commands(history)[i][j] != '\n',
    ensures
        loaded_entries(history_file_text(history)) == Seq::new(
            non_empty(entry_commands(history)).len(),
            |i: int| history_entry_text(i as nat, non_empty(entry_commands(history))[i]),
        ),
{
    let cmds = entry_commands(history);
    let text = join_with(cmds, seq!['\n']);
    let file = history_file_text(history);
    assert(file =~= text + seq!['\n'] + Seq::<char>::empty());
    lemma_split_concat(text, Seq::<char>::empty(), '\n');
    assert(split_run(Seq::<char>::empty(), '\n').done =~= Seq::<Seq<char>>::empty());
    let pieces = split_on(file, '\n');
    assert(pieces =~= split_on(text, '\n').push(Seq::<char>::empty()));
    if cmds.len() == 0 {
        assert(text =~= Seq::<char>::empty());
        assert(split_on(text, '\n') =~= seq![Seq::<char>::empty()]);
        assert(seq![Seq::<char>::empty()].drop_last() =~= Seq::<Seq<char>>::empty());
        assert(non_empty(Seq::<Seq<char>>::empty()) =~= Seq::<Seq<char>>::empty());
        assert(non_empty(seq![Seq::<char>::empty()]) =~= Seq::<Seq<char>>::empty());
        assert(non_empty(cmds) =~= Seq::<Seq<char>>::empty());
    } else {
        lemma_split_join(cmds, '\n');
    }
    assert(pieces.drop_last() == split_on(text, '\n'));
    assert(non_empty(pieces) == non_empty(cmds));
}

} // verus!
