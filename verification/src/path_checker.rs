//! Which directories are searched for executables, and the list of names
//! found there.

use vstd::prelude::*;
use crate::text::{chars_of, split_on, split_on_char, strings_view};
use crate::utils::contains_string;

verus! {

/// The directories named by a `PATH` value: the pieces between colons.
pub fn search_dirs(path_env: &str) -> (r: Vec<String>)
    ensures
        strings_view(r@) == split_on(path_env@, ':'),
{
    let v = chars_of(path_env);
    split_on_char(&v, ':')
}

/// `s` with every repeated entry removed, first occurrences kept in order.
pub open spec fn distinct(s: Seq<Seq<char>>) -> Seq<Seq<char>>
    decreases s.len(),
{
    if s.len() == 0 {
        seq![]
    } else if distinct(s.drop_last()).contains(s.last()) {
        distinct(s.drop_last())
    } else {
        distinct(s.drop_last()).push(s.last())
    }
}

proof fn lemma_distinct_set(s: Seq<Seq<char>>)
    ensures
        distinct(s).to_set() == s.to_set(),
        distinct(s).no_duplicates(),
    decreases s.len(),
{
    if s.len() > 0 {
        lemma_distinct_set(s.drop_last());
        let d = distinct(s.drop_last());
        assert(s =~= s.drop_last().push(s.last()));
        assert(s.to_set() =~= s.drop_last().to_set().insert(s.last())) by {
            assert forall|x: Seq<char>| s.to_set().contains(x) implies s.drop_last().to_set().insert(
                s.last(),
            ).contains(x) by {
                let i = choose|i: int| 0 <= i < s.len() && s[i] == x;
                if i < s.len() - 1 {
                    assert(s.drop_last()[i] == x);
                }
            }
            assert forall|x: Seq<char>| s.drop_last().to_set().insert(s.last()).contains(
                x,
            ) implies s.to_set().contains(x) by {
                if x != s.last() {
                    let i = choose|i: int| 0 <= i < s.drop_last().len() && s.drop_last()[i] == x;
                    assert(s[i] == x);
                } else {
                    assert(s[s.len() - 1] == x);
                }
            }
        }
        if d.contains(s.last()) {
            assert(d.to_set().contains(s.last()));
            assert(s.to_set() =~= d.to_set());
        } else {
            assert(d.push(s.last()).to_set() =~= d.to_set().insert(s.last())) by {
                assert forall|x: Seq<char>| d.push(s.last()).to_set().contains(x) implies d.to_set().insert(
                    s.last(),
                ).contains(x) by {
                    let i = choose|i: int| 0 <= i < d.len() + 1 && d.push(s.last())[i] == x;
                    if i < d.len() {
                        assert(d[i] == x);
                    }
                }
                assert forall|x: Seq<char>| d.to_set().insert(s.last()).contains(
                    x,
                ) implies d.push(s.last()).to_set().contains(x) by {
                    if x != s.last() {
                        let i = choose|i: int| 0 <= i < d.len() && d[i] == x;
                        assert(d.push(s.last())[i] == x);
                    } else {
                        assert(d.push(s.last())[d.len() as int] == x);
                    }
                }
            }
            assert forall|i: int, j: int|
                0 <= i < d.len() + 1 && 0 <= j < d.len() + 1 && i != j implies d.push(
                s.last(),
            )[i] != d.push(s.last())[j] by {
                if j == d.len() && i < d.len() {
                    assert(d.contains(d[i]));
                }
                if i == d.len() && j < d.len() {
                    assert(d.contains(d[j]));
                }
            }
        }
    } else {
        assert(s.to_set() =~= Set::<Seq<char>>::empty());
        assert(distinct(s).to_set() =~= Set::<Seq<char>>::empty());
    }
}

/// The names found, each once, in the order first found.
pub fn distinct_names(names: &Vec<String>) -> (r: Vec<String>)
    ensures
        strings_view(r@) == distinct(strings_view(names@)),
        strings_view(r@).no_duplicates(),
        strings_view(r@).to_set() == strings_view(names@).to_set(),
{
    let mut r: Vec<String> = Vec::new();
    let mut i: usize = 0;
    while i < names.len()
        invariant
            i <= names@.len(),
            strings_view(r@) == distinct(strings_view(names@.take(i as int))),
        decreases names.len() - i,
    {
        let ghost before = strings_view(r@);
        assert(strings_view(names@.take(i + 1)).drop_last() =~= strings_view(names@.take(i as int)));
        assert(strings_view(names@.take(i + 1)).last() == names@[i as int]@);
        proof {
            lemma_distinct_set(strings_view(names@.take(i as int)));
        }
        if !contains_string(&r, &names[i]) {
            let name = names[i].clone();
            r.push(name);
            assert(strings_view(r@) =~= before.push(names@[i as int]@));
        }
        i = i + 1;
    }
    assert(names@.take(names@.len() as int) =~= names@);
    proof {
        lemma_distinct_set(strings_view(names@));
    }
    r
}

} // verus!
