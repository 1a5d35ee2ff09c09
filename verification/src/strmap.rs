//! A finite map from strings to strings, the shape of the shell's variable
//! table and of its completion-script registry.

use vstd::prelude::*;
use vstd::hash_map::StringHashMap;

verus! {

/// A map from strings to strings; its keys always form a finite set.
pub struct StrMap {
    map: StringHashMap<String>,
}

impl View for StrMap {
    type V = Map<Seq<char>, Seq<char>>;

    closed spec fn view(&self) -> Map<Seq<char>, Seq<char>> {
        Map::new(|k: Seq<char>| self.map@.contains_key(k), |k: Seq<char>| self.map@[k]@)
    }
}

impl StrMap {
    #[verifier::type_invariant]
    spec fn finite_keys(self) -> bool {
        self.map@.dom().finite()
    }

    proof fn lemma_view_dom(&self)
        ensures
            self@.dom() == self.map@.dom(),
            forall|k: Seq<char>| self.map@.contains_key(k) ==> self@[k] == #[trigger] self.map@[k]@,
    {
        assert(self@.dom() =~= self.map@.dom());
    }

    /// An empty map.
    pub fn new() -> (r: StrMap)
        ensures
            r@ == Map::<Seq<char>, Seq<char>>::empty(),
            r@.dom().finite(),
    {
        let r = StrMap { map: StringHashMap::new() };
        proof {
            r.lemma_view_dom();
        }
        assert(r@ =~= Map::<Seq<char>, Seq<char>>::empty());
        r
    }

    /// Maps `k` to `v`, replacing any earlier value of `k`.
    pub fn insert(&mut self, k: String, v: String)
        ensures
            final(self)@ == old(self)@.insert(k@, v@),
            final(self)@.dom().finite(),
    {
        proof {
            use_type_invariant(&*self);
            self.lemma_view_dom();
        }
        let ghost old_view = self@;
        let mut m = StringHashMap::new();
        std::mem::swap(&mut m, &mut self.map);
        m.insert(k, v);
        self.map = m;
        proof {
            self.lemma_view_dom();
        }
        assert(self@ =~= old_view.insert(k@, v@));
    }

    /// Removes `k`; nothing changes when it is absent.
    pub fn remove(&mut self, k: &str)
        ensures
            final(self)@ == old(self)@.remove(k@),
            final(self)@.dom().finite(),
    {
        proof {
            use_type_invariant(&*self);
            self.lemma_view_dom();
        }
        let ghost old_view = self@;
        let mut m = StringHashMap::new();
        std::mem::swap(&mut m, &mut self.map);
        m.remove(k);
        self.map = m;
        proof {
            self.lemma_view_dom();
        }
        assert(self@ =~= old_view.remove(k@));
    }

    /// The value of `k`, if any.
    pub fn get(&self, k: &str) -> (r: Option<&String>)
        ensures
            self@.dom().finite(),
            match r {
                Some(v) => self@.contains_key(k@) && v@ == self@[k@],
                None => !self@.contains_key(k@),
            },
    {
        proof {
            use_type_invariant(self);
            self.lemma_view_dom();
        }
        self.map.get(k)
    }

    /// Makes the finiteness of the key set, which every map keeps, known to
    /// the caller's proof.
    pub(crate) fn finite_domain(&self)
        ensures
            self@.dom().finite(),
    {
        proof {
            use_type_invariant(self);
            self.lemma_view_dom();
        }
    }
}

} // verus!
