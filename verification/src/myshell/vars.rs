//! A small string-to-string table used for the shell's local variables, its
//! aliases and its mirror of the process environment.  Lookup returns the
//! most recently inserted binding for a name, which is exactly the map view
//! the contracts speak of.

use crate::text::str_eq;
use vstd::prelude::*;

verus! {

/// The mathematical map described by a list of bindings in which earlier
/// entries shadow later ones.
pub open spec fn pairs_map(ps: Seq<(String, String)>) -> Map<Seq<char>, Seq<char>>
    decreases ps.len(),
{
    if ps.len() == 0 {
        Map::empty()
    } else {
        pairs_map(ps.drop_first()).insert(ps[0].0@, ps[0].1@)
    }
}

/// Front-to-back lookup over a list of bindings.
pub open spec fn lookup_pairs(ps: Seq<(String, String)>, name: Seq<char>) -> Option<Seq<char>>
    decreases ps.len(),
{
    if ps.len() == 0 {
        None
    } else if ps[0].0@ == name {
        Some(ps[0].1@)
    } else {
        lookup_pairs(ps.drop_first(), name)
    }
}

proof fn lemma_lookup_matches_map(ps: Seq<(String, String)>, name: Seq<char>)
    ensures
        pairs_map(ps).contains_key(name) <==> lookup_pairs(ps, name) is Some,
        pairs_map(ps).contains_key(name) ==> lookup_pairs(ps, name) == Some(pairs_map(ps)[name]),
    decreases ps.len(),
{
    if ps.len() > 0 {
        lemma_lookup_matches_map(ps.drop_first(), name);
    }
}

/// A name-to-value table with map semantics: inserting a binding replaces
/// whatever was bound to that name before.
pub struct StringMap {
    pairs: Vec<(String, String)>,
}

impl View for StringMap {
    type V = Map<Seq<char>, Seq<char>>;

    closed spec fn view(&self) -> Map<Seq<char>, Seq<char>> {
        pairs_map(self.pairs@)
    }
}

impl StringMap {
    /// An empty table.
    pub fn new() -> (r: StringMap)
        ensures
            r@ == Map::<Seq<char>, Seq<char>>::empty(),
    {
        StringMap { pairs: Vec::new() }
    }

    /// Binds `name` to `value`, replacing any earlier binding.
    pub fn insert(&mut self, name: String, value: String)
        ensures
            final(self)@ == old(self)@.insert(name@, value@),
    {
        let ghost prev = self.pairs@;
        self.pairs.insert(0, (name, value));
        proof {
            assert(self.pairs@.drop_first() =~= prev);
        }
    }

    /// The value bound to `name`, if any.
    pub fn get(&self, name: &str) -> (r: Option<String>)
        ensures
            (r is Some) == self@.contains_key(name@),
            r is Some ==> r->0@ == self@[name@],
    {
        let mut i: usize = 0;
        proof {
            assert(self.pairs@.skip(0) =~= self.pairs@);
        }
        while i < self.pairs.len()
            invariant
                i <= self.pairs@.len(),
                lookup_pairs(self.pairs@.skip(i as int), name@) == lookup_pairs(
                    self.pairs@,
                    name@,
                ),
            decreases self.pairs@.len() - i,
        {
            proof {
                assert(self.pairs@.skip(i as int)[0] == self.pairs@[i as int]);
                assert(self.pairs@.skip(i as int).drop_first() =~= self.pairs@.skip(i + 1 as int));
            }
            if str_eq(self.pairs[i].0.as_str(), name) {
                let r = Some(self.pairs[i].1.clone());
                proof {
                    lemma_lookup_matches_map(self.pairs@, name@);
                }
                return r;
            }
            i = i + 1;
        }
        proof {
            assert(self.pairs@.skip(self.pairs@.len() as int) =~= Seq::<(String, String)>::empty());
            lemma_lookup_matches_map(self.pairs@, name@);
        }
        None
    }

    /// Whether `name` is bound.
    pub fn contains_key(&self, name: &str) -> (r: bool)
        ensures
            r == self@.contains_key(name@),
    {
        self.get(name).is_some()
    }
}

} // verus!
