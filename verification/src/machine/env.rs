//! Environments: names bound to values, kept in a hash map.
use vstd::prelude::*;
use std::collections::HashMap;
use vstd::std_specs::iter::IteratorSpec;
use crate::machine::program::Name;
use crate::machine::semantics::{SEnv, SValue, env_get, env_insert};
use crate::machine::value::Value;

verus! {

broadcast use vstd::std_specs::hash::group_hash_axioms;

/// An environment of the machine.
pub struct Env<'p> {
    bindings: HashMap<Name, Value<'p>>,
}

impl<'p> View for Env<'p> {
    type V = SEnv;

    closed spec fn view(&self) -> SEnv {
        self.bindings@.map_values(|v: Value<'p>| v@)
    }
}

impl<'p> Env<'p> {
    /// The empty environment.
    pub fn new() -> (e: Self)
        ensures
            e@ == Map::<Name, SValue>::empty(),
    {
        let e = Env { bindings: HashMap::new() };
        assert(e@ =~= Map::<Name, SValue>::empty());
        e
    }

    /// The value bound to `k`.
    pub fn get(&self, k: Name) -> (r: Option<Value<'p>>)
        ensures
            match r {
                Some(v) => env_get(self@, k) == Some(v@),
                None => env_get(self@, k) is None,
            },
    {
        match self.bindings.get(&k) {
            Some(v) => Some(*v),
            None => None,
        }
    }

    /// Binds `k` to `v`, replacing an earlier binding of `k`.
    pub fn insert(&mut self, k: Name, v: Value<'p>)
        ensures
            final(self)@ == env_insert(old(self)@, k, v@),
    {
        self.bindings.insert(k, v);
        assert(self@ =~= env_insert(old(self)@, k, v@));
    }

    /// A copy of this environment.
    pub fn clone_env(&self) -> (e: Self)
        ensures
            e@ == self@,
    {
        Env { bindings: self.bindings.clone() }
    }

    /// The bindings, each once, in no particular order.
    pub fn entries(&self) -> (r: Vec<(Name, Value<'p>)>)
        ensures
            forall|i: int| 0 <= i < r@.len() ==> {
                &&& self@.contains_key(#[trigger] r@[i].0)
                &&& self@[r@[i].0] == r@[i].1@
            },
            forall|k: Name| #[trigger] self@.contains_key(k) ==> exists|i: int| 0 <= i < r@.len() && r@[i].0 == k,
            forall|i: int, j: int| 0 <= i < j < r@.len() ==> r@[i].0 != r@[j].0,
    {
        let mut r: Vec<(Name, Value<'p>)> = Vec::new();
        for p in it: self.bindings.iter()
            invariant
                r@.len() == it.index(),
                it.seq() == vstd::std_specs::hash::spec_hash_map_iter(&self.bindings).remaining(),
                it.seq().no_duplicates(),
                forall|j: int| 0 <= j < it.index() ==> #[trigger] r@[j] == (*it.seq()[j].0, *it.seq()[j].1),
        {
            let (k, v) = p;
            r.push((*k, *v));
        }
        proof {
            let s = vstd::std_specs::hash::spec_hash_map_iter(&self.bindings).remaining();
            assert(r@.len() == s.len());
            assert forall|k: Name| #[trigger] self@.contains_key(k) implies exists|i: int| 0 <= i < r@.len() && r@[i].0 == k by {
                assert(self.bindings@.contains_key(k));
                assert(s.contains((&k, &self.bindings@[k])));
                let i = choose|i: int| 0 <= i < s.len() && s[i] == (&k, &self.bindings@[k]);
                assert(r@[i].0 == k);
            }
            assert forall|i: int, j: int| 0 <= i < j < r@.len() implies r@[i].0 != r@[j].0 by {
                if r@[i].0 == r@[j].0 {
                    assert(self.bindings@[*s[i].0] == *s[i].1);
                    assert(self.bindings@[*s[j].0] == *s[j].1);
                    assert(s[i] == s[j]);
                }
            }
        }
        r
    }
}

} // verus!
