//! A hash map from literals to positions in a vector.

use std::collections::HashMap;
use vstd::prelude::*;
use vstd::std_specs::hash::*;

use crate::types::Lit;

verus! {

broadcast use vstd::std_specs::hash::group_hash_axioms;

/// Maps literals to indices. The map is keyed by the literal's code.
pub struct LitMap {
    pub map: HashMap<u32, usize>,
}

impl View for LitMap {
    type V = Map<Lit, usize>;

    open spec fn view(&self) -> Map<Lit, usize> {
        Map::new(|l: Lit| self.map@.contains_key(l.code), |l: Lit| self.map@[l.code])
    }
}

impl LitMap {
    pub fn new() -> (m: LitMap)
        ensures
            m@ == Map::<Lit, usize>::empty(),
    {
        let m = LitMap { map: HashMap::new() };
        assert(m@ =~= Map::<Lit, usize>::empty());
        m
    }

    pub fn get(&self, lit: Lit) -> (r: Option<usize>)
        ensures
            r == (if self@.contains_key(lit) {
                Some(self@[lit])
            } else {
                None
            }),
    {
        match self.map.get(&lit.code) {
            Some(i) => Some(*i),
            None => None,
        }
    }

    pub fn contains(&self, lit: Lit) -> (b: bool)
        ensures
            b == self@.contains_key(lit),
    {
        self.map.contains_key(&lit.code)
    }

    pub fn insert(&mut self, lit: Lit, idx: usize)
        ensures
            final(self)@ == old(self)@.insert(lit, idx),
    {
        self.map.insert(lit.code, idx);
        assert(self@ =~= old(self)@.insert(lit, idx));
    }
}

} // verus!
