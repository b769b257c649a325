//! The opened codeword values the verifier collects, keyed by position.

use vstd::prelude::*;

use std::collections::BTreeMap;

use crate::field::FieldElement;

verus! {

/// Opened values by codeword position; a later opening of a position
/// replaces an earlier one.
#[derive(Debug)]
pub struct Openings {
    map: BTreeMap<usize, FieldElement>,
}

impl View for Openings {
    type V = Map<usize, FieldElement>;

    closed spec fn view(&self) -> Map<usize, FieldElement> {
        self.map@
    }
}

impl Openings {
    /// No value opened yet.
    pub fn new() -> (o: Openings)
        ensures
            o@ == Map::<usize, FieldElement>::empty(),
    {
        Openings { map: BTreeMap::new() }
    }

    /// Records the value opened at `index`.
    pub fn insert(&mut self, index: usize, value: FieldElement)
        ensures
            final(self)@ == old(self)@.insert(index, value),
    {
        proof {
            broadcast use vstd::laws_cmp::group_laws_cmp;
        }
        self.map.insert(index, value);
    }

    /// The value opened at `index`, if any.
    pub fn get(&self, index: usize) -> (r: Option<FieldElement>)
        ensures
            r == (if self@.contains_key(index) {
                Some(self@[index])
            } else {
                None
            }),
    {
        proof {
            broadcast use vstd::laws_cmp::group_laws_cmp;
            broadcast use vstd::std_specs::btree::group_btree_axioms;
        }
        match self.map.get(&index) {
            Some(v) => Some(*v),
            None => None,
        }
    }
}

} // verus!
