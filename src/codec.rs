use std::marker::PhantomData;
use vstd::laws_eq::obeys_concrete_eq;
use vstd::prelude::*;

use crate::map::{fitting_capacity, LinearMap};
use crate::model::{insert_all, insert_all_entries};

verus! {

/// Builds a `LinearMap` from a stream of key-value pairs, as a decoder hands
/// them over: each pair is inserted in turn, so a later pair overwrites an
/// earlier one with the same key.
///
/// A map is written out as its length followed by its pairs in storage order
/// (`LinearMap::len` and `LinearMap::as_slice`).
pub struct LinearMapVisitor<K, V> {
    marker: PhantomData<LinearMap<K, V>>,
}

impl<K: Eq, V> LinearMapVisitor<K, V> {
    /// A visitor for maps with keys `K` and values `V`.
    pub fn new() -> (r: Self) {
        LinearMapVisitor { marker: PhantomData }
    }

    /// The map that an empty input stands for.
    pub fn visit_unit(self) -> (r: LinearMap<K, V>)
        ensures
            r.wf(),
            r@ == Map::<K, V>::empty(),
    {
        LinearMap::new()
    }

    /// The map holding `pairs` inserted in turn. Room is made up front for
    /// `size_hint` pairs where the hint is given and can be allocated.
    pub fn visit_map(self, pairs: Vec<(K, V)>, size_hint: Option<usize>) -> (r: LinearMap<K, V>)
        requires
            obeys_concrete_eq::<K>(),
        ensures
            r.wf(),
            r@ == insert_all(Map::<K, V>::empty(), pairs@),
            r.entries() == insert_all_entries(Seq::<(K, V)>::empty(), pairs@),
    {
        let hint = match size_hint {
            Some(n) => n,
            None => 0,
        };
        let mut r = LinearMap::with_capacity(fitting_capacity::<(K, V)>(hint));
        r.extend(pairs);
        r
    }
}

} // verus!
