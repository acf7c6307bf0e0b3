//! Small helpers on the collections that the rules are written over.

use std::collections::HashMap;
use vstd::prelude::*;
use vstd::std_specs::iter::IteratorSpec;

verus! {

/// The keys of `map`, each once, in the order in which the map hands them
/// out.
pub fn keys_of<V>(map: &HashMap<u64, V>) -> (r: Vec<u64>)
    ensures
        r@.no_duplicates(),
        r@.to_set() == map@.dom(),
        r@.len() == map@.len(),
{
    broadcast use vstd::std_specs::hash::group_hash_axioms;

    let mut out: Vec<u64> = Vec::new();
    for k in iter: map.keys()
        invariant
            out@ == iter.seq().take(iter.index()).unref(),
            iter.seq() == map.keys().remaining(),
    {
        out.push(*k);
    }
    proof {
        assert(out@ =~= map.keys().remaining().unref());
    }
    out
}

/// Whether `list` holds `item`.
pub fn contains(list: &[u64], item: u64) -> (r: bool)
    ensures
        r == list@.contains(item),
{
    let mut i: usize = 0;
    while i < list.len()
        invariant
            i <= list.len(),
            forall|j: int| 0 <= j < i ==> list@[j] != item,
        decreases list.len() - i,
    {
        if list[i] == item {
            return true;
        }
        i += 1;
    }
    false
}

} // verus!
