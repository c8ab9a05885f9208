use vstd::prelude::*;
use std::collections::HashMap;
use std::hash::Hash;
use vstd::std_specs::iter::IteratorSpec;
use vstd::std_specs::hash::{spec_keys_iter, obeys_key_model};

verus! {

/// The keys of a map, each once, in the map's iteration order.
pub fn collect_keys<K: Copy + Eq + Hash, V>(m: &HashMap<K, V>) -> (ks: Vec<K>)
    requires
        obeys_key_model::<K>(),
    ensures
        ks@.to_set() == m@.dom(),
        ks@.no_duplicates(),
        ks@.len() == m@.dom().len(),
{
    let mut ks: Vec<K> = Vec::new();
    for k in it: m.keys()
        invariant
            it.seq() == spec_keys_iter(m).remaining(),
            ks@.len() == it.index(),
            forall|i: int| 0 <= i < it.index() ==> ks@[i] == *it.seq()[i],
    {
        ks.push(*k);
    }
    proof {
        let r = spec_keys_iter(m).remaining();
        assert(ks@ =~= r.unref());
    }
    ks
}

} // verus!
