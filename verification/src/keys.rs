use std::collections::HashMap;
use vstd::prelude::*;
use vstd::std_specs::hash::spec_keys_iter;
use vstd::std_specs::iter::IteratorSpec;

verus! {

broadcast use vstd::std_specs::hash::group_hash_axioms;

/// Whether `order` names every element of `dom` exactly once.
pub open spec fn enumerates(order: Seq<u128>, dom: Set<u128>) -> bool {
    &&& order.no_duplicates()
    &&& forall|k: u128| order.contains(k) <==> dom.contains(k)
}

/// The keys of a map, each once, in the order in which the map yields them.
pub fn key_list<V>(m: &HashMap<u128, V>) -> (keys: Vec<u128>)
    ensures
        enumerates(keys@, m@.dom()),
        keys@.len() == m@.dom().len(),
{
    let mut keys: Vec<u128> = Vec::new();
    let ghost all: Seq<u128> = spec_keys_iter(m).remaining().unref();
    proof {
        vstd::std_specs::hash::axiom_spec_keys_iter(m);
    }
    for k in it: m.keys()
        invariant
            it.seq() == spec_keys_iter(m).remaining(),
            all == spec_keys_iter(m).remaining().unref(),
            keys@.len() == it.index(),
            forall|j: int| 0 <= j < keys@.len() ==> keys@[j] == all[j],
    {
        keys.push(*k);
    }
    proof {
        assert(keys@ =~= all);
        assert(all.to_set() == m@.dom());
        assert forall|k: u128| keys@.contains(k) <==> m@.dom().contains(k) by {
            assert(all.to_set().contains(k) <==> all.contains(k));
        }
    }
    keys
}

} // verus!
