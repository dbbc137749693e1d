use std::collections::BTreeMap;
use vstd::prelude::*;
use vstd::std_specs::btree::spec_keys_iter;
use vstd::std_specs::iter::IteratorSpec;

verus! {

broadcast use vstd::std_specs::btree::group_btree_axioms;

/// Whether the numbers of `keys` rise strictly.
pub open spec fn rising(keys: Seq<u64>) -> bool {
    forall|i: int, j: int| 0 <= i < j < keys.len() ==> keys[i] < keys[j]
}

/// The position at which `k` belongs in a rising list: behind everything
/// smaller.
fn slot(keys: &Vec<u64>, k: u64) -> (pos: usize)
    requires
        rising(keys@),
    ensures
        pos <= keys@.len(),
        forall|t: int| 0 <= t < pos ==> keys@[t] < k,
        forall|t: int| pos <= t < keys@.len() ==> k <= keys@[t],
{
    let mut pos: usize = 0;
    while pos < keys.len() && keys[pos] < k
        invariant
            pos <= keys@.len(),
            rising(keys@),
            forall|t: int| 0 <= t < pos ==> keys@[t] < k,
        decreases keys.len() - pos,
    {
        pos += 1;
    }
    pos
}

/// The keys of a map, lowest first.
pub fn sorted_keys<V>(m: &BTreeMap<u64, V>) -> (keys: Vec<u64>)
    ensures
        rising(keys@),
        forall|k: u64| keys@.contains(k) <==> m@.contains_key(k),
{
    let mut keys: Vec<u64> = Vec::new();
    let ghost all: Seq<u64> = spec_keys_iter(m).remaining().unref();
    proof {
        vstd::std_specs::btree::axiom_spec_keys_iter(m);
    }
    for k in it: m.keys()
        invariant
            it.seq() == spec_keys_iter(m).remaining(),
            all == spec_keys_iter(m).remaining().unref(),
            all.no_duplicates(),
            rising(keys@),
            forall|x: u64|
                keys@.contains(x) <==> exists|j: int| 0 <= j < it.index() && #[trigger] all[j] == x,
    {
        let x: u64 = *k;
        let ghost before = keys@;
        let ghost n = it.index();
        assert(all[n] == x);
        let pos: usize = slot(&keys, x);
        proof {
            assert(!before.contains(x)) by {
                if before.contains(x) {
                    let j = choose|j: int| 0 <= j < n && #[trigger] all[j] == x;
                    assert(all[j] == all[n]);
                }
            }
            if pos < before.len() {
                assert(before.contains(before[pos as int]));
            }
        }
        keys.insert(pos, x);
        proof {
            let after = keys@;
            assert(after[pos as int] == x);
            assert forall|t: int| 0 <= t < pos implies after[t] == before[t] by {}
            assert forall|t: int| pos < t < after.len() implies after[t] == before[t - 1] by {}
            assert forall|i: int, j: int| 0 <= i < j < after.len() implies after[i] < after[j] by {
                if j < pos {
                    assert(after[i] == before[i] && after[j] == before[j]);
                } else if j == pos {
                    assert(after[i] == before[i]);
                } else if i < pos {
                    assert(after[i] == before[i] && after[j] == before[j - 1]);
                    assert(before[j - 1] >= x || j - 1 < pos);
                } else if i == pos {
                    assert(after[j] == before[j - 1]);
                    assert(before.contains(before[j - 1]));
                } else {
                    assert(after[i] == before[i - 1] && after[j] == before[j - 1]);
                }
            }
            assert forall|y: u64|
                after.contains(y) <==> exists|j: int| 0 <= j < n + 1 && #[trigger] all[j] == y by {
                if after.contains(y) {
                    let t = choose|t: int| 0 <= t < after.len() && after[t] == y;
                    if t < pos {
                        assert(before[t] == y);
                        assert(before.contains(y));
                    } else if t > pos {
                        assert(before[t - 1] == y);
                        assert(before.contains(y));
                    }
                    if y != x {
                        let j = choose|j: int| 0 <= j < n && #[trigger] all[j] == y;
                        assert(all[j] == y);
                    }
                }
                if exists|j: int| 0 <= j < n + 1 && #[trigger] all[j] == y {
                    let j = choose|j: int| 0 <= j < n + 1 && #[trigger] all[j] == y;
                    if j < n {
                        assert(before.contains(y));
                        let t = choose|t: int| 0 <= t < before.len() && before[t] == y;
                        if t < pos {
                            assert(after[t] == y);
                        } else {
                            assert(after[t + 1] == before[t + 1 - 1]);
                            assert(after[t + 1] == y);
                        }
                    } else {
                        assert(after[pos as int] == y);
                    }
                }
            }
        }
    }
    proof {
        assert(all.to_set() == m@.dom());
        assert forall|x: u64| keys@.contains(x) <==> m@.contains_key(x) by {
            assert(all.to_set().contains(x) <==> all.contains(x));
            if all.contains(x) {
                let j = choose|j: int| 0 <= j < all.len() && all[j] == x;
                assert(all[j] == x);
            }
        }
    }
    keys
}

} // verus!
