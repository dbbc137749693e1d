use crate::model::RecordView;
use vstd::prelude::*;

verus! {

// The store, seen from outside, is a map from keys to version lists, oldest
// version first. The functions below say what each operation does to it.
/// Versions of `id`, oldest first; none for an unknown key.
pub open spec fn hist(v: Map<u128, Seq<RecordView>>, id: u128) -> Seq<RecordView> {
    if v.contains_key(id) {
        v[id]
    } else {
        Seq::empty()
    }
}

/// The current version of `id`.
pub open spec fn latest(v: Map<u128, Seq<RecordView>>, id: u128) -> Option<RecordView> {
    if hist(v, id).len() > 0 {
        Some(hist(v, id).last())
    } else {
        None
    }
}

/// The store after `r` became the newest version of its key.
pub open spec fn inserted(v: Map<u128, Seq<RecordView>>, r: RecordView) -> Map<
    u128,
    Seq<RecordView>,
> {
    v.insert(r.key, hist(v, r.key).push(r))
}

/// The store after `id` and all its versions were dropped.
pub open spec fn deleted(v: Map<u128, Seq<RecordView>>, id: u128) -> Map<u128, Seq<RecordView>> {
    v.remove(id)
}

/// The store after the records of `recs` were inserted in turn.
pub open spec fn inserted_all(v: Map<u128, Seq<RecordView>>, recs: Seq<RecordView>) -> Map<
    u128,
    Seq<RecordView>,
>
    decreases recs.len(),
{
    if recs.len() == 0 {
        v
    } else {
        inserted(inserted_all(v, recs.drop_last()), recs.last())
    }
}

/// The version valid at `t`: the newest one whose interval holds `t`.
pub open spec fn as_of(h: Seq<RecordView>, t: u64) -> Option<RecordView>
    decreases h.len(),
{
    if h.len() == 0 {
        None
    } else if h.last().valid_time.covers(t) {
        Some(h.last())
    } else {
        as_of(h.drop_last(), t)
    }
}

/// The newest `k` versions of a list, or all of them if there are fewer.
pub open spec fn keep_last(h: Seq<RecordView>, k: nat) -> Seq<RecordView> {
    if h.len() <= k {
        h
    } else {
        h.subrange(h.len() - k, h.len() as int)
    }
}

/// The store after every key was cut down to its newest `k` versions.
pub open spec fn compacted(v: Map<u128, Seq<RecordView>>, k: nat) -> Map<u128, Seq<RecordView>> {
    Map::new(|id: u128| v.contains_key(id), |id: u128| keep_last(v[id], k))
}

/// Whether `recs` holds the current version of every key that has one, each
/// once.
pub open spec fn is_latest_image(recs: Seq<RecordView>, v: Map<u128, Seq<RecordView>>) -> bool {
    &&& forall|i: int| 0 <= i < recs.len() ==> latest(v, (#[trigger] recs[i]).key) == Some(recs[i])
    &&& forall|i: int, j: int|
        0 <= i < j < recs.len() ==> (#[trigger] recs[i]).key != (#[trigger] recs[j]).key
    &&& forall|id: u128| latest(v, id) is Some ==> #[trigger] holds_key(recs, id)
}

/// Whether one of `recs` has the key `id`.
pub open spec fn holds_key(recs: Seq<RecordView>, id: u128) -> bool {
    exists|i: int| 0 <= i < recs.len() && (#[trigger] recs[i]).key == id
}

/// The keys that have a current version.
pub open spec fn live_keys(v: Map<u128, Seq<RecordView>>) -> Set<u128> {
    Set::new(|k: u128| latest(v, k) is Some)
}

/// An image holds as many records as there are keys with a current version.
pub proof fn lemma_image_counts_live_keys(recs: Seq<RecordView>, v: Map<u128, Seq<RecordView>>)
    requires
        is_latest_image(recs, v),
    ensures
        live_keys(v).finite(),
        live_keys(v).len() == recs.len(),
{
    let keys = Seq::new(recs.len(), |i: int| recs[i].key);
    assert forall|i: int, j: int| 0 <= i < keys.len() && 0 <= j < keys.len() && i != j implies keys[i]
        != keys[j] by {
        if i < j {
            assert(recs[i].key != recs[j].key);
        } else {
            assert(recs[j].key != recs[i].key);
        }
    }
    assert(keys.no_duplicates());
    keys.unique_seq_to_set();
    assert(keys.to_set() =~= live_keys(v)) by {
        assert forall|k: u128| keys.to_set().contains(k) <==> live_keys(v).contains(k) by {
            if keys.to_set().contains(k) {
                let i = choose|i: int| 0 <= i < keys.len() && keys[i] == k;
                assert(latest(v, recs[i].key) == Some(recs[i]));
            }
            if live_keys(v).contains(k) {
                assert(holds_key(recs, k));
                let i = choose|i: int| 0 <= i < recs.len() && (#[trigger] recs[i]).key == k;
                assert(keys[i] == k);
            }
        }
    }
}

// ---------------------------------------------------------------------
// Laws
// ---------------------------------------------------------------------
/// Inserting records leaves the versions of every other key alone.
pub proof fn lemma_inserted_all_other(v: Map<u128, Seq<RecordView>>, recs: Seq<RecordView>, id: u128)
    requires
        forall|i: int| 0 <= i < recs.len() ==> (#[trigger] recs[i]).key != id,
    ensures
        hist(inserted_all(v, recs), id) == hist(v, id),
    decreases recs.len(),
{
    if recs.len() > 0 {
        assert forall|i: int| 0 <= i < recs.drop_last().len() implies (#[trigger] recs.drop_last()[i]).key
            != id by {
            assert(recs.drop_last()[i] == recs[i]);
        }
        lemma_inserted_all_other(v, recs.drop_last(), id);
        assert(recs.last() == recs[recs.len() - 1]);
    }
}

/// Version order: after any number of inserts for one key, its history is
/// what it was, followed by the inserted records in the order of the
/// inserts, and its current version is the one inserted last.
pub proof fn law_version_order(v: Map<u128, Seq<RecordView>>, recs: Seq<RecordView>, id: u128)
    requires
        forall|i: int| 0 <= i < recs.len() ==> (#[trigger] recs[i]).key == id,
    ensures
        hist(inserted_all(v, recs), id) == hist(v, id) + recs,
        recs.len() > 0 ==> latest(inserted_all(v, recs), id) == Some(recs.last()),
    decreases recs.len(),
{
    if recs.len() == 0 {
        assert(hist(v, id) + recs =~= hist(v, id));
    } else {
        let front = recs.drop_last();
        assert forall|i: int| 0 <= i < front.len() implies (#[trigger] front[i]).key == id by {
            assert(front[i] == recs[i]);
        }
        law_version_order(v, front, id);
        assert(recs.last() == recs[recs.len() - 1]);
        assert((hist(v, id) + front).push(recs.last()) =~= hist(v, id) + recs);
    }
}

/// Delete semantics: a deleted key has no current version and no history,
/// and the next insert for it starts a new history of one.
pub proof fn law_delete_then_insert(v: Map<u128, Seq<RecordView>>, id: u128, r: RecordView)
    requires
        r.key == id,
    ensures
        latest(deleted(v, id), id) is None,
        hist(deleted(v, id), id) == Seq::<RecordView>::empty(),
        hist(inserted(deleted(v, id), r), id) == seq![r],
        latest(inserted(deleted(v, id), r), id) == Some(r),
        forall|other: u128| other != id ==> hist(deleted(v, id), other) == hist(v, other),
{
    assert(hist(inserted(deleted(v, id), r), id) =~= seq![r]);
}

/// As-of lookup: in a history whose versions start at strictly increasing
/// times, the version valid at `t` is the one that started last at or before
/// `t`, provided that it has not ended by then.
pub proof fn law_as_of_picks_version(h: Seq<RecordView>, t: u64, i: int)
    requires
        0 <= i < h.len(),
        forall|a: int, b: int|
            0 <= a < b < h.len() ==> (#[trigger] h[a]).valid_time.start < (
            #[trigger] h[b]).valid_time.start,
        h[i].valid_time.start <= t,
        t < h[i].valid_time.end,
        i + 1 < h.len() ==> t < h[i + 1].valid_time.start,
    ensures
        as_of(h, t) == Some(h[i]),
    decreases h.len(),
{
    if i == h.len() - 1 {
        assert(h.last() == h[i]);
    } else {
        let front = h.drop_last();
        assert(h.last() == h[h.len() - 1]);
        assert(h[i + 1].valid_time.start <= h.last().valid_time.start) by {
            if i + 1 < h.len() - 1 {
                assert(h[i + 1].valid_time.start < h[h.len() - 1].valid_time.start);
            }
        }
        assert forall|a: int, b: int| 0 <= a < b < front.len() implies (#[trigger] front[a]).valid_time.start
            < (#[trigger] front[b]).valid_time.start by {
            assert(front[a] == h[a] && front[b] == h[b]);
        }
        assert(front[i] == h[i]);
        if i + 1 < front.len() {
            assert(front[i + 1] == h[i + 1]);
        }
        law_as_of_picks_version(front, t, i);
    }
}

/// Before the first version started, nothing is valid.
pub proof fn law_as_of_before_first(h: Seq<RecordView>, t: u64)
    requires
        forall|a: int| 0 <= a < h.len() ==> t < (#[trigger] h[a]).valid_time.start,
    ensures
        as_of(h, t) is None,
    decreases h.len(),
{
    if h.len() > 0 {
        let front = h.drop_last();
        assert(h.last() == h[h.len() - 1]);
        assert forall|a: int| 0 <= a < front.len() implies t < (#[trigger] front[a]).valid_time.start by {
            assert(front[a] == h[a]);
        }
        law_as_of_before_first(front, t);
    }
}

/// Compaction retention: every key keeps the smaller of its version count
/// and `k`, and what it keeps are its newest versions, in order.
pub proof fn law_compaction_keeps_newest(v: Map<u128, Seq<RecordView>>, k: nat, id: u128)
    ensures
        hist(compacted(v, k), id).len() == (if hist(v, id).len() <= k {
            hist(v, id).len()
        } else {
            k
        }),
        forall|j: int|
            0 <= j < hist(compacted(v, k), id).len() ==> #[trigger] hist(compacted(v, k), id)[j]
                == hist(v, id)[hist(v, id).len() - hist(compacted(v, k), id).len() + j],
        k > 0 ==> latest(compacted(v, k), id) == latest(v, id),
        compacted(v, k).dom() == v.dom(),
{
    assert(compacted(v, k).dom() =~= v.dom());
}

/// Restoring an image of the current versions brings back, for every key,
/// the current version it had.
pub proof fn law_image_restores_latest(
    v: Map<u128, Seq<RecordView>>,
    recs: Seq<RecordView>,
    id: u128,
)
    requires
        is_latest_image(recs, v),
    ensures
        latest(inserted_all(Map::empty(), recs), id) == latest(v, id),
{
    let none = Map::<u128, Seq<RecordView>>::empty();
    if holds_key(recs, id) {
        let i = choose|i: int| 0 <= i < recs.len() && (#[trigger] recs[i]).key == id;
        lemma_image_single(recs, i, id);
        assert(latest(v, recs[i].key) == Some(recs[i]));
    } else {
        assert forall|i: int| 0 <= i < recs.len() implies (#[trigger] recs[i]).key != id by {
            if recs[i].key == id {
                assert(holds_key(recs, id));
            }
        }
        lemma_inserted_all_other(none, recs, id);
        if latest(v, id) is Some {
            assert(holds_key(recs, id));
        }
    }
}

/// Of records with distinct keys, inserted into an empty store, each is the
/// whole history of its key.
proof fn lemma_image_single(recs: Seq<RecordView>, i: int, id: u128)
    requires
        0 <= i < recs.len(),
        recs[i].key == id,
        forall|a: int, b: int|
            0 <= a < b < recs.len() ==> (#[trigger] recs[a]).key != (#[trigger] recs[b]).key,
    ensures
        hist(inserted_all(Map::empty(), recs), id) == seq![recs[i]],
    decreases recs.len(),
{
    let none = Map::<u128, Seq<RecordView>>::empty();
    let front = recs.drop_last();
    assert(recs.last() == recs[recs.len() - 1]);
    assert forall|a: int, b: int| 0 <= a < b < front.len() implies (#[trigger] front[a]).key != (
    #[trigger] front[b]).key by {
        assert(front[a] == recs[a] && front[b] == recs[b]);
    }
    if i == recs.len() - 1 {
        assert forall|a: int| 0 <= a < front.len() implies (#[trigger] front[a]).key != id by {
            assert(front[a] == recs[a]);
            assert(recs[a].key != recs[i].key);
        }
        lemma_inserted_all_other(none, front, id);
        assert(hist(inserted_all(none, recs), id) =~= seq![recs[i]]);
    } else {
        assert(front[i] == recs[i]);
        lemma_image_single(front, i, id);
        assert(recs[i].key != recs[recs.len() - 1].key);
    }
}

} // verus!
