// A time-travel-enabled vector store: an append-only segment of versioned
// records, a table from keys to the versions' offsets, a key filter, and a
// layered proximity graph over the embeddings; with the state machine, log
// store and wire protocol that a replicated node is built from.
//
// Embeddings and distances are carried as the bit patterns of IEEE-754
// single precision numbers. The library orders distances; it never computes
// one: the proximity graph is built around a kernel that the caller hands in.

use vstd::prelude::*;

pub mod checkpoint;
pub mod cluster;
pub mod codec;
pub mod filter;
pub mod index;
pub mod keys;
pub mod manager;
pub mod model;
pub mod ordered;
pub mod server;
pub mod storage;
pub mod vector;
pub mod versions;

use crate::codec::{
    decode_snapshot, encodable, encode_snapshot, frame, frames, lemma_frame_stable,
    lemma_frames_push, lemma_stored_encodable, parse_snapshot, record_at, record_bytes,
    records_view, snapshot_bytes,
};
use crate::filter::{law_insert_keeps_members, probed, sea_hash, BloomFilter};
use crate::index::{insert_result, lemma_insert_dom, score_map, GraphView, HnswIndex, MAX_LEVEL};
use crate::keys::{enumerates, key_list};
use crate::model::{Record, RecordView};
use crate::storage::{Segment, StorageError};
use crate::versions::{
    as_of, compacted, deleted, hist, holds_key, inserted, inserted_all, is_latest_image, keep_last,
    latest, live_keys,
};
use std::collections::HashMap;
use vstd::bytes::{spec_u128_to_le_bytes, u128_to_le_bytes};

verus! {

broadcast use vstd::std_specs::hash::group_hash_axioms;

/// Size of the key filter: what 1,000,000 keys need for one false positive
/// in a hundred lookups.
pub const FILTER_BITS: usize = 9_585_059;

/// Probes per key of the key filter, for the same target.
pub const FILTER_HASHES: u32 = 7;

/// The bytes under which a key is entered in the key filter.
pub open spec fn key_bytes(k: u128) -> Seq<u8> {
    spec_u128_to_le_bytes(k)
}

/// Whether a version of `k` is framed at `off`.
pub open spec fn stored(log: Seq<u8>, k: u128, off: u64) -> bool {
    match record_at(log, off as int) {
        Some(r) => r.key == k,
        None => false,
    }
}

/// The records framed at the given offsets.
pub open spec fn versions_at(log: Seq<u8>, offs: Seq<u64>) -> Seq<RecordView> {
    Seq::new(offs.len(), |i: int| record_at(log, offs[i] as int).unwrap())
}

/// The contents of an offset table.
pub open spec fn offsets_view(index: Map<u128, Vec<u64>>) -> Map<u128, Seq<u64>> {
    Map::new(|k: u128| index.contains_key(k), |k: u128| index[k]@)
}

/// Whether every offset of the table addresses a version of its key.
pub open spec fn index_wf(log: Seq<u8>, offs: Map<u128, Seq<u64>>) -> bool {
    forall|k: u128, i: int|
        offs.contains_key(k) && 0 <= i < offs[k].len() ==> stored(log, k, #[trigger] offs[k][i])
}

/// The version lists that a log and an offset table stand for.
pub open spec fn versions_of(log: Seq<u8>, offs: Map<u128, Seq<u64>>) -> Map<u128, Seq<RecordView>> {
    Map::new(|k: u128| offs.contains_key(k), |k: u128| versions_at(log, offs[k]))
}

/// Appending to the log changes nothing for the offsets already handed out.
pub proof fn lemma_index_stable(log: Seq<u8>, more: Seq<u8>, offs: Map<u128, Seq<u64>>)
    requires
        index_wf(log, offs),
    ensures
        index_wf(log + more, offs),
        versions_of(log + more, offs) == versions_of(log, offs),
{
    assert forall|k: u128, i: int| offs.contains_key(k) && 0 <= i < offs[k].len() implies stored(
        log + more,
        k,
        #[trigger] offs[k][i],
    ) && record_at(log + more, offs[k][i] as int) == record_at(log, offs[k][i] as int) by {
        assert(stored(log, k, offs[k][i]));
        lemma_frame_stable(log, more, offs[k][i] as int);
    }
    assert forall|k: u128| offs.contains_key(k) implies versions_at(log + more, offs[k])
        == versions_at(log, offs[k]) by {
        assert forall|i: int| 0 <= i < offs[k].len() implies versions_at(log + more, offs[k])[i]
            == versions_at(log, offs[k])[i] by {
            assert(stored(log, k, offs[k][i]));
            lemma_frame_stable(log, more, offs[k][i] as int);
        }
        assert(versions_at(log + more, offs[k]) =~= versions_at(log, offs[k]));
    }
    assert(versions_of(log + more, offs) =~= versions_of(log, offs));
}

/// What appending a record and entering its offset does to the store.
pub proof fn lemma_store_insert(
    log: Seq<u8>,
    offs: Map<u128, Seq<u64>>,
    r: RecordView,
    off: u64,
)
    requires
        index_wf(log, offs),
        off == log.len(),
        record_at(log + frame(record_bytes(r)), off as int) == Some(r),
    ensures
        ({
            let list = (if offs.contains_key(r.key) {
                offs[r.key]
            } else {
                Seq::<u64>::empty()
            }).push(off);
            let log2 = log + frame(record_bytes(r));
            &&& index_wf(log2, offs.insert(r.key, list))
            &&& versions_of(log2, offs.insert(r.key, list)) == inserted(versions_of(log, offs), r)
        }),
{
    let prior = if offs.contains_key(r.key) {
        offs[r.key]
    } else {
        Seq::<u64>::empty()
    };
    let list = prior.push(off);
    let log2 = log + frame(record_bytes(r));
    let offs2 = offs.insert(r.key, list);
    lemma_index_stable(log, frame(record_bytes(r)), offs);
    assert forall|k: u128, i: int| offs2.contains_key(k) && 0 <= i < offs2[k].len() implies stored(
        log2,
        k,
        #[trigger] offs2[k][i],
    ) by {
        if k == r.key {
            if i < prior.len() {
                assert(list[i] == prior[i]);
                assert(stored(log2, k, offs[k][i]));
            }
        } else {
            assert(stored(log2, k, offs[k][i]));
        }
    }
    let v = versions_of(log, offs);
    assert(versions_at(log2, list) =~= hist(v, r.key).push(r)) by {
        assert forall|i: int| 0 <= i < list.len() implies versions_at(log2, list)[i] == hist(
            v,
            r.key,
        ).push(r)[i] by {
            if i < prior.len() {
                assert(list[i] == prior[i]);
                assert(stored(log, r.key, offs[r.key][i]));
                lemma_frame_stable(log, frame(record_bytes(r)), prior[i] as int);
            }
        }
    }
    assert forall|k: u128| offs.contains_key(k) implies versions_at(log2, offs[k]) == versions_at(
        log,
        offs[k],
    ) by {
        assert(versions_of(log2, offs)[k] == versions_of(log, offs)[k]);
    }
    assert(versions_of(log2, offs2) =~= inserted(v, r));
}

/// The table after `off` was entered as the newest offset of `k`.
pub open spec fn entered(offs: Map<u128, Seq<u64>>, k: u128, off: u64) -> Map<u128, Seq<u64>> {
    offs.insert(
        k,
        (if offs.contains_key(k) {
            offs[k]
        } else {
            Seq::<u64>::empty()
        }).push(off),
    )
}

/// The table after the records were appended in turn to a log of `start`
/// bytes, each entered at the offset at which its frame begins.
pub open spec fn entered_all(offs: Map<u128, Seq<u64>>, start: nat, recs: Seq<RecordView>) -> Map<
    u128,
    Seq<u64>,
>
    decreases recs.len(),
{
    if recs.len() == 0 {
        offs
    } else {
        entered(
            entered_all(offs, start, recs.drop_last()),
            recs.last().key,
            (start + frames(recs.drop_last()).len()) as u64,
        )
    }
}

/// The graph after the records were inserted in turn, each at its level.
pub open spec fn graph_after<F: Fn(&Vec<u32>, &Vec<u32>) -> u32>(
    g: GraphView,
    f: F,
    m_max: nat,
    recs: Seq<RecordView>,
    levels: Seq<nat>,
) -> GraphView
    decreases recs.len(),
{
    if recs.len() == 0 {
        g
    } else {
        let prev = graph_after(g, f, m_max, recs.drop_last(), levels.drop_last());
        insert_result(
            prev,
            score_map(prev, f, recs.last().vector),
            recs.last().key,
            recs.last().vector,
            levels.last(),
            m_max,
        )
    }
}

/// Whether a probe of the key of one of `recs` falls on bit `j` of a filter
/// of the default shape.
pub open spec fn key_probed(recs: Seq<RecordView>, j: int) -> bool {
    exists|i: int|
        0 <= i < recs.len() && probed(
            sea_hash(key_bytes((#[trigger] recs[i]).key)),
            FILTER_HASHES,
            FILTER_BITS as nat,
            j,
        )
}

/// The segment that a compaction writes when it takes the keys in the given
/// order: for each key the frames of its newest `k` versions, oldest first.
pub open spec fn retained_bytes(v: Map<u128, Seq<RecordView>>, order: Seq<u128>, k: nat) -> Seq<u8>
    decreases order.len(),
{
    if order.len() == 0 {
        Seq::empty()
    } else {
        retained_bytes(v, order.drop_last(), k) + frames(keep_last(v[order.last()], k))
    }
}

/// The offsets at which the frames of `recs` begin when they are written
/// in turn from `start` on.
pub open spec fn frame_offsets(start: nat, recs: Seq<RecordView>) -> Seq<u64> {
    Seq::new(recs.len(), |i: int| (start + frames(recs.subrange(0, i)).len()) as u64)
}

/// Whether `seg` and `offs` are the segment and the table that a compaction
/// of `v` to `k` versions leaves when it takes the keys in the given order:
/// the segment holds the retained frames, every key is still in the table,
/// and its list holds the offsets of its frames in the new segment.
pub open spec fn is_compaction(
    seg: Seq<u8>,
    offs: Map<u128, Seq<u64>>,
    v: Map<u128, Seq<RecordView>>,
    order: Seq<u128>,
    k: nat,
) -> bool {
    &&& seg == retained_bytes(v, order, k)
    &&& forall|key: u128| offs.contains_key(key) <==> v.contains_key(key)
    &&& forall|i: int|
        0 <= i < order.len() ==> offs[#[trigger] order[i]] == frame_offsets(
            retained_bytes(v, order.subrange(0, i), k).len(),
            keep_last(v[order[i]], k),
        )
}

/// Whether `k` is one of the first `i` entries of `keys`.
pub open spec fn named_before(keys: Seq<u128>, i: int, k: u128) -> bool {
    exists|j: int| 0 <= j < i && j < keys.len() && #[trigger] keys[j] == k
}

/// A compaction that was worked out and not yet carried out: the segment
/// and the table that are to take the place of those of a store.
pub struct Compaction {
    segment: Segment,
    index: HashMap<u128, Vec<u64>>,
    limit: usize,
}

impl Compaction {
    /// The bytes of the new segment.
    pub closed spec fn bytes(&self) -> Seq<u8> {
        self.segment@
    }

    /// The new table.
    pub closed spec fn table(&self) -> Map<u128, Seq<u64>> {
        offsets_view(self.index@)
    }

    /// The number of versions that every key keeps.
    pub closed spec fn kept(&self) -> nat {
        self.limit as nat
    }

    /// Whether this is a compaction of a store with the versions `v`: the
    /// new table addresses, in the new segment, the newest versions of
    /// every key, and segment and table are laid out as a compaction lays
    /// them out for some order of the keys.
    pub open spec fn fits(&self, v: Map<u128, Seq<RecordView>>) -> bool {
        &&& index_wf(self.bytes(), self.table())
        &&& versions_of(self.bytes(), self.table()) == compacted(v, self.kept())
        &&& exists|order: Seq<u128>|
            enumerates(order, v.dom()) && #[trigger] is_compaction(
                self.bytes(),
                self.table(),
                v,
                order,
                self.kept(),
            )
    }

    /// The new segment, for whoever writes it to disk before the
    /// compaction is carried out.
    pub fn segment(&self) -> (s: &Segment)
        ensures
            s@ == self.bytes(),
    {
        &self.segment
    }

    /// The number of versions that every key keeps.
    pub fn history_limit(&self) -> (k: usize)
        ensures
            k == self.kept(),
    {
        self.limit
    }
}

/// The primary store: a segment of framed records, the table from each key
/// to the offsets of its versions, a filter over the keys ever entered, and
/// the proximity graph over the embeddings.
pub struct ChronosDb<F: Fn(&Vec<u32>, &Vec<u32>) -> u32> {
    active_segment: Segment,
    index: HashMap<u128, Vec<u64>>,
    vector_index: HnswIndex<F>,
    bloom_filter: BloomFilter,
}

impl<F: Fn(&Vec<u32>, &Vec<u32>) -> u32> View for ChronosDb<F> {
    type V = Map<u128, Seq<RecordView>>;

    open spec fn view(&self) -> Map<u128, Seq<RecordView>> {
        self.versions()
    }
}

impl<F: Fn(&Vec<u32>, &Vec<u32>) -> u32> ChronosDb<F> {
    /// The bytes of the segment.
    pub closed spec fn segment_bytes(&self) -> Seq<u8> {
        self.active_segment@
    }

    /// The offsets of the versions of every key, in append order.
    pub closed spec fn offsets(&self) -> Map<u128, Seq<u64>> {
        offsets_view(self.index@)
    }

    /// The versions of every key, oldest first.
    pub open spec fn versions(&self) -> Map<u128, Seq<RecordView>> {
        versions_of(self.segment_bytes(), self.offsets())
    }

    /// The key filter.
    pub closed spec fn filter(&self) -> BloomFilter {
        self.bloom_filter
    }

    /// The proximity graph.
    pub closed spec fn graph(&self) -> HnswIndex<F> {
        self.vector_index
    }

    /// Every offset addresses a version of its key, and the filter knows
    /// every key of the table.
    pub open spec fn wf(&self) -> bool {
        &&& self.graph().wf()
        &&& self.filter().wf()
        &&& index_wf(self.segment_bytes(), self.offsets())
        &&& forall|k: u128| #[trigger]
            self.offsets().contains_key(k) ==> self.filter().may_contain(key_bytes(k))
    }

    /// Whether the configuration of the graph and the shape of the filter
    /// are those of `other`.
    pub open spec fn same_config(&self, other: &Self) -> bool {
        &&& self.graph().kernel() == other.graph().kernel()
        &&& self.graph().fan_out() == other.graph().fan_out()
        &&& self.graph().breadth() == other.graph().breadth()
        &&& self.graph().metric_of() == other.graph().metric_of()
        &&& self.filter().hashes() == other.filter().hashes()
        &&& self.filter().bits().len() == other.filter().bits().len()
    }

    /// Whether segment, table, filter and graph hold what those of `other`
    /// hold.
    pub open spec fn same_state(&self, other: &Self) -> bool {
        &&& self.same_config(other)
        &&& self.segment_bytes() == other.segment_bytes()
        &&& self.offsets() == other.offsets()
        &&& self.filter().bits() == other.filter().bits()
        &&& self.graph().shape() == other.graph().shape()
    }

    /// Whether this store is `before` with `r` appended as the newest
    /// version of its key: one more frame in the segment, its offset, which
    /// is the length that the segment had, at the end of the key's list in
    /// the table, the probes of the key set in the filter, and the embedding
    /// inserted into the graph at some level.
    pub open spec fn after_insert(&self, before: &Self, r: RecordView) -> bool {
        &&& self.same_config(before)
        &&& self.versions() == inserted(before.versions(), r)
        &&& self.segment_bytes() == before.segment_bytes() + frame(record_bytes(r))
        &&& self.offsets() == entered(before.offsets(), r.key, before.segment_bytes().len() as u64)
        &&& forall|j: int|
            0 <= j < before.filter().bits().len() ==> (#[trigger] self.filter().bits()[j] == (
            before.filter().bits()[j] || probed(
                sea_hash(key_bytes(r.key)),
                before.filter().hashes(),
                before.filter().bits().len(),
                j,
            )))
        &&& exists|level: nat|
            level <= MAX_LEVEL && #[trigger] insert_result(
                before.graph().shape(),
                before.graph().scores(r.vector),
                r.key,
                r.vector,
                level,
                before.graph().fan_out(),
            ) == self.graph().shape()
    }

    /// Whether this store is `before` after the records of an image took
    /// the place of its contents: the versions are those of the image, each
    /// record was appended to the segment again and entered in an empty
    /// table at the offset of its frame, the filter is a new one of
    /// the default shape with the keys of the image entered, and the graph
    /// was built anew from the embeddings of the image, each at some level.
    pub open spec fn after_restore(&self, before: &Self, recs: Seq<RecordView>) -> bool {
        &&& self.versions() == inserted_all(Map::empty(), recs)
        &&& self.segment_bytes() == before.segment_bytes() + frames(recs)
        &&& self.offsets() == entered_all(Map::empty(), before.segment_bytes().len(), recs)
        &&& forall|id: u128| #[trigger]
            self.graph().shape().nodes.contains_key(id) <==> holds_key(recs, id)
        &&& exists|levels: Seq<nat>|
            {
                &&& levels.len() == recs.len()
                &&& forall|i: int| 0 <= i < levels.len() ==> #[trigger] levels[i] <= MAX_LEVEL
                &&& #[trigger] graph_after(
                    GraphView { nodes: Map::empty(), entry_point: None, max_layer: 0 },
                    before.graph().kernel(),
                    before.graph().fan_out(),
                    recs,
                    levels,
                ) == self.graph().shape()
            }
        &&& self.filter().hashes() == FILTER_HASHES
        &&& self.filter().bits().len() == FILTER_BITS
        &&& forall|j: int|
            0 <= j < FILTER_BITS ==> (#[trigger] self.filter().bits()[j] <==> key_probed(recs, j))
    }

    /// Whether this store is `before` without the key `id`: gone from the
    /// table and from the graph, with segment and filter as they were.
    pub open spec fn after_delete(&self, before: &Self, id: u128) -> bool {
        &&& self.same_config(before)
        &&& self.versions() == deleted(before.versions(), id)
        &&& self.offsets() == before.offsets().remove(id)
        &&& self.segment_bytes() == before.segment_bytes()
        &&& self.filter().bits() == before.filter().bits()
        &&& self.graph().shape().nodes == before.graph().shape().nodes.remove(id)
        &&& self.graph().shape().entry_point == before.graph().shape().entry_point
        &&& self.graph().shape().max_layer == before.graph().shape().max_layer
    }

    /// A store over a segment and a graph, with an empty table and an empty
    /// key filter.
    pub fn new(segment: Segment, vector_index: HnswIndex<F>) -> (db: Self)
        requires
            vector_index.wf(),
        ensures
            db.wf(),
            db.versions() == Map::<u128, Seq<RecordView>>::empty(),
            db.segment_bytes() == segment@,
            db.graph() == vector_index,
            db.filter().hashes() == FILTER_HASHES,
            db.filter().bits() == Seq::new(FILTER_BITS as nat, |i: int| false),
    {
        let db = ChronosDb {
            active_segment: segment,
            index: HashMap::new(),
            vector_index,
            bloom_filter: BloomFilter::new(FILTER_BITS, FILTER_HASHES),
        };
        proof {
            assert(db.offsets() =~= Map::<u128, Seq<u64>>::empty());
            assert(db.versions() =~= Map::<u128, Seq<RecordView>>::empty());
        }
        db
    }

    /// The segment, for whoever keeps it on disk.
    pub fn segment(&self) -> (s: &Segment)
        ensures
            s@ == self.segment_bytes(),
    {
        &self.active_segment
    }

    /// The proximity graph, for searches and checkpoints.
    pub fn vector_index(&self) -> (g: &HnswIndex<F>)
        ensures
            *g == self.graph(),
    {
        &self.vector_index
    }

    /// The offsets of the versions of `id` in the segment, oldest first;
    /// none for a key that is not in the table.
    pub fn offsets_of(&self, id: u128) -> (r: Option<Vec<u64>>)
        ensures
            r is Some <==> self.offsets().contains_key(id),
            r is Some ==> r->0@ == self.offsets()[id],
    {
        match self.index.get(&id) {
            Some(list) => Some(list.clone()),
            None => None,
        }
    }

    /// Number of keys in the table.
    pub fn key_count(&self) -> (n: usize)
        ensures
            n == self.versions().dom().len(),
    {
        proof {
            assert(self.versions().dom() =~= self.index@.dom());
        }
        self.index.len()
    }

    /// Every version in the store can be framed, so its payload and its
    /// embedding have lengths that fit four bytes.
    pub proof fn lemma_versions_fit(&self, id: u128)
        requires
            self.wf(),
        ensures
            forall|i: int| 0 <= i < hist(self.versions(), id).len() ==> encodable(#[trigger] hist(self.versions(), id)[i]),
    {
        assert forall|i: int| 0 <= i < hist(self.versions(), id).len() implies encodable(
            #[trigger] hist(self.versions(), id)[i],
        ) by {
            let off = self.offsets()[id][i];
            assert(stored(self.segment_bytes(), id, off));
            lemma_stored_encodable(self.segment_bytes(), off as int);
        }
    }

    /// Snapshot round trip: an image of this store parses back to the
    /// records it was made of, and a store restored from them has, for every
    /// key, the current version that this store has.
    pub proof fn law_snapshot_round_trip(&self, recs: Seq<RecordView>)
        requires
            self.wf(),
            is_latest_image(recs, self.versions()),
            recs.len() <= 0xffff_ffff,
        ensures
            parse_snapshot(snapshot_bytes(recs)) == Some(recs),
            forall|id: u128| #[trigger]
                latest(inserted_all(Map::empty(), recs), id) == latest(self.versions(), id),
    {
        assert forall|i: int| 0 <= i < recs.len() implies encodable(#[trigger] recs[i]) by {
            let id = recs[i].key;
            assert(latest(self.versions(), id) == Some(recs[i]));
            self.lemma_versions_fit(id);
            assert(hist(self.versions(), id)[hist(self.versions(), id).len() - 1] == recs[i]);
        }
        crate::codec::lemma_snapshot_round_trip(recs);
        assert forall|id: u128| #[trigger]
            latest(inserted_all(Map::empty(), recs), id) == latest(self.versions(), id) by {
            crate::versions::law_image_restores_latest(self.versions(), recs, id);
        }
    }

    fn read_record(&self, offset: u64) -> (r: Option<Record>)
        ensures
            match r {
                Some(rec) => record_at(self.segment_bytes(), offset as int) == Some(rec@),
                None => record_at(self.segment_bytes(), offset as int) is None,
            },
    {
        match self.active_segment.read(offset) {
            Ok(rec) => Some(rec),
            Err(_) => None,
        }
    }

    /// Appends `record` as the newest version of its key.
    ///
    /// The record goes to the segment first, then its key to the filter,
    /// then its offset to the table, then its embedding to the graph. Fails,
    /// changing nothing, exactly when the record is too large to be framed.
    pub fn insert(&mut self, record: Record) -> (r: Result<(), StorageError>)
        requires
            old(self).wf(),
        ensures
            final(self).wf(),
            final(self).same_config(old(self)),
            r is Ok <==> encodable(record@),
            r is Ok ==> final(self).after_insert(old(self), record@) && final(self).filter().may_contain(
                key_bytes(record@.key),
            ),
            r is Err ==> r->Err_0 == StorageError::RecordTooLarge && final(self).same_state(
                old(self),
            ),
    {
        let id: u128 = record.key;
        let ghost log = self.active_segment@;
        let ghost offs = offsets_view(self.index@);
        let offset: u64 = match self.active_segment.append(&record) {
            Ok(off) => off,
            Err(e) => {
                return Err(e);
            },
        };
        let ghost filter_before = self.bloom_filter;
        let key: Vec<u8> = u128_to_le_bytes(id);
        self.bloom_filter.insert(key.as_slice());
        proof {
            assert forall|k: u128| #[trigger] offs.contains_key(k) implies self.bloom_filter.may_contain(
                key_bytes(k),
            ) by {
                law_insert_keeps_members(filter_before, self.bloom_filter, key_bytes(id), key_bytes(k));
            }
        }
        let mut list: Vec<u64> = match self.index.remove(&id) {
            Some(v) => v,
            None => Vec::new(),
        };
        list.push(offset);
        let ghost list_view = list@;
        self.index.insert(id, list);
        proof {
            lemma_store_insert(log, offs, record@, offset);
            assert(offsets_view(self.index@) =~= offs.insert(id, list_view));
            assert(offsets_view(self.index@) == entered(offs, id, log.len() as u64));
        }
        self.vector_index.insert(id, record.vector);
        Ok(())
    }

    /// Drops `id` from the table and from the graph. The segment and the
    /// filter stay as they are, so the versions are lost and a later insert
    /// starts a new history.
    pub fn delete(&mut self, id: u128) -> (r: Result<(), StorageError>)
        requires
            old(self).wf(),
        ensures
            final(self).wf(),
            final(self).same_config(old(self)),
            r is Ok,
            final(self).after_delete(old(self), id),
    {
        let ghost offs = offsets_view(self.index@);
        self.index.remove(&id);
        proof {
            assert(offsets_view(self.index@) =~= offs.remove(id));
            assert(self.versions() =~= deleted(old(self).versions(), id));
        }
        self.vector_index.remove(id);
        Ok(())
    }

    /// The current version of `id`.
    pub fn get_latest(&self, id: u128) -> (r: Option<Record>)
        requires
            self.wf(),
        ensures
            match r {
                Some(rec) => latest(self.versions(), id) == Some(rec@),
                None => latest(self.versions(), id) is None,
            },
    {
        let key: Vec<u8> = u128_to_le_bytes(id);
        if !self.bloom_filter.contains(key.as_slice()) {
            return None;
        }
        let offset: u64 = match self.index.get(&id) {
            Some(list) => {
                if list.len() == 0 {
                    return None;
                }
                list[list.len() - 1]
            },
            None => {
                return None;
            },
        };
        proof {
            let offs = self.offsets()[id];
            assert(stored(self.segment_bytes(), id, offs[offs.len() - 1]));
        }
        self.read_record(offset)
    }

    /// The version of `id` that was valid at `target_time`: the newest one
    /// whose interval holds that instant.
    pub fn get_as_of(&self, id: u128, target_time: u64) -> (r: Option<Record>)
        requires
            self.wf(),
        ensures
            match r {
                Some(rec) => as_of(hist(self.versions(), id), target_time) == Some(rec@),
                None => as_of(hist(self.versions(), id), target_time) is None,
            },
    {
        let key: Vec<u8> = u128_to_le_bytes(id);
        if !self.bloom_filter.contains(key.as_slice()) {
            return None;
        }
        let list: &Vec<u64> = match self.index.get(&id) {
            Some(list) => list,
            None => {
                return None;
            },
        };
        let ghost h = hist(self.versions(), id);
        let mut j: usize = list.len();
        proof {
            assert(h.subrange(0, j as int) =~= h);
        }
        while j > 0
            invariant
                self.wf(),
                j <= list@.len(),
                self.offsets().contains_key(id),
                list@ == self.offsets()[id],
                h == hist(self.versions(), id),
                as_of(h, target_time) == as_of(h.subrange(0, j as int), target_time),
            decreases j,
        {
            j -= 1;
            proof {
                assert(stored(self.segment_bytes(), id, self.offsets()[id][j as int]));
                assert(h.subrange(0, j + 1).drop_last() =~= h.subrange(0, j as int));
                assert(h.subrange(0, j + 1).last() == h[j as int]);
            }
            match self.read_record(list[j]) {
                Some(record) => {
                    if record.valid_time.contains(target_time) {
                        return Some(record);
                    }
                },
                None => {},
            }
        }
        proof {
            assert(h.subrange(0, 0) =~= Seq::<RecordView>::empty());
        }
        None
    }

    /// Every version of `id`, oldest first.
    pub fn get_history(&self, id: u128) -> (r: Vec<Record>)
        requires
            self.wf(),
        ensures
            records_view(r@) == hist(self.versions(), id),
    {
        let mut history: Vec<Record> = Vec::new();
        let key: Vec<u8> = u128_to_le_bytes(id);
        if !self.bloom_filter.contains(key.as_slice()) {
            proof {
                assert(records_view(history@) =~= hist(self.versions(), id));
            }
            return history;
        }
        let list: &Vec<u64> = match self.index.get(&id) {
            Some(list) => list,
            None => {
                proof {
                    assert(records_view(history@) =~= hist(self.versions(), id));
                }
                return history;
            },
        };
        let ghost h = hist(self.versions(), id);
        let mut i: usize = 0;
        while i < list.len()
            invariant
                self.wf(),
                i <= list@.len(),
                self.offsets().contains_key(id),
                list@ == self.offsets()[id],
                h == hist(self.versions(), id),
                records_view(history@) == h.subrange(0, i as int),
            decreases list.len() - i,
        {
            proof {
                assert(stored(self.segment_bytes(), id, self.offsets()[id][i as int]));
            }
            let ghost before = history@;
            match self.read_record(list[i]) {
                Some(record) => {
                    proof {
                        let grown = records_view(before.push(record));
                        assert(h == versions_at(self.segment_bytes(), self.offsets()[id]));
                        assert(h.len() == list@.len());
                        assert(records_view(before).len() == before.len());
                        assert(before.len() == i);
                        assert(h[i as int] == record@);
                        assert forall|t: int| 0 <= t <= i implies grown[t] == h.subrange(0, i + 1)[t] by {
                            if t < i {
                                assert(grown[t] == before[t]@);
                                assert(records_view(before)[t] == h.subrange(0, i as int)[t]);
                            }
                        }
                        assert(grown =~= h.subrange(0, i + 1));
                    }
                    history.push(record);
                },
                None => {},
            }
            i += 1;
        }
        proof {
            assert(h.subrange(0, i as int) =~= h);
        }
        history
    }

    /// An image of the store: the current version of every key that has one,
    /// each once, in the order in which the table yields the keys.
    ///
    /// Fails exactly when there are more such versions than a four-byte
    /// count can announce.
    pub fn snapshot(&self) -> (r: Result<Vec<u8>, StorageError>)
        requires
            self.wf(),
        ensures
            r is Ok <==> live_keys(self.versions()).len() <= 0xffff_ffff,
            r is Ok ==> exists|recs: Seq<RecordView>|
                is_latest_image(recs, self.versions()) && #[trigger] snapshot_bytes(recs) == r->Ok_0@,
            r is Err ==> r->Err_0 == StorageError::TooManyRecords,
    {
        let ghost v = self.versions();
        let ghost log = self.segment_bytes();
        let ghost offs = self.offsets();
        proof {
            assert(offs.dom() =~= self.index@.dom());
        }
        let keys: Vec<u128> = key_list(&self.index);
        let mut records: Vec<Record> = Vec::new();
        let mut i: usize = 0;
        while i < keys.len()
            invariant
                self.wf(),
                v == self.versions(),
                log == self.segment_bytes(),
                offs == self.offsets(),
                offs == offsets_view(self.index@),
                enumerates(keys@, offs.dom()),
                i <= keys.len(),
                forall|t: int|
                    0 <= t < records@.len() ==> {
                        &&& latest(v, (#[trigger] records@[t])@.key) == Some(records@[t]@)
                        &&& named_before(keys@, i as int, records@[t]@.key)
                        &&& encodable(records@[t]@)
                    },
                forall|a: int, b: int|
                    0 <= a < b < records@.len() ==> (#[trigger] records@[a])@.key != (
                    #[trigger] records@[b])@.key,
                forall|j: int|
                    0 <= j < i && latest(v, #[trigger] keys@[j]) is Some ==> holds_key(
                        records_view(records@),
                        keys@[j],
                    ),
            decreases keys.len() - i,
        {
            let k: u128 = keys[i];
            let ghost before = records@;
            assert(keys@.contains(k));
            let mut added: bool = false;
            match self.index.get(&k) {
                Some(list) => {
                    if list.len() > 0 {
                        let off: u64 = list[list.len() - 1];
                        proof {
                            assert(stored(log, k, offs[k][offs[k].len() - 1]));
                            lemma_stored_encodable(log, off as int);
                        }
                        match self.read_record(off) {
                            Some(record) => {
                                proof {
                                    assert(record@.key == k);
                                    assert(latest(v, k) == Some(record@));
                                    assert forall|a: int| 0 <= a < before.len() implies (
                                    #[trigger] before[a])@.key != k by {
                                        if before[a]@.key == k {
                                            assert(named_before(keys@, i as int, before[a]@.key));
                                            let j = choose|j: int|
                                                0 <= j < i && j < keys@.len() && #[trigger] keys@[j]
                                                    == k;
                                            assert(keys@[j] == keys@[i as int]);
                                        }
                                    }
                                }
                                records.push(record);
                                added = true;
                            },
                            None => {},
                        }
                    }
                },
                None => {},
            }
            proof {
                let now = records@;
                let n1: int = i + 1;
                assert forall|t: int| 0 <= t < now.len() implies named_before(
                    keys@,
                    n1,
                    (#[trigger] now[t])@.key,
                ) by {
                    if t < before.len() {
                        assert(now[t] == before[t]);
                        assert(named_before(keys@, i as int, before[t]@.key));
                        let j = choose|j: int|
                            0 <= j < i && j < keys@.len() && #[trigger] keys@[j] == before[t]@.key;
                        assert(keys@[j] == now[t]@.key);
                    } else {
                        assert(keys@[i as int] == now[t]@.key);
                    }
                }
                assert forall|j: int| 0 <= j < n1 && latest(v, #[trigger] keys@[j]) is Some implies holds_key(
                    records_view(now),
                    keys@[j],
                ) by {
                    if j < i {
                        assert(holds_key(records_view(before), keys@[j]));
                        let t = choose|t: int|
                            0 <= t < records_view(before).len() && (#[trigger] records_view(
                                before,
                            )[t]).key == keys@[j];
                        assert(records_view(now)[t].key == keys@[j]);
                    } else {
                        assert(added);
                        assert(records_view(now)[before.len() as int].key == k);
                    }
                }
            }
            i += 1;
        }
        let ghost views = records_view(records@);
        proof {
            assert forall|id: u128| latest(v, id) is Some implies #[trigger] holds_key(views, id) by {
                assert(offs.contains_key(id));
                assert(keys@.contains(id));
                let j = choose|j: int| 0 <= j < keys@.len() && keys@[j] == id;
                assert(latest(v, keys@[j]) is Some);
            }
            assert forall|t: int| 0 <= t < views.len() implies latest(v, (#[trigger] views[t]).key)
                == Some(views[t]) by {
                assert(views[t] == records@[t]@);
            }
            assert forall|a: int, b: int| 0 <= a < b < views.len() implies (#[trigger] views[a]).key
                != (#[trigger] views[b]).key by {
                assert(views[a] == records@[a]@ && views[b] == records@[b]@);
            }
            assert(is_latest_image(views, v));
            crate::versions::lemma_image_counts_live_keys(views, v);
            assert forall|t: int| 0 <= t < records@.len() implies encodable(#[trigger] records@[t]@) by {}
        }
        match encode_snapshot(&records) {
            Some(bytes) => Ok(bytes),
            None => Err(StorageError::TooManyRecords),
        }
    }

    /// Replaces the contents of the store by those of an image.
    ///
    /// Table and graph are emptied and the filter is made anew; then every
    /// record of the image is inserted, in the order of the image, which
    /// appends it to the segment again. Fails, changing nothing, exactly
    /// when the bytes are not an image.
    pub fn restore(&mut self, snapshot_data: &[u8]) -> (r: Result<(), StorageError>)
        requires
            old(self).wf(),
        ensures
            final(self).wf(),
            final(self).graph().kernel() == old(self).graph().kernel(),
            final(self).graph().fan_out() == old(self).graph().fan_out(),
            final(self).graph().breadth() == old(self).graph().breadth(),
            final(self).graph().metric_of() == old(self).graph().metric_of(),
            r is Ok <==> parse_snapshot(snapshot_data@) is Some,
            r is Ok ==> final(self).after_restore(old(self), parse_snapshot(snapshot_data@)->0),
            r is Err ==> r->Err_0 == StorageError::Corrupt && final(self).same_state(old(self)),
    {
        let records: Vec<Record> = match decode_snapshot(snapshot_data) {
            Some(records) => records,
            None => {
                return Err(StorageError::Corrupt);
            },
        };
        let ghost recs = records_view(records@);
        let ghost log = self.segment_bytes();
        self.index.clear();
        self.bloom_filter = BloomFilter::new(FILTER_BITS, FILTER_HASHES);
        self.vector_index.clear();
        let ghost none = GraphView { nodes: Map::empty(), entry_point: None, max_layer: 0 };
        let ghost mut levels: Seq<nat> = Seq::empty();
        proof {
            assert(self.offsets() =~= Map::<u128, Seq<u64>>::empty());
            assert(self.versions() =~= Map::<u128, Seq<RecordView>>::empty());
            assert(recs.subrange(0, 0) =~= Seq::<RecordView>::empty());
            assert(log + frames(recs.subrange(0, 0)) =~= log);
            assert(self.graph().shape() == none);
        }
        let mut i: usize = 0;
        while i < records.len()
            invariant
                i <= records.len(),
                self.wf(),
                recs == records_view(records@),
                forall|t: int| 0 <= t < records@.len() ==> encodable(#[trigger] records@[t]@),
                self.graph().kernel() == old(self).graph().kernel(),
                self.graph().fan_out() == old(self).graph().fan_out(),
                self.graph().breadth() == old(self).graph().breadth(),
                self.graph().metric_of() == old(self).graph().metric_of(),
                self.filter().hashes() == FILTER_HASHES,
                self.filter().bits().len() == FILTER_BITS,
                self.versions() == inserted_all(Map::empty(), recs.subrange(0, i as int)),
                self.segment_bytes() == log + frames(recs.subrange(0, i as int)),
                self.offsets() == entered_all(Map::empty(), log.len(), recs.subrange(0, i as int)),
                forall|id: u128| #[trigger]
                    self.graph().shape().nodes.contains_key(id) <==> holds_key(recs.subrange(0, i as int), id),
                none == (GraphView { nodes: Map::empty(), entry_point: None, max_layer: 0 }),
                levels.len() == i,
                forall|t: int| 0 <= t < levels.len() ==> #[trigger] levels[t] <= MAX_LEVEL,
                graph_after(
                    none,
                    old(self).graph().kernel(),
                    old(self).graph().fan_out(),
                    recs.subrange(0, i as int),
                    levels,
                ) == self.graph().shape(),
                forall|j: int|
                    0 <= j < FILTER_BITS ==> (#[trigger] self.filter().bits()[j] <==> key_probed(
                        recs.subrange(0, i as int),
                        j,
                    )),
            decreases records.len() - i,
        {
            let record: Record = records[i].duplicate();
            let ghost rv = record@;
            let ghost g0 = self.graph().shape();
            let ghost s0 = self.graph().scores(rv.vector);
            let ghost m0 = self.graph().fan_out();
            let ghost part = recs.subrange(0, i as int);
            let ghost bits0 = self.filter().bits();
            let ghost offs0 = self.offsets();
            assert(rv == recs[i as int]);
            assert(encodable(records@[i as int]@));
            match self.insert(record) {
                Ok(_) => {},
                Err(e) => {
                    return Err(e);
                },
            }
            proof {
                let grown = recs.subrange(0, i + 1);
                assert(grown.drop_last() =~= part);
                assert(grown.last() == rv);
                lemma_frames_push(part, rv);
                assert(part.push(rv) =~= grown);
                assert(self.segment_bytes() =~= log + frames(grown));
                assert(self.offsets() == entered(offs0, rv.key, (log.len() + frames(part).len()) as u64));
                assert(self.offsets() == entered_all(Map::empty(), log.len(), grown));
                let level = choose|level: nat|
                    level <= MAX_LEVEL && #[trigger] insert_result(g0, s0, rv.key, rv.vector, level, m0)
                        == self.graph().shape();
                lemma_insert_dom(g0, s0, rv.key, rv.vector, level, m0);
                let before_levels = levels;
                levels = levels.push(level);
                assert(levels.drop_last() =~= before_levels);
                assert(levels.last() == level);
                assert(graph_after(
                    none,
                    old(self).graph().kernel(),
                    old(self).graph().fan_out(),
                    grown,
                    levels,
                ) == self.graph().shape());
                assert forall|j: int| 0 <= j < FILTER_BITS implies (#[trigger] self.filter().bits()[j]
                    <==> key_probed(grown, j)) by {
                    assert(self.filter().bits()[j] == (bits0[j] || probed(
                        sea_hash(key_bytes(rv.key)),
                        FILTER_HASHES,
                        FILTER_BITS as nat,
                        j,
                    )));
                    if key_probed(part, j) {
                        let t = choose|t: int|
                            0 <= t < part.len() && probed(
                                sea_hash(key_bytes((#[trigger] part[t]).key)),
                                FILTER_HASHES,
                                FILTER_BITS as nat,
                                j,
                            );
                        assert(grown[t] == part[t]);
                    }
                    if key_probed(grown, j) {
                        let t = choose|t: int|
                            0 <= t < grown.len() && probed(
                                sea_hash(key_bytes((#[trigger] grown[t]).key)),
                                FILTER_HASHES,
                                FILTER_BITS as nat,
                                j,
                            );
                        if t < part.len() {
                            assert(part[t] == grown[t]);
                        }
                    }
                    if probed(sea_hash(key_bytes(rv.key)), FILTER_HASHES, FILTER_BITS as nat, j) {
                        assert(grown[i as int] == rv);
                    }
                }
                assert forall|id: u128| #[trigger]
                    self.graph().shape().nodes.contains_key(id) <==> holds_key(grown, id) by {
                    if holds_key(part, id) {
                        let t = choose|t: int| 0 <= t < part.len() && (#[trigger] part[t]).key == id;
                        assert(grown[t].key == id);
                    }
                    if holds_key(grown, id) {
                        let t = choose|t: int| 0 <= t < grown.len() && (#[trigger] grown[t]).key == id;
                        if t < part.len() {
                            assert(part[t].key == id);
                        }
                    }
                    if id == rv.key {
                        assert(grown[i as int].key == id);
                    }
                }
            }
            i += 1;
        }
        proof {
            assert(recs.subrange(0, i as int) =~= recs);
        }
        Ok(())
    }

    /// Copies the records of `list` from `from` on into `target`, in order,
    /// and gives their new offsets.
    fn copy_versions(&self, key: u128, list: &Vec<u64>, from: usize, target: &mut Segment) -> (r:
        Result<Vec<u64>, StorageError>)
        requires
            from <= list@.len(),
            forall|t: int| 0 <= t < list@.len() ==> stored(self.segment_bytes(), key, #[trigger] list@[t]),
        ensures
            r is Ok,
            final(target)@ == old(target)@ + frames(
                versions_at(self.segment_bytes(), list@.subrange(from as int, list@.len() as int)),
            ),
            r->Ok_0@.len() == list@.len() - from,
            r->Ok_0@ == frame_offsets(
                old(target)@.len(),
                versions_at(self.segment_bytes(), list@.subrange(from as int, list@.len() as int)),
            ),
            forall|t: int|
                0 <= t < r->Ok_0@.len() ==> record_at(final(target)@, (#[trigger] r->Ok_0@[t]) as int)
                    == record_at(self.segment_bytes(), list@[from + t] as int),
    {
        let ghost log = self.segment_bytes();
        let ghost base = target@;
        let mut out: Vec<u64> = Vec::new();
        let mut j: usize = from;
        proof {
            assert(versions_at(log, list@.subrange(from as int, from as int)) =~= Seq::<RecordView>::empty());
            assert(base + frames(Seq::<RecordView>::empty()) =~= base);
        }
        while j < list.len()
            invariant
                from <= j <= list@.len(),
                log == self.segment_bytes(),
                forall|t: int| 0 <= t < list@.len() ==> stored(log, key, #[trigger] list@[t]),
                target@ == base + frames(versions_at(log, list@.subrange(from as int, j as int))),
                out@.len() == j - from,
                forall|t: int|
                    0 <= t < out@.len() ==> (#[trigger] out@[t]) == base.len() + frames(
                        versions_at(log, list@.subrange(from as int, from + t)),
                    ).len(),
                forall|t: int|
                    0 <= t < out@.len() ==> record_at(target@, (#[trigger] out@[t]) as int) == record_at(
                        log,
                        list@[from + t] as int,
                    ),
            decreases list.len() - j,
        {
            proof {
                assert(stored(log, key, list@[j as int]));
                lemma_stored_encodable(log, list@[j as int] as int);
            }
            match self.active_segment.read(list[j]) {
                Ok(record) => {
                    let ghost prior = target@;
                    let ghost prior_out = out@;
                    match target.append(&record) {
                        Ok(off) => {
                            out.push(off);
                            proof {
                                let added = frame(record_bytes(record@));
                                assert forall|t: int| 0 <= t < out@.len() implies record_at(
                                    target@,
                                    (#[trigger] out@[t]) as int,
                                ) == record_at(log, list@[from + t] as int) by {
                                    if t < prior_out.len() {
                                        assert(out@[t] == prior_out[t]);
                                        assert(stored(log, key, list@[from + t]));
                                        lemma_frame_stable(prior, added, prior_out[t] as int);
                                    }
                                }
                                let done = versions_at(log, list@.subrange(from as int, j as int));
                                let next = versions_at(log, list@.subrange(from as int, j + 1));
                                assert(next =~= done.push(record@)) by {
                                    assert forall|t: int| 0 <= t < next.len() implies next[t] == done.push(
                                        record@,
                                    )[t] by {
                                        assert(list@.subrange(from as int, j + 1)[t] == list@[from + t]);
                                        if t < done.len() {
                                            assert(list@.subrange(from as int, j as int)[t] == list@[from
                                                + t]);
                                        }
                                    }
                                }
                                lemma_frames_push(done, record@);
                                assert(target@ =~= base + frames(next));
                                assert(off == base.len() + frames(done).len());
                                assert forall|t: int| 0 <= t < out@.len() implies (#[trigger] out@[t])
                                    == base.len() + frames(
                                    versions_at(log, list@.subrange(from as int, from + t)),
                                ).len() by {
                                    if t < prior_out.len() {
                                        assert(out@[t] == prior_out[t]);
                                    }
                                }
                            }
                        },
                        Err(e) => {
                            return Err(e);
                        },
                    }
                },
                Err(e) => {
                    return Err(e);
                },
            }
            j += 1;
        }
        proof {
            let tail = versions_at(log, list@.subrange(from as int, list@.len() as int));
            let want = frame_offsets(base.len(), tail);
            assert forall|t: int| 0 <= t < out@.len() implies out@[t] == want[t] by {
                let part = versions_at(log, list@.subrange(from as int, from + t));
                assert(part =~= tail.subrange(0, t)) by {
                    assert forall|u: int| 0 <= u < t implies part[u] == tail.subrange(0, t)[u] by {
                        assert(list@.subrange(from as int, from + t)[u] == list@[from + u]);
                        assert(list@.subrange(from as int, list@.len() as int)[u] == list@[from + u]);
                    }
                }
            }
            assert(out@ =~= want);
        }
        Ok(out)
    }

    /// Works a compaction out without carrying it out: the versions that
    /// stay, the newest `history_limit` of every key, are copied, key by key
    /// and oldest first, into a new segment, and their offsets into a new
    /// table. The store stays as it is.
    pub fn plan_compaction(&self, history_limit: usize) -> (r: Result<Compaction, StorageError>)
        requires
            self.wf(),
        ensures
            r is Ok,
            r->Ok_0.fits(self.versions()),
            r->Ok_0.kept() == history_limit,
    {
        let ghost v = self.versions();
        let ghost log = self.segment_bytes();
        let ghost offs = self.offsets();
        let ghost limit = history_limit as nat;
        proof {
            assert(offs.dom() =~= self.index@.dom());
        }
        let keys: Vec<u128> = key_list(&self.index);
        let mut new_segment: Segment = Segment::new(Vec::new());
        let mut new_index: HashMap<u128, Vec<u64>> = HashMap::new();
        let mut i: usize = 0;
        proof {
            assert(offsets_view(new_index@) =~= Map::<u128, Seq<u64>>::empty());
            assert(keys@.subrange(0, 0) =~= Seq::<u128>::empty());
            assert(new_segment@ =~= retained_bytes(v, keys@.subrange(0, 0), limit));
        }
        while i < keys.len()
            invariant
                self.wf(),
                v == self.versions(),
                log == self.segment_bytes(),
                offs == self.offsets(),
                offs == offsets_view(self.index@),
                enumerates(keys@, offs.dom()),
                i <= keys.len(),
                limit == history_limit as nat,
                new_segment@ == retained_bytes(v, keys@.subrange(0, i as int), limit),
                forall|j: int|
                    0 <= j < i ==> offsets_view(new_index@)[#[trigger] keys@[j]] == frame_offsets(
                        retained_bytes(v, keys@.subrange(0, j), limit).len(),
                        keep_last(v[keys@[j]], limit),
                    ),
                index_wf(new_segment@, offsets_view(new_index@)),
                forall|k: u128|
                    #![trigger offsets_view(new_index@).contains_key(k)]
                    #![trigger named_before(keys@, i as int, k)]
                    offsets_view(new_index@).contains_key(k) <==> named_before(keys@, i as int, k),
                forall|k: u128| #[trigger]
                    offsets_view(new_index@).contains_key(k) ==> versions_at(
                        new_segment@,
                        offsets_view(new_index@)[k],
                    ) == keep_last(v[k], limit),
            decreases keys.len() - i,
        {
            let k: u128 = keys[i];
            assert(keys@.contains(k));
            let ghost seg0 = new_segment@;
            let ghost idx0 = offsets_view(new_index@);
            let list: &Vec<u64> = match self.index.get(&k) {
                Some(list) => list,
                None => {
                    return Err(StorageError::Corrupt);
                },
            };
            let from: usize = if list.len() > history_limit {
                list.len() - history_limit
            } else {
                0
            };
            proof {
                assert forall|t: int| 0 <= t < list@.len() implies stored(log, k, #[trigger] list@[t]) by {
                    assert(stored(log, k, offs[k][t]));
                }
            }
            let copied: Vec<u64> = match self.copy_versions(k, list, from, &mut new_segment) {
                Ok(c) => c,
                Err(e) => {
                    return Err(e);
                },
            };
            let ghost copied_view = copied@;
            new_index.insert(k, copied);
            proof {
                let seg1 = new_segment@;
                let idx1 = offsets_view(new_index@);
                let h = v[k];
                assert(h == versions_at(log, offs[k]));
                assert(list@ == offs[k]);
                let tail = versions_at(log, list@.subrange(from as int, list@.len() as int));
                assert(tail =~= keep_last(h, limit)) by {
                    assert forall|t: int| 0 <= t < tail.len() implies tail[t] == keep_last(h, limit)[t] by {
                        assert(list@.subrange(from as int, list@.len() as int)[t] == list@[from + t]);
                    }
                }
                let more = frames(tail);
                lemma_index_stable(seg0, more, idx0);
                assert(idx1 =~= idx0.insert(k, copied_view));
                assert(keys@.subrange(0, i + 1).drop_last() =~= keys@.subrange(0, i as int));
                assert(keys@.subrange(0, i + 1).last() == k);
                assert(seg1 == retained_bytes(v, keys@.subrange(0, i + 1), limit));
                assert forall|j: int| 0 <= j < i + 1 implies idx1[#[trigger] keys@[j]] == frame_offsets(
                    retained_bytes(v, keys@.subrange(0, j), limit).len(),
                    keep_last(v[keys@[j]], limit),
                ) by {
                    if j < i {
                        assert(keys@[j] != keys@[i as int]);
                        assert(idx1[keys@[j]] == idx0[keys@[j]]);
                    } else {
                        assert(idx1[k] == copied_view);
                    }
                }
                assert(h.len() == list@.len());
                assert(copied_view.len() == list@.len() - from);
                assert(keep_last(h, limit).len() == list@.len() - from);
                assert(versions_at(seg1, copied_view) =~= keep_last(h, limit)) by {
                    assert forall|t: int| 0 <= t < copied_view.len() implies versions_at(
                        seg1,
                        copied_view,
                    )[t] == keep_last(h, limit)[t] by {
                        assert(record_at(seg1, copied_view[t] as int) == record_at(
                            log,
                            list@[from + t] as int,
                        ));
                        assert(keep_last(h, limit)[t] == h[from + t]);
                        assert(h[from + t] == record_at(log, list@[from + t] as int).unwrap());
                    }
                }
                assert forall|q: u128, t: int| idx1.contains_key(q) && 0 <= t < idx1[q].len() implies stored(
                    seg1,
                    q,
                    #[trigger] idx1[q][t],
                ) by {
                    if q == k {
                        assert(record_at(seg1, copied_view[t] as int) == record_at(
                            log,
                            list@[from + t] as int,
                        ));
                        assert(stored(log, k, list@[from + t]));
                    } else {
                        assert(stored(seg1, q, idx0[q][t]));
                    }
                }
                let n1: int = i + 1;
                assert forall|q: u128|
                    #![trigger idx1.contains_key(q)]
                    #![trigger named_before(keys@, n1, q)]
                    idx1.contains_key(q) <==> named_before(keys@, n1, q) by {
                    if idx0.contains_key(q) {
                        assert(named_before(keys@, i as int, q));
                        let j = choose|j: int| 0 <= j < i && j < keys@.len() && #[trigger] keys@[j] == q;
                        assert(keys@[j] == q);
                    }
                    if q == k {
                        assert(keys@[i as int] == q);
                    }
                    if named_before(keys@, n1, q) {
                        let j = choose|j: int| 0 <= j < n1 && j < keys@.len() && #[trigger] keys@[j] == q;
                        if j < i {
                            assert(named_before(keys@, i as int, q));
                        }
                    }
                }
                assert forall|q: u128| #[trigger] idx1.contains_key(q) implies versions_at(
                    seg1,
                    idx1[q],
                ) == keep_last(v[q], limit) by {
                    if q != k {
                        assert(idx0.contains_key(q));
                        assert(versions_of(seg1, idx0)[q] == versions_of(seg0, idx0)[q]);
                    }
                }
            }
            i += 1;
        }
        proof {
            let idx1 = offsets_view(new_index@);
            assert forall|q: u128| idx1.contains_key(q) <==> offs.contains_key(q) by {
                if offs.contains_key(q) {
                    assert(keys@.contains(q));
                    let j = choose|j: int| 0 <= j < keys@.len() && keys@[j] == q;
                    assert(named_before(keys@, i as int, q));
                }
                if idx1.contains_key(q) {
                    assert(named_before(keys@, i as int, q));
                    let j = choose|j: int| 0 <= j < i && j < keys@.len() && #[trigger] keys@[j] == q;
                    assert(keys@.contains(keys@[j]));
                }
            }
            assert(versions_of(new_segment@, idx1) =~= compacted(v, limit));
            assert(keys@.subrange(0, i as int) =~= keys@);
            assert(v.dom() =~= offs.dom());
            assert(retained_bytes(v, keys@, limit) == new_segment@);
            assert forall|key: u128| idx1.contains_key(key) <==> v.contains_key(key) by {}
            assert(is_compaction(new_segment@, idx1, v, keys@, limit));
        }
        let plan = Compaction { segment: new_segment, index: new_index, limit: history_limit };
        proof {
            assert(is_compaction(plan.bytes(), plan.table(), v, keys@, plan.kept()));
        }
        Ok(plan)
    }

    /// Carries out a compaction that was worked out for this store: its
    /// segment and table take the place of those of the store. Filter and
    /// graph are not touched.
    pub fn commit_compaction(&mut self, plan: Compaction)
        requires
            old(self).wf(),
            plan.fits(old(self).versions()),
        ensures
            final(self).wf(),
            final(self).same_config(old(self)),
            final(self).segment_bytes() == plan.bytes(),
            final(self).offsets() == plan.table(),
            final(self).versions() == compacted(old(self).versions(), plan.kept()),
            final(self).filter().bits() == old(self).filter().bits(),
            final(self).graph().shape() == old(self).graph().shape(),
    {
        proof {
            assert forall|k: u128| #[trigger] plan.table().contains_key(k) implies self.offsets().contains_key(
                k,
            ) by {
                assert(compacted(self.versions(), plan.kept()).contains_key(k));
            }
        }
        self.index = plan.index;
        self.active_segment = plan.segment;
    }

    /// Cuts every key down to its newest `history_limit` versions.
    ///
    /// The versions that stay are copied, key by key and oldest first, into
    /// a new segment, which takes the place of the old one together with a
    /// table of the new offsets. Every key stays in the table, also with no
    /// version left. Filter and graph are not touched.
    pub fn compact(&mut self, history_limit: usize) -> (r: Result<(), StorageError>)
        requires
            old(self).wf(),
        ensures
            final(self).wf(),
            final(self).same_config(old(self)),
            r is Ok,
            final(self).versions() == compacted(old(self).versions(), history_limit as nat),
            exists|order: Seq<u128>|
                enumerates(order, old(self).versions().dom()) && #[trigger] is_compaction(
                    final(self).segment_bytes(),
                    final(self).offsets(),
                    old(self).versions(),
                    order,
                    history_limit as nat,
                ),
            final(self).filter().bits() == old(self).filter().bits(),
            final(self).graph().shape() == old(self).graph().shape(),
    {
        let plan: Compaction = match self.plan_compaction(history_limit) {
            Ok(plan) => plan,
            Err(e) => {
                return Err(e);
            },
        };
        self.commit_compaction(plan);
        Ok(())
    }
}

} // verus!
