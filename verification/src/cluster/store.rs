use crate::cluster::types::{
    applied, record_of, request_fails, wanted_record, ChronosRequest, ChronosResponse, RequestView,
};
use crate::codec::{encode_frame, frame, record_bytes};
use crate::codec::snapshot_bytes;
use crate::model::{Record, RecordView};
use crate::ordered::{rising, sorted_keys};
use crate::storage::{message_text, StorageError};
use crate::versions::is_latest_image;
use crate::ChronosDb;
use std::collections::BTreeMap;
use vstd::pervasive::cloned;
use vstd::prelude::*;
use vstd::string::StringExecFns;

verus! {

broadcast use vstd::std_specs::btree::group_btree_axioms;

/// Position of an entry in the replicated log, and the leadership under
/// which it was written.
#[derive(Clone, Copy, Debug, PartialEq, Eq, Structural)]
pub struct LogId {
    pub term: u64,
    pub node_id: u64,
    pub index: u64,
}

/// A vote cast in an election.
#[derive(Clone, Copy, Debug, PartialEq, Eq, Structural)]
pub struct Vote {
    pub term: u64,
    pub node_id: u64,
    pub committed: bool,
}

/// What a log entry carries. `M` is the description of a cluster
/// membership, which the store keeps and hands on without looking into it.
#[derive(Clone, Debug)]
pub enum EntryPayload<M> {
    /// A heartbeat.
    Blank,
    /// A write to the store.
    Normal(ChronosRequest),
    /// A change of membership.
    Membership(M),
}

/// An entry of the replicated log.
#[derive(Clone, Debug)]
pub struct Entry<M> {
    pub log_id: LogId,
    pub payload: EntryPayload<M>,
}

/// A membership and the log entry that brought it.
#[derive(Clone, Debug)]
pub struct StoredMembership<M> {
    pub log_id: Option<LogId>,
    pub membership: M,
}

/// What a snapshot stands for.
#[derive(Clone, Debug)]
pub struct SnapshotMeta<M> {
    pub last_log_id: Option<LogId>,
    pub last_membership: StoredMembership<M>,
    pub snapshot_id: String,
}

/// An image of the store with what it stands for.
#[derive(Clone, Debug)]
pub struct Snapshot<M> {
    pub meta: SnapshotMeta<M>,
    pub data: Vec<u8>,
}

/// The ends of the log.
#[derive(Clone, Copy, Debug, PartialEq, Eq, Structural)]
pub struct LogState {
    pub last_purged_log_id: Option<LogId>,
    pub last_log_id: Option<LogId>,
}

/// One end of a range of log indices.
#[derive(Clone, Copy, Debug, PartialEq, Eq, Structural)]
pub enum LogBound {
    Included(u64),
    Excluded(u64),
    Unbounded,
}

/// Whether `k` lies between the two bounds.
pub open spec fn in_bounds(k: u64, from: LogBound, to: LogBound) -> bool {
    &&& match from {
        LogBound::Included(a) => a <= k,
        LogBound::Excluded(a) => a < k,
        LogBound::Unbounded => true,
    }
    &&& match to {
        LogBound::Included(b) => k <= b,
        LogBound::Excluded(b) => k < b,
        LogBound::Unbounded => true,
    }
}

/// Whether `b` is a copy of `a`.
pub open spec fn same_membership<M: Clone>(a: StoredMembership<M>, b: StoredMembership<M>) -> bool {
    a.log_id == b.log_id && cloned(a.membership, b.membership)
}

/// Whether `b` is a copy of `a`.
pub open spec fn same_snapshot<M: Clone>(a: Snapshot<M>, b: Snapshot<M>) -> bool {
    &&& a.meta.last_log_id == b.meta.last_log_id
    &&& same_membership(a.meta.last_membership, b.meta.last_membership)
    &&& a.meta.snapshot_id@ == b.meta.snapshot_id@
    &&& a.data@ == b.data@
}

/// Whether `k` is one of the first `i` entries of `keys`.
pub open spec fn seen_before(keys: Seq<u64>, i: int, k: u64) -> bool {
    exists|j: int| 0 <= j < i && j < keys.len() && #[trigger] keys[j] == k
}

/// Whether one of `entries` has the index `k`.
pub open spec fn has_entry<M>(entries: Seq<&Entry<M>>, k: u64) -> bool {
    exists|t: int| 0 <= t < entries.len() && (#[trigger] entries[t]).log_id.index == k
}

/// Whether `k` is the highest index of the log.
pub open spec fn is_top<M>(log: Map<u64, Entry<M>>, k: u64) -> bool {
    log.contains_key(k) && forall|j: u64| log.contains_key(j) ==> j <= k
}

/// The store after an entry was applied: a write does what it says, a
/// heartbeat and a membership change leave the records alone.
pub open spec fn applied_entry<M>(v: Map<u128, Seq<RecordView>>, e: Entry<M>) -> Map<
    u128,
    Seq<RecordView>,
> {
    match e.payload {
        EntryPayload::Normal(req) => applied(v, req@),
        _ => v,
    }
}

/// The store after the entries were applied in turn.
pub open spec fn applied_all<M>(v: Map<u128, Seq<RecordView>>, entries: Seq<Entry<M>>) -> Map<
    u128,
    Seq<RecordView>,
>
    decreases entries.len(),
{
    if entries.len() == 0 {
        v
    } else {
        applied_entry(applied_all(v, entries.drop_last()), entries.last())
    }
}

/// Position in `entries` of the last change of membership, if there is one.
pub open spec fn last_membership<M>(entries: Seq<Entry<M>>) -> Option<int>
    decreases entries.len(),
{
    if entries.len() == 0 {
        None
    } else if entries.last().payload is Membership {
        Some(entries.len() - 1)
    } else {
        last_membership(entries.drop_last())
    }
}

/// Whether an entry is answered as a success: a heartbeat and a membership
/// change always, a write unless the store refuses it.
pub open spec fn entry_succeeds<M>(v: Map<u128, Seq<RecordView>>, e: Entry<M>) -> bool {
    match e.payload {
        EntryPayload::Normal(req) => !request_fails(v, req@),
        _ => true,
    }
}

/// The text of the answer to an entry applied to a store with the versions
/// `v`: for a write that the store refuses, the description of the error.
pub open spec fn reply_text<M>(v: Map<u128, Seq<RecordView>>, e: Entry<M>) -> Seq<char> {
    match e.payload {
        EntryPayload::Normal(req) => if request_fails(v, req@) {
            message_text(StorageError::RecordTooLarge)
        } else {
            "OK"@
        },
        EntryPayload::Membership(_) => "Membership Change"@,
        EntryPayload::Blank => "Heartbeat"@,
    }
}

/// The log after the entries were filed, each under its index; of two
/// entries with one index the later stays.
pub open spec fn filed<M>(log: Map<u64, Entry<M>>, entries: Seq<Entry<M>>) -> Map<u64, Entry<M>>
    decreases entries.len(),
{
    if entries.len() == 0 {
        log
    } else {
        filed(log, entries.drop_last()).insert(entries.last().log_id.index, entries.last())
    }
}

/// `uuid::Uuid::new_v4`, in its hyphenated text form: a random identifier.
/// Nothing is promised about it.
#[verifier::external_body]
fn fresh_snapshot_id() -> String {
    uuid::Uuid::new_v4().to_string()
}

impl<M: Clone> StoredMembership<M> {
    /// A copy: the same log id, and a clone of the membership.
    pub fn duplicate(&self) -> (r: Self)
        ensures
            same_membership(*self, r),
    {
        StoredMembership { log_id: self.log_id, membership: self.membership.clone() }
    }
}

impl<M: Clone> Snapshot<M> {
    /// A copy: the same image, id and log id, and a clone of the membership.
    pub fn duplicate(&self) -> (r: Self)
        ensures
            same_snapshot(*self, r),
    {
        Snapshot {
            meta: SnapshotMeta {
                last_log_id: self.meta.last_log_id,
                last_membership: self.meta.last_membership.duplicate(),
                snapshot_id: self.meta.snapshot_id.clone(),
            },
            data: self.data.clone(),
        }
    }
}

/// Whether `after` is `before` with the write applied: a delete drops the
/// key; an insert or update that yields a record appends it; anything else
/// changes nothing.
pub open spec fn after_request<F: Fn(&Vec<u32>, &Vec<u32>) -> u32>(
    after: &ChronosDb<F>,
    before: &ChronosDb<F>,
    req: RequestView,
) -> bool {
    match req {
        RequestView::Delete { id } => after.after_delete(before, id),
        _ => match record_of(before.versions(), req) {
            Some(r) => after.after_insert(before, r),
            None => after.same_state(before),
        },
    }
}

/// Whether `after` is `before` with the entry applied: a write does what
/// [`after_request`] says, a heartbeat and a membership change leave the
/// store as it is.
pub open spec fn after_entry<F: Fn(&Vec<u32>, &Vec<u32>) -> u32, M>(
    after: &ChronosDb<F>,
    before: &ChronosDb<F>,
    e: Entry<M>,
) -> bool {
    match e.payload {
        EntryPayload::Normal(req) => after_request(after, before, req@),
        _ => after.same_state(before),
    }
}

/// Whether entry `i` leads from state `i` to the next.
pub open spec fn step_holds<F: Fn(&Vec<u32>, &Vec<u32>) -> u32, M>(
    states: Seq<ChronosDb<F>>,
    entries: Seq<Entry<M>>,
    i: int,
) -> bool {
    after_entry(&states[i + 1], &states[i], entries[i])
}

/// Whether `states` are the stores that applying the entries in turn goes
/// through, from the store before the first entry to the store after the
/// last.
pub open spec fn is_run<F: Fn(&Vec<u32>, &Vec<u32>) -> u32, M>(
    states: Seq<ChronosDb<F>>,
    entries: Seq<Entry<M>>,
) -> bool {
    &&& states.len() == entries.len() + 1
    &&& forall|i: int| 0 <= i < entries.len() ==> #[trigger] step_holds(states, entries, i)
}

/// The record that the request asks the store to append, if it asks for
/// one.
pub fn pending_record<F: Fn(&Vec<u32>, &Vec<u32>) -> u32>(db: &ChronosDb<F>, req: &ChronosRequest) -> (r:
    Option<Record>)
    requires
        db.wf(),
    ensures
        r is Some <==> wanted_record(db.versions(), req@) is Some,
        r is Some ==> r->0@ == wanted_record(db.versions(), req@)->0,
{
    match req {
        ChronosRequest::Insert { id, vector, payload, ts } => Some(
            Record::new(*id, vector.clone(), payload.clone(), *ts),
        ),
        ChronosRequest::Update { id, payload, ts } => {
            match db.get_latest(*id) {
                Some(prev) => Some(Record::new(*id, prev.vector, payload.clone(), *ts)),
                None => None,
            }
        },
        ChronosRequest::Delete { id } => None,
    }
}

/// The frame that applying the request will append to the segment, for
/// whoever writes it to disk first. None where the request appends
/// nothing: a delete, an update of a key without current version, and a
/// request that the store refuses.
pub fn pending_frame<F: Fn(&Vec<u32>, &Vec<u32>) -> u32>(db: &ChronosDb<F>, req: &ChronosRequest) -> (r:
    Option<Vec<u8>>)
    requires
        db.wf(),
    ensures
        r is Some <==> record_of(db.versions(), req@) is Some,
        r is Some ==> r->0@ == frame(record_bytes(record_of(db.versions(), req@)->0)),
{
    match pending_record(db, req) {
        Some(record) => encode_frame(&record),
        None => None,
    }
}

/// Applies a write to the store and hands on what the store answers. The
/// store refuses a record too large to be framed, and is then unchanged. An
/// update of a key without current version does nothing and is no failure.
pub fn apply_request<F: Fn(&Vec<u32>, &Vec<u32>) -> u32>(db: &mut ChronosDb<F>, req: &ChronosRequest) -> (r:
    Result<(), StorageError>)
    requires
        old(db).wf(),
    ensures
        final(db).wf(),
        final(db).same_config(old(db)),
        final(db).versions() == applied(old(db).versions(), req@),
        after_request(final(db), old(db), req@),
        r is Err <==> request_fails(old(db).versions(), req@),
        r is Err ==> r->Err_0 == StorageError::RecordTooLarge,
{
    match pending_record(db, req) {
        Some(record) => db.insert(record),
        None => {
            match req {
                ChronosRequest::Delete { id } => db.delete(*id),
                _ => Ok(()),
            }
        },
    }
}

/// The log store and the bookkeeping of the state machine of one node.
pub struct ChronosStore<M> {
    current_snapshot: Option<Snapshot<M>>,
    last_purged_log_id: Option<LogId>,
    log: BTreeMap<u64, Entry<M>>,
    vote: Option<Vote>,
    stored_membership: StoredMembership<M>,
}

impl<M: Clone> ChronosStore<M> {
    /// The entries of the log, by index.
    pub closed spec fn log(&self) -> Map<u64, Entry<M>> {
        self.log@
    }

    /// The vote saved last.
    pub closed spec fn vote(&self) -> Option<Vote> {
        self.vote
    }

    /// The id up to which the log was purged.
    pub closed spec fn last_purged(&self) -> Option<LogId> {
        self.last_purged_log_id
    }

    /// The membership in force.
    pub closed spec fn membership(&self) -> StoredMembership<M> {
        self.stored_membership
    }

    /// The snapshot built or installed last.
    pub closed spec fn cached(&self) -> Option<Snapshot<M>> {
        self.current_snapshot
    }

    /// Every entry is filed under its own index.
    pub open spec fn wf(&self) -> bool {
        forall|k: u64| #[trigger] self.log().contains_key(k) ==> self.log()[k].log_id.index == k
    }

    /// Whether everything but the log is as in `other`.
    pub open spec fn same_books(&self, other: &Self) -> bool {
        &&& self.vote() == other.vote()
        &&& self.last_purged() == other.last_purged()
        &&& self.membership() == other.membership()
        &&& self.cached() == other.cached()
    }

    /// A store with an empty log, no vote, no snapshot, and the membership
    /// that the cluster starts from.
    pub fn new(initial: M) -> (s: Self)
        ensures
            s.wf(),
            s.log() == Map::<u64, Entry<M>>::empty(),
            s.vote() is None,
            s.last_purged() is None,
            s.cached() is None,
            s.membership() == (StoredMembership { log_id: None, membership: initial }),
    {
        ChronosStore {
            current_snapshot: None,
            last_purged_log_id: None,
            log: BTreeMap::new(),
            vote: None,
            stored_membership: StoredMembership { log_id: None, membership: initial },
        }
    }

    /// The id of the entry with the highest index.
    fn top_log_id(&self) -> (r: Option<LogId>)
        ensures
            r is None <==> (forall|k: u64| !self.log().contains_key(k)),
            r is Some ==> exists|k: u64| #[trigger] is_top(self.log(), k) && r == Some(self.log()[k].log_id),
    {
        let keys: Vec<u64> = sorted_keys(&self.log);
        if keys.len() == 0 {
            proof {
                assert forall|k: u64| !self.log().contains_key(k) by {
                    if self.log().contains_key(k) {
                        assert(keys@.contains(k));
                    }
                }
            }
            return None;
        }
        let top: u64 = keys[keys.len() - 1];
        proof {
            assert(keys@.contains(top));
            assert forall|j: u64| self.log().contains_key(j) implies j <= top by {
                assert(keys@.contains(j));
                let t = choose|t: int| 0 <= t < keys@.len() && keys@[t] == j;
                if t < keys@.len() - 1 {
                    assert(keys@[t] < keys@[keys@.len() - 1]);
                }
            }
            assert(is_top(self.log(), top));
        }
        match self.log.get(&top) {
            Some(e) => Some(e.log_id),
            None => None,
        }
    }

    /// The last purged id, and the id of the last entry present; where the
    /// log is empty, the last purged id stands for both.
    pub fn get_log_state(&self) -> (r: LogState)
        ensures
            r.last_purged_log_id == self.last_purged(),
            (forall|k: u64| !self.log().contains_key(k)) ==> r.last_log_id == self.last_purged(),
            (exists|k: u64| self.log().contains_key(k)) ==> exists|k: u64| #[trigger]
                is_top(self.log(), k) && r.last_log_id == Some(self.log()[k].log_id),
    {
        let last_log: Option<LogId> = self.top_log_id();
        let last_log_id: Option<LogId> = match last_log {
            Some(id) => Some(id),
            None => self.last_purged_log_id,
        };
        LogState { last_purged_log_id: self.last_purged_log_id, last_log_id }
    }

    /// Keeps `vote` in place of the vote kept before.
    pub fn save_vote(&mut self, vote: &Vote)
        ensures
            final(self).vote() == Some(*vote),
            final(self).log() == old(self).log(),
            final(self).last_purged() == old(self).last_purged(),
            final(self).membership() == old(self).membership(),
            final(self).cached() == old(self).cached(),
    {
        self.vote = Some(*vote);
    }

    /// The vote saved last.
    pub fn read_vote(&self) -> (r: Option<Vote>)
        ensures
            r == self.vote(),
    {
        self.vote
    }

    /// Files the entries, each under its index.
    pub fn append_to_log(&mut self, entries: Vec<Entry<M>>)
        requires
            old(self).wf(),
        ensures
            final(self).wf(),
            final(self).log() == filed(old(self).log(), entries@),
            final(self).same_books(old(self)),
    {
        let ghost all = entries@;
        let ghost start = self.log@;
        proof {
            assert(all.take(0) =~= Seq::<Entry<M>>::empty());
        }
        for entry in it: entries
            invariant
                it.seq() == all,
                self.wf(),
                self.same_books(old(self)),
                start == old(self).log(),
                self.log@ == filed(start, all.take(it.index())),
        {
            proof {
                let n = it.index();
                assert(all.take(n + 1).drop_last() =~= all.take(n));
                assert(all.take(n + 1).last() == entry);
            }
            self.log.insert(entry.log_id.index, entry);
        }
        proof {
            assert(all.take(all.len() as int) =~= all);
        }
    }

    /// Drops the entries from `log_id`'s index on.
    pub fn delete_conflict_logs_since(&mut self, log_id: LogId)
        requires
            old(self).wf(),
        ensures
            final(self).wf(),
            final(self).same_books(old(self)),
            forall|k: u64| #[trigger]
                final(self).log().contains_key(k) <==> old(self).log().contains_key(k) && k
                    < log_id.index,
            forall|k: u64| #[trigger]
                final(self).log().contains_key(k) ==> final(self).log()[k] == old(self).log()[k],
    {
        let keys: Vec<u64> = sorted_keys(&self.log);
        let mut i: usize = 0;
        while i < keys.len()
            invariant
                i <= keys.len(),
                self.same_books(old(self)),
                forall|k: u64| keys@.contains(k) <==> old(self).log().contains_key(k),
                forall|k: u64| #[trigger]
                    self.log@.contains_key(k) <==> old(self).log().contains_key(k) && (k
                        < log_id.index || !keys@.subrange(0, i as int).contains(k)),
                forall|k: u64| #[trigger]
                    self.log@.contains_key(k) ==> self.log@[k] == old(self).log()[k],
            decreases keys.len() - i,
        {
            let k: u64 = keys[i];
            if k >= log_id.index {
                self.log.remove(&k);
            }
            proof {
                let done = keys@.subrange(0, i as int);
                let more = keys@.subrange(0, i + 1);
                assert(more[i as int] == k);
                assert forall|x: u64| more.contains(x) <==> (done.contains(x) || x == k) by {
                    if done.contains(x) {
                        let t = choose|t: int| 0 <= t < done.len() && done[t] == x;
                        assert(more[t] == x);
                    }
                    if more.contains(x) {
                        let t = choose|t: int| 0 <= t < more.len() && more[t] == x;
                        if t < i {
                            assert(done[t] == x);
                        }
                    }
                }
            }
            i += 1;
        }
        proof {
            assert(keys@.subrange(0, i as int) =~= keys@);
        }
    }

    /// Records `log_id` as purged and drops the entries up to its index.
    pub fn purge_logs_upto(&mut self, log_id: LogId)
        requires
            old(self).wf(),
        ensures
            final(self).wf(),
            final(self).last_purged() == Some(log_id),
            final(self).vote() == old(self).vote(),
            final(self).membership() == old(self).membership(),
            final(self).cached() == old(self).cached(),
            forall|k: u64| #[trigger]
                final(self).log().contains_key(k) <==> old(self).log().contains_key(k) && k
                    > log_id.index,
            forall|k: u64| #[trigger]
                final(self).log().contains_key(k) ==> final(self).log()[k] == old(self).log()[k],
    {
        self.last_purged_log_id = Some(log_id);
        let keys: Vec<u64> = sorted_keys(&self.log);
        let mut i: usize = 0;
        while i < keys.len()
            invariant
                i <= keys.len(),
                self.last_purged_log_id == Some(log_id),
                self.vote == old(self).vote,
                self.stored_membership == old(self).stored_membership,
                self.current_snapshot == old(self).current_snapshot,
                forall|k: u64| keys@.contains(k) <==> old(self).log().contains_key(k),
                forall|k: u64| #[trigger]
                    self.log@.contains_key(k) <==> old(self).log().contains_key(k) && (k
                        > log_id.index || !keys@.subrange(0, i as int).contains(k)),
                forall|k: u64| #[trigger]
                    self.log@.contains_key(k) ==> self.log@[k] == old(self).log()[k],
            decreases keys.len() - i,
        {
            let k: u64 = keys[i];
            if k <= log_id.index {
                self.log.remove(&k);
            }
            proof {
                let done = keys@.subrange(0, i as int);
                let more = keys@.subrange(0, i + 1);
                assert(more[i as int] == k);
                assert forall|x: u64| more.contains(x) <==> (done.contains(x) || x == k) by {
                    if done.contains(x) {
                        let t = choose|t: int| 0 <= t < done.len() && done[t] == x;
                        assert(more[t] == x);
                    }
                    if more.contains(x) {
                        let t = choose|t: int| 0 <= t < more.len() && more[t] == x;
                        if t < i {
                            assert(done[t] == x);
                        }
                    }
                }
            }
            i += 1;
        }
        proof {
            assert(keys@.subrange(0, i as int) =~= keys@);
        }
    }

    /// The id applied last, which is not kept, and the membership in force.
    pub fn last_applied_state(&self) -> (r: (Option<LogId>, StoredMembership<M>))
        ensures
            r.0 is None,
            same_membership(self.membership(), r.1),
    {
        (None, self.stored_membership.duplicate())
    }

    /// Applies one committed entry: a write goes to the store, a membership
    /// change is recorded with the entry's id, a heartbeat does nothing.
    /// The answer reports a failure, with its description, exactly for a
    /// write that the store refuses.
    pub fn apply_entry<F: Fn(&Vec<u32>, &Vec<u32>) -> u32>(
        &mut self,
        db: &mut ChronosDb<F>,
        entry: &Entry<M>,
    ) -> (resp: ChronosResponse)
        requires
            old(db).wf(),
        ensures
            final(db).wf(),
            final(db).same_config(old(db)),
            final(db).versions() == applied_entry(old(db).versions(), *entry),
            after_entry(final(db), old(db), *entry),
            resp.success == entry_succeeds(old(db).versions(), *entry),
            resp.message@ == reply_text(old(db).versions(), *entry),
            final(self).log() == old(self).log(),
            final(self).vote() == old(self).vote(),
            final(self).last_purged() == old(self).last_purged(),
            final(self).cached() == old(self).cached(),
            match entry.payload {
                EntryPayload::Membership(m) => final(self).membership().log_id == Some(entry.log_id)
                    && cloned(m, final(self).membership().membership),
                _ => final(self).membership() == old(self).membership(),
            },
    {
        match &entry.payload {
            EntryPayload::Normal(req) => {
                match apply_request(db, req) {
                    Ok(_) => ChronosResponse { success: true, message: String::from_str("OK") },
                    Err(e) => ChronosResponse {
                        success: false,
                        message: String::from_str(e.message()),
                    },
                }
            },
            EntryPayload::Membership(m) => {
                self.stored_membership = StoredMembership {
                    log_id: Some(entry.log_id),
                    membership: m.clone(),
                };
                ChronosResponse { success: true, message: String::from_str("Membership Change") }
            },
            EntryPayload::Blank => {
                ChronosResponse { success: true, message: String::from_str("Heartbeat") }
            },
        }
    }

    /// Applies committed entries in order and answers each, as
    /// [`ChronosStore::apply_entry`] answers it on the store that the
    /// entries before it left. The store goes through one state per entry,
    /// each the one before with the entry applied.
    pub fn apply_to_state_machine<F: Fn(&Vec<u32>, &Vec<u32>) -> u32>(
        &mut self,
        db: &mut ChronosDb<F>,
        entries: &Vec<Entry<M>>,
    ) -> (responses: Vec<ChronosResponse>)
        requires
            old(db).wf(),
        ensures
            final(db).wf(),
            final(db).same_config(old(db)),
            final(db).versions() == applied_all(old(db).versions(), entries@),
            exists|states: Seq<ChronosDb<F>>|
                {
                    &&& #[trigger] is_run(states, entries@)
                    &&& states[0] == *old(db)
                    &&& states[entries@.len() as int] == *final(db)
                },
            responses@.len() == entries@.len(),
            forall|i: int|
                0 <= i < responses@.len() ==> {
                    &&& (#[trigger] responses@[i]).success == entry_succeeds(
                        applied_all(old(db).versions(), entries@.subrange(0, i)),
                        entries@[i],
                    )
                    &&& responses@[i].message@ == reply_text(
                        applied_all(old(db).versions(), entries@.subrange(0, i)),
                        entries@[i],
                    )
                },
            final(self).log() == old(self).log(),
            final(self).vote() == old(self).vote(),
            final(self).last_purged() == old(self).last_purged(),
            final(self).cached() == old(self).cached(),
            match last_membership(entries@) {
                Some(at) => {
                    &&& 0 <= at < entries@.len()
                    &&& final(self).membership().log_id == Some(entries@[at].log_id)
                    &&& entries@[at].payload is Membership
                    &&& cloned(entries@[at].payload->Membership_0, final(self).membership().membership)
                },
                None => final(self).membership() == old(self).membership(),
            },
    {
        let mut responses: Vec<ChronosResponse> = Vec::new();
        let mut i: usize = 0;
        let ghost mut states: Seq<ChronosDb<F>> = seq![*db];
        proof {
            assert(entries@.subrange(0, 0) =~= Seq::<Entry<M>>::empty());
        }
        while i < entries.len()
            invariant
                i <= entries.len(),
                states.len() == i + 1,
                states[0] == *old(db),
                states[i as int] == *db,
                forall|t: int| 0 <= t < i ==> #[trigger] step_holds(states, entries@, t),
                db.wf(),
                db.same_config(old(db)),
                db.versions() == applied_all(old(db).versions(), entries@.subrange(0, i as int)),
                responses@.len() == i,
                forall|t: int|
                    0 <= t < i ==> {
                        &&& (#[trigger] responses@[t]).success == entry_succeeds(
                            applied_all(old(db).versions(), entries@.subrange(0, t)),
                            entries@[t],
                        )
                        &&& responses@[t].message@ == reply_text(
                            applied_all(old(db).versions(), entries@.subrange(0, t)),
                            entries@[t],
                        )
                    },
                self.log() == old(self).log(),
                self.vote() == old(self).vote(),
                self.last_purged() == old(self).last_purged(),
                self.cached() == old(self).cached(),
                match last_membership(entries@.subrange(0, i as int)) {
                    Some(at) => {
                        &&& 0 <= at < i
                        &&& self.membership().log_id == Some(entries@[at].log_id)
                        &&& entries@[at].payload is Membership
                        &&& cloned(entries@[at].payload->Membership_0, self.membership().membership)
                    },
                    None => self.membership() == old(self).membership(),
                },
            decreases entries.len() - i,
        {
            proof {
                assert(entries@.subrange(0, i + 1).drop_last() =~= entries@.subrange(0, i as int));
                assert(entries@.subrange(0, i + 1).last() == entries@[i as int]);
            }
            let ghost before = *db;
            let resp: ChronosResponse = self.apply_entry(db, &entries[i]);
            responses.push(resp);
            proof {
                let earlier = states;
                states = states.push(*db);
                assert(after_entry(&*db, &before, entries@[i as int]));
                assert(step_holds(states, entries@, i as int));
                assert forall|t: int| 0 <= t < i + 1 implies #[trigger] step_holds(states, entries@, t) by {
                    if t < i {
                        assert(step_holds(earlier, entries@, t));
                        assert(states[t] == earlier[t] && states[t + 1] == earlier[t + 1]);
                    }
                }
            }
            i += 1;
        }
        proof {
            assert(entries@.subrange(0, i as int) =~= entries@);
            assert(is_run(states, entries@));
        }
        responses
    }

    /// The sink into which an incoming snapshot is collected.
    pub fn begin_receiving_snapshot(&self) -> (sink: Vec<u8>)
        ensures
            sink@.len() == 0,
    {
        Vec::new()
    }

    /// Replaces the store by the image `data`, and takes membership and
    /// purge point from `meta`. Fails, changing nothing, exactly when the
    /// bytes are not an image.
    pub fn install_snapshot<F: Fn(&Vec<u32>, &Vec<u32>) -> u32>(
        &mut self,
        db: &mut ChronosDb<F>,
        meta: &SnapshotMeta<M>,
        data: Vec<u8>,
    ) -> (r: Result<(), StorageError>)
        requires
            old(db).wf(),
        ensures
            final(db).wf(),
            r is Ok <==> crate::codec::parse_snapshot(data@) is Some,
            r is Ok ==> {
                &&& final(db).after_restore(old(db), crate::codec::parse_snapshot(data@)->0)
                &&& same_membership(meta.last_membership, final(self).membership())
                &&& final(self).last_purged() == meta.last_log_id
                &&& final(self).cached() is Some
                &&& final(self).cached()->0.data@ == data@
                &&& final(self).cached()->0.meta.last_log_id == meta.last_log_id
                &&& final(self).cached()->0.meta.snapshot_id@ == meta.snapshot_id@
                &&& same_membership(meta.last_membership, final(self).cached()->0.meta.last_membership)
            },
            r is Err ==> r->Err_0 == StorageError::Corrupt && final(db).same_state(old(db))
                && final(self).same_books(old(self)),
            final(self).log() == old(self).log(),
            final(self).vote() == old(self).vote(),
    {
        match db.restore(data.as_slice()) {
            Ok(_) => {},
            Err(e) => {
                return Err(e);
            },
        }
        self.stored_membership = meta.last_membership.duplicate();
        self.last_purged_log_id = meta.last_log_id;
        self.current_snapshot = Some(
            Snapshot {
                meta: SnapshotMeta {
                    last_log_id: meta.last_log_id,
                    last_membership: meta.last_membership.duplicate(),
                    snapshot_id: meta.snapshot_id.clone(),
                },
                data,
            },
        );
        Ok(())
    }

    /// A copy of the snapshot built or installed last.
    pub fn get_current_snapshot(&self) -> (r: Option<Snapshot<M>>)
        ensures
            r is Some <==> self.cached() is Some,
            r is Some ==> same_snapshot(self.cached()->0, r->0),
    {
        match &self.current_snapshot {
            Some(s) => Some(s.duplicate()),
            None => None,
        }
    }

    /// The entries whose index lies between the bounds, lowest index first.
    pub fn try_get_log_entries(&self, from: LogBound, to: LogBound) -> (r: Vec<&Entry<M>>)
        requires
            self.wf(),
        ensures
            forall|i: int|
                0 <= i < r@.len() ==> {
                    &&& self.log().contains_key((#[trigger] r@[i]).log_id.index)
                    &&& *r@[i] == self.log()[r@[i].log_id.index]
                    &&& in_bounds(r@[i].log_id.index, from, to)
                },
            forall|i: int, j: int|
                0 <= i < j < r@.len() ==> (#[trigger] r@[i]).log_id.index < (
                #[trigger] r@[j]).log_id.index,
            forall|k: u64| self.log().contains_key(k) && in_bounds(k, from, to) ==> #[trigger] has_entry(r@, k),
    {
        let keys: Vec<u64> = sorted_keys(&self.log);
        let mut out: Vec<&Entry<M>> = Vec::new();
        let mut i: usize = 0;
        while i < keys.len()
            invariant
                i <= keys.len(),
                self.wf(),
                rising(keys@),
                forall|k: u64| keys@.contains(k) <==> self.log().contains_key(k),
                forall|t: int|
                    0 <= t < out@.len() ==> {
                        &&& self.log().contains_key((#[trigger] out@[t]).log_id.index)
                        &&& *out@[t] == self.log()[out@[t].log_id.index]
                        &&& in_bounds(out@[t].log_id.index, from, to)
                    },
                forall|t: int|
                    0 <= t < out@.len() ==> #[trigger] seen_before(keys@, i as int, out@[t].log_id.index),
                forall|a: int, b: int|
                    0 <= a < b < out@.len() ==> (#[trigger] out@[a]).log_id.index < (
                    #[trigger] out@[b]).log_id.index,
                forall|j: int|
                    0 <= j < i && in_bounds(keys@[j], from, to) ==> #[trigger] has_entry(out@, keys@[j]),
            decreases keys.len() - i,
        {
            let k: u64 = keys[i];
            assert(keys@.contains(k));
            let lower: bool = match from {
                LogBound::Included(a) => a <= k,
                LogBound::Excluded(a) => a < k,
                LogBound::Unbounded => true,
            };
            let upper: bool = match to {
                LogBound::Included(b) => k <= b,
                LogBound::Excluded(b) => k < b,
                LogBound::Unbounded => true,
            };
            let ghost before = out@;
            if lower && upper {
                match self.log.get(&k) {
                    Some(e) => {
                        proof {
                            assert(e.log_id.index == k);
                            assert forall|a: int| 0 <= a < before.len() implies (
                            #[trigger] before[a]).log_id.index < k by {
                                assert(seen_before(keys@, i as int, before[a].log_id.index));
                                let j = choose|j: int|
                                    0 <= j < i && j < keys@.len() && #[trigger] keys@[j]
                                        == before[a].log_id.index;
                                assert(keys@[j] < keys@[i as int]);
                            }
                        }
                        out.push(e);
                    },
                    None => {},
                }
            }
            proof {
                let now = out@;
                let n1: int = i + 1;
                assert forall|t: int| 0 <= t < now.len() implies #[trigger] seen_before(
                    keys@,
                    n1,
                    now[t].log_id.index,
                ) by {
                    if t < before.len() {
                        assert(now[t] == before[t]);
                        assert(seen_before(keys@, i as int, before[t].log_id.index));
                        let j = choose|j: int|
                            0 <= j < i && j < keys@.len() && #[trigger] keys@[j]
                                == before[t].log_id.index;
                        assert(keys@[j] == now[t].log_id.index);
                    } else {
                        assert(keys@[i as int] == now[t].log_id.index);
                    }
                }
                assert forall|j: int| 0 <= j < n1 && in_bounds(keys@[j], from, to) implies #[trigger] has_entry(
                    now,
                    keys@[j],
                ) by {
                    if j < i {
                        assert(has_entry(before, keys@[j]));
                        let t = choose|t: int|
                            0 <= t < before.len() && (#[trigger] before[t]).log_id.index == keys@[j];
                        assert(now[t].log_id.index == keys@[j]);
                    } else {
                        assert(now[before.len() as int].log_id.index == k);
                    }
                }
            }
            i += 1;
        }
        proof {
            assert forall|k: u64| self.log().contains_key(k) && in_bounds(k, from, to) implies #[trigger] has_entry(
                out@,
                k,
            ) by {
                assert(keys@.contains(k));
                let j = choose|j: int| 0 <= j < keys@.len() && keys@[j] == k;
                assert(has_entry(out@, keys@[j]));
            }
        }
        out
    }

    /// Builds a snapshot of the store and keeps a copy.
    ///
    /// The snapshot stands for the log up to the entry with the highest
    /// index, or up to the zero id where the log is empty, and for the
    /// membership in force. Fails, changing nothing, when the store cannot
    /// be imaged.
    pub fn build_snapshot<F: Fn(&Vec<u32>, &Vec<u32>) -> u32>(&mut self, db: &ChronosDb<F>) -> (r:
        Result<Snapshot<M>, StorageError>)
        requires
            db.wf(),
        ensures
            final(self).log() == old(self).log(),
            final(self).vote() == old(self).vote(),
            final(self).last_purged() == old(self).last_purged(),
            final(self).membership() == old(self).membership(),
            r is Ok ==> {
                &&& exists|recs: Seq<RecordView>|
                    is_latest_image(recs, db.versions()) && #[trigger] snapshot_bytes(recs) == r->Ok_0.data@
                &&& same_membership(old(self).membership(), r->Ok_0.meta.last_membership)
                &&& (forall|k: u64| !old(self).log().contains_key(k)) ==> r->Ok_0.meta.last_log_id
                    == Some(LogId { term: 0, node_id: 0, index: 0 })
                &&& (exists|k: u64| old(self).log().contains_key(k)) ==> exists|k: u64| #[trigger]
                    is_top(old(self).log(), k) && r->Ok_0.meta.last_log_id == Some(
                        old(self).log()[k].log_id,
                    )
                &&& final(self).cached() is Some
                &&& same_snapshot(r->Ok_0, final(self).cached()->0)
            },
            r is Ok <==> crate::versions::live_keys(db.versions()).len() <= 0xffff_ffff,
            r is Err ==> r->Err_0 == StorageError::TooManyRecords && final(self).cached() == old(
                self,
            ).cached(),
    {
        let data: Vec<u8> = match db.snapshot() {
            Ok(data) => data,
            Err(e) => {
                return Err(e);
            },
        };
        let last_log_id: LogId = match self.top_log_id() {
            Some(id) => id,
            None => LogId { term: 0, node_id: 0, index: 0 },
        };
        let snapshot = Snapshot {
            meta: SnapshotMeta {
                last_log_id: Some(last_log_id),
                last_membership: self.stored_membership.duplicate(),
                snapshot_id: fresh_snapshot_id(),
            },
            data,
        };
        self.current_snapshot = Some(snapshot.duplicate());
        Ok(snapshot)
    }
}

} // verus!
