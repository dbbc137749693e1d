use chronos::cluster::api::{plan_snapshot, poll_step, PollStep, SnapshotPlan, SNAPSHOT_POLLS, SNAPSHOT_POLL_MILLIS};
use chronos::cluster::network::{status_is_success, ChronosNetwork, Rpc};
use chronos::cluster::store::{
    apply_request, pending_frame, pending_record, ChronosStore, Entry, EntryPayload, LogBound, LogId,
    SnapshotMeta, StoredMembership, Vote,
};
use chronos::codec::encode_frame;
use chronos::model::Record;
use chronos::cluster::types::ChronosRequest;
use chronos::codec::decode_snapshot;
use chronos::index::HnswIndex;
use chronos::manager::{SimdLevel, SystemProfile, GC_INTERVAL_SECS, GC_RETENTION};
use chronos::model::TimeStamp;
use chronos::storage::{Segment, StorageError};
use chronos::ChronosDb;

type Kernel = fn(&Vec<u32>, &Vec<u32>) -> u32;

fn flat(_a: &Vec<u32>, _b: &Vec<u32>) -> u32 {
    0.5f32.to_bits()
}

fn fresh() -> ChronosDb<Kernel> {
    ChronosDb::new(Segment::new(Vec::new()), HnswIndex::new(16, 100, flat as Kernel))
}

fn lid(term: u64, index: u64) -> LogId {
    LogId { term, node_id: 1, index }
}

fn write(index: u64, req: ChronosRequest) -> Entry<Vec<u64>> {
    Entry { log_id: lid(1, index), payload: EntryPayload::Normal(req) }
}

fn blank(index: u64) -> Entry<Vec<u64>> {
    Entry { log_id: lid(1, index), payload: EntryPayload::Blank }
}

fn indices(entries: &Vec<&Entry<Vec<u64>>>) -> Vec<u64> {
    entries.iter().map(|e| e.log_id.index).collect()
}

#[test]
fn insert_request_creates_an_open_version() {
    let mut db = fresh();
    apply_request(&mut db, &ChronosRequest::Insert { id: 5, vector: vec![1, 2], payload: vec![7], ts: 100 });
    let r = db.get_latest(5).unwrap();
    assert_eq!(r.key, 5);
    assert_eq!(r.vector, vec![1, 2]);
    assert_eq!(r.payload, vec![7]);
    assert_eq!(r.valid_time, TimeStamp { start: 100, end: u64::MAX });
    assert_eq!(r.tx_time, 100);
}

#[test]
fn update_request_keeps_the_embedding() {
    let mut db = fresh();
    apply_request(&mut db, &ChronosRequest::Insert { id: 5, vector: vec![1, 2], payload: vec![7], ts: 100 });
    apply_request(&mut db, &ChronosRequest::Update { id: 5, payload: vec![8, 9], ts: 200 });
    let h = db.get_history(5);
    assert_eq!(h.len(), 2);
    assert_eq!(h[1].vector, vec![1, 2]);
    assert_eq!(h[1].payload, vec![8, 9]);
    assert_eq!(h[1].valid_time.start, 200);
    assert_eq!(h[0].payload, vec![7]);
}

#[test]
fn update_of_unknown_key_does_nothing() {
    let mut db = fresh();
    apply_request(&mut db, &ChronosRequest::Insert { id: 1, vector: vec![3], payload: vec![7], ts: 1 });
    let segment = db.segment().as_bytes().to_vec();
    let mut store: ChronosStore<Vec<u64>> = ChronosStore::new(vec![]);
    let entries = vec![write(1, ChronosRequest::Update { id: 5, payload: vec![8], ts: 200 })];
    let responses = store.apply_to_state_machine(&mut db, &entries);
    assert_eq!(responses.len(), 1);
    assert!(responses[0].success);
    assert_eq!(db.get_latest(5), None);
    assert_eq!(db.offsets_of(5), None);
    assert_eq!(db.key_count(), 1);
    assert_eq!(db.segment().as_bytes().to_vec(), segment);
    assert_eq!(db.vector_index().len(), 1);
    assert!(!db.vector_index().contains(5));
    assert_eq!(db.offsets_of(1), Some(vec![0]));
}

#[test]
fn delete_request_drops_the_key() {
    let mut db = fresh();
    apply_request(&mut db, &ChronosRequest::Insert { id: 5, vector: vec![1], payload: vec![7], ts: 1 });
    apply_request(&mut db, &ChronosRequest::Delete { id: 5 });
    assert_eq!(db.get_latest(5), None);
    apply_request(&mut db, &ChronosRequest::Update { id: 5, payload: vec![8], ts: 2 });
    assert_eq!(db.get_latest(5), None);
}

#[test]
fn entries_are_applied_in_order_and_answered() {
    let mut db = fresh();
    let mut store: ChronosStore<Vec<u64>> = ChronosStore::new(vec![]);
    let entries = vec![
        write(1, ChronosRequest::Insert { id: 1, vector: vec![1], payload: vec![1], ts: 10 }),
        blank(2),
        Entry { log_id: lid(2, 3), payload: EntryPayload::Membership(vec![1, 2, 3]) },
        write(4, ChronosRequest::Update { id: 1, payload: vec![2], ts: 20 }),
        write(5, ChronosRequest::Update { id: 9, payload: vec![2], ts: 20 }),
        write(6, ChronosRequest::Delete { id: 77 }),
    ];
    let responses = store.apply_to_state_machine(&mut db, &entries);
    let texts: Vec<&str> = responses.iter().map(|r| r.message.as_str()).collect();
    assert_eq!(texts, vec!["OK", "Heartbeat", "Membership Change", "OK", "OK", "OK"]);
    assert!(responses.iter().all(|r| r.success));
    assert_eq!(db.get_history(1).len(), 2);
    assert_eq!(db.get_latest(1).unwrap().payload, vec![2]);
    let (applied, membership) = store.last_applied_state();
    assert_eq!(applied, None);
    assert_eq!(membership.log_id, Some(lid(2, 3)));
    assert_eq!(membership.membership, vec![1, 2, 3]);
    assert!(store.apply_to_state_machine(&mut db, &Vec::new()).is_empty());
}

#[test]
fn new_store_has_nothing() {
    let store: ChronosStore<Vec<u64>> = ChronosStore::new(vec![4]);
    let state = store.get_log_state();
    assert_eq!(state.last_purged_log_id, None);
    assert_eq!(state.last_log_id, None);
    assert_eq!(store.read_vote(), None);
    assert!(store.get_current_snapshot().is_none());
    assert!(store.try_get_log_entries(LogBound::Unbounded, LogBound::Unbounded).is_empty());
    assert!(store.begin_receiving_snapshot().is_empty());
    let (applied, membership) = store.last_applied_state();
    assert_eq!(applied, None);
    assert_eq!(membership.log_id, None);
    assert_eq!(membership.membership, vec![4]);
}

#[test]
fn vote_is_kept() {
    let mut store: ChronosStore<Vec<u64>> = ChronosStore::new(vec![]);
    let v = Vote { term: 3, node_id: 2, committed: true };
    store.save_vote(&v);
    assert_eq!(store.read_vote(), Some(v));
    let w = Vote { term: 4, node_id: 1, committed: false };
    store.save_vote(&w);
    assert_eq!(store.read_vote(), Some(w));
}

#[test]
fn log_is_filed_by_index_and_read_in_order() {
    let mut store: ChronosStore<Vec<u64>> = ChronosStore::new(vec![]);
    store.append_to_log(vec![blank(5), blank(3), blank(4)]);
    store.append_to_log(vec![blank(7), Entry { log_id: lid(9, 4), payload: EntryPayload::Blank }]);
    assert_eq!(indices(&store.try_get_log_entries(LogBound::Unbounded, LogBound::Unbounded)), vec![3, 4, 5, 7]);
    let all = store.try_get_log_entries(LogBound::Unbounded, LogBound::Unbounded);
    assert_eq!(all[1].log_id, lid(9, 4));
    assert_eq!(indices(&store.try_get_log_entries(LogBound::Included(4), LogBound::Excluded(7))), vec![4, 5]);
    assert_eq!(indices(&store.try_get_log_entries(LogBound::Excluded(4), LogBound::Included(7))), vec![5, 7]);
    assert_eq!(indices(&store.try_get_log_entries(LogBound::Included(6), LogBound::Included(6))), Vec::<u64>::new());
    assert_eq!(indices(&store.try_get_log_entries(LogBound::Unbounded, LogBound::Excluded(4))), vec![3]);
    assert_eq!(indices(&store.try_get_log_entries(LogBound::Included(8), LogBound::Unbounded)), Vec::<u64>::new());
    let state = store.get_log_state();
    assert_eq!(state.last_log_id, Some(lid(1, 7)));
    assert_eq!(state.last_purged_log_id, None);
}

#[test]
fn conflicting_tail_is_truncated() {
    let mut store: ChronosStore<Vec<u64>> = ChronosStore::new(vec![]);
    store.append_to_log((1..=6).map(blank).collect());
    store.delete_conflict_logs_since(lid(1, 4));
    assert_eq!(indices(&store.try_get_log_entries(LogBound::Unbounded, LogBound::Unbounded)), vec![1, 2, 3]);
    assert_eq!(store.get_log_state().last_log_id, Some(lid(1, 3)));
    store.delete_conflict_logs_since(lid(1, 10));
    assert_eq!(indices(&store.try_get_log_entries(LogBound::Unbounded, LogBound::Unbounded)), vec![1, 2, 3]);
    store.delete_conflict_logs_since(lid(1, 0));
    assert!(store.try_get_log_entries(LogBound::Unbounded, LogBound::Unbounded).is_empty());
}

#[test]
fn purge_drops_the_head_and_remembers_the_point() {
    let mut store: ChronosStore<Vec<u64>> = ChronosStore::new(vec![]);
    store.append_to_log((1..=6).map(blank).collect());
    store.purge_logs_upto(lid(1, 4));
    assert_eq!(indices(&store.try_get_log_entries(LogBound::Unbounded, LogBound::Unbounded)), vec![5, 6]);
    let state = store.get_log_state();
    assert_eq!(state.last_purged_log_id, Some(lid(1, 4)));
    assert_eq!(state.last_log_id, Some(lid(1, 6)));
    store.purge_logs_upto(lid(2, 9));
    let state = store.get_log_state();
    assert_eq!(state.last_purged_log_id, Some(lid(2, 9)));
    assert_eq!(state.last_log_id, Some(lid(2, 9)));
    assert!(store.try_get_log_entries(LogBound::Unbounded, LogBound::Unbounded).is_empty());
}

#[test]
fn built_snapshot_covers_the_log_and_is_cached() {
    let mut db = fresh();
    let mut store: ChronosStore<Vec<u64>> = ChronosStore::new(vec![1]);
    let empty = store.build_snapshot(&db).unwrap();
    assert_eq!(empty.meta.last_log_id, Some(LogId { term: 0, node_id: 0, index: 0 }));
    assert_eq!(decode_snapshot(&empty.data), Some(Vec::new()));
    let entries = vec![
        write(1, ChronosRequest::Insert { id: 1, vector: vec![1], payload: vec![1], ts: 10 }),
        write(2, ChronosRequest::Insert { id: 1, vector: vec![1], payload: vec![2], ts: 20 }),
        Entry { log_id: lid(1, 3), payload: EntryPayload::Membership(vec![1, 2]) },
    ];
    store.append_to_log(entries.clone());
    store.apply_to_state_machine(&mut db, &entries);
    let snap = store.build_snapshot(&db).unwrap();
    assert_eq!(snap.meta.last_log_id, Some(lid(1, 3)));
    assert_eq!(snap.meta.last_membership.log_id, Some(lid(1, 3)));
    assert_eq!(snap.meta.last_membership.membership, vec![1, 2]);
    assert_eq!(snap.meta.snapshot_id.len(), 36);
    assert!(snap.meta.snapshot_id != empty.meta.snapshot_id);
    let recs = decode_snapshot(&snap.data).unwrap();
    assert_eq!(recs.len(), 1);
    assert_eq!(recs[0].payload, vec![2]);
    let cached = store.get_current_snapshot().unwrap();
    assert_eq!(cached.data, snap.data);
    assert_eq!(cached.meta.snapshot_id, snap.meta.snapshot_id);
    assert_eq!(cached.meta.last_log_id, snap.meta.last_log_id);
    assert_eq!(cached.meta.last_membership.membership, vec![1, 2]);
}

#[test]
fn installed_snapshot_replaces_store_and_bookkeeping() {
    let mut leader_db = fresh();
    for id in 0..50u128 {
        apply_request(
            &mut leader_db,
            &ChronosRequest::Insert { id, vector: vec![id as u32], payload: vec![id as u8], ts: 5 },
        );
    }
    let mut leader: ChronosStore<Vec<u64>> = ChronosStore::new(vec![1, 2, 3]);
    leader.append_to_log((1..=50).map(blank).collect());
    let snap = leader.build_snapshot(&leader_db).unwrap();

    let mut follower_db = fresh();
    let mut follower: ChronosStore<Vec<u64>> = ChronosStore::new(vec![]);
    follower.append_to_log(vec![blank(1)]);
    let meta = SnapshotMeta {
        last_log_id: snap.meta.last_log_id,
        last_membership: StoredMembership { log_id: Some(lid(1, 2)), membership: vec![1, 2, 3] },
        snapshot_id: snap.meta.snapshot_id.clone(),
    };
    assert_eq!(follower.install_snapshot(&mut follower_db, &meta, snap.data.clone()), Ok(()));
    for id in 0..50u128 {
        assert_eq!(follower_db.get_latest(id), leader_db.get_latest(id));
    }
    let state = follower.get_log_state();
    assert_eq!(state.last_purged_log_id, Some(lid(1, 50)));
    assert_eq!(state.last_log_id, Some(lid(1, 1)));
    let (_, membership) = follower.last_applied_state();
    assert_eq!(membership.membership, vec![1, 2, 3]);
    assert_eq!(membership.log_id, Some(lid(1, 2)));
    let cached = follower.get_current_snapshot().unwrap();
    assert_eq!(cached.data, snap.data);
    assert_eq!(cached.meta.snapshot_id, snap.meta.snapshot_id);

    assert_eq!(
        follower.install_snapshot(&mut follower_db, &meta, vec![9, 9]),
        Err(StorageError::Corrupt)
    );
    assert_eq!(follower_db.get_latest(3), leader_db.get_latest(3));
    assert_eq!(follower.get_current_snapshot().unwrap().data, snap.data);
}

#[test]
fn rpc_routes_and_urls() {
    assert_eq!(Rpc::Vote.route(), "raft-vote");
    assert_eq!(Rpc::AppendEntries.route(), "raft-append");
    assert_eq!(Rpc::InstallSnapshot.route(), "raft-snapshot");
    let net = ChronosNetwork::new();
    let conn = net.new_client(7, "127.0.0.1:20001");
    assert_eq!(conn.addr(), "127.0.0.1:20001");
    assert_eq!(conn.target(), 7);
    assert_eq!(conn.url(Rpc::Vote), "http://127.0.0.1:20001/raft-vote");
    assert_eq!(conn.url(Rpc::AppendEntries), "http://127.0.0.1:20001/raft-append");
    assert_eq!(conn.url(Rpc::InstallSnapshot), "http://127.0.0.1:20001/raft-snapshot");
}

#[test]
fn only_2xx_is_success() {
    for code in 0..700u16 {
        assert_eq!(status_is_success(code), (200..300).contains(&code));
    }
}

#[test]
fn snapshot_request_plan_and_polling() {
    assert_eq!(SNAPSHOT_POLLS, 300);
    assert_eq!(SNAPSHOT_POLL_MILLIS, 100);
    assert_eq!(plan_snapshot(None), SnapshotPlan::NothingToDo);
    assert_eq!(plan_snapshot(Some(0)), SnapshotPlan::NothingToDo);
    assert_eq!(plan_snapshot(Some(12)), SnapshotPlan::Cover(12));
    assert_eq!(poll_step(12, None, 1), PollStep::Wait);
    assert_eq!(poll_step(12, Some(11), 1), PollStep::Wait);
    assert_eq!(poll_step(12, Some(12), 1), PollStep::Purge);
    assert_eq!(poll_step(12, Some(40), 299), PollStep::Purge);
    assert_eq!(poll_step(12, Some(11), 299), PollStep::Wait);
    assert_eq!(poll_step(12, Some(11), 300), PollStep::TimedOut);
    assert_eq!(poll_step(12, None, 300), PollStep::TimedOut);
    assert_eq!(poll_step(12, Some(12), 300), PollStep::Purge);
}

#[test]
fn profiles_by_cores_and_vector_level() {
    let p = SystemProfile::plan(1, SimdLevel::Avx512);
    assert_eq!((p.logical_cores, p.worker_threads, p.strict_durability, p.raft_heartbeat), (1, 2, false, 1000));
    let p = SystemProfile::plan(0, SimdLevel::Avx2);
    assert_eq!((p.logical_cores, p.worker_threads, p.strict_durability, p.raft_heartbeat), (0, 2, false, 1000));
    let p = SystemProfile::plan(32, SimdLevel::NoSimd);
    assert_eq!((p.logical_cores, p.worker_threads, p.strict_durability, p.raft_heartbeat), (32, 2, false, 1000));
    assert_eq!(p.simd_level, SimdLevel::NoSimd);
    let p = SystemProfile::plan(4, SimdLevel::Avx512);
    assert_eq!((p.worker_threads, p.strict_durability, p.raft_heartbeat), (4, true, 300));
    let p = SystemProfile::plan(5, SimdLevel::Sse2);
    assert_eq!((p.worker_threads, p.strict_durability, p.raft_heartbeat), (5, true, 500));
    let p = SystemProfile::plan(2, SimdLevel::Neon);
    assert_eq!((p.worker_threads, p.strict_durability, p.raft_heartbeat), (2, true, 500));
    let p = SystemProfile::plan(6, SimdLevel::Avx512);
    assert_eq!((p.worker_threads, p.strict_durability, p.raft_heartbeat), (6, true, 100));
    let p = SystemProfile::plan(16, SimdLevel::Avx2);
    assert_eq!((p.worker_threads, p.raft_heartbeat), (16, 250));
    let p = SystemProfile::plan(8, SimdLevel::Neon);
    assert_eq!((p.worker_threads, p.raft_heartbeat), (8, 250));
    let p = SystemProfile::plan(8, SimdLevel::Sse2);
    assert_eq!((p.worker_threads, p.raft_heartbeat), (8, 500));
    assert_eq!(p.election_timeouts(), Some((1500, 3000)));
    let mut huge = p;
    huge.raft_heartbeat = u64::MAX / 6 + 1;
    assert_eq!(huge.election_timeouts(), None);
    huge.raft_heartbeat = u64::MAX / 6;
    assert_eq!(huge.election_timeouts(), Some((u64::MAX / 6 * 3, u64::MAX / 6 * 6)));
}

#[test]
fn vector_level_names_and_collector_settings() {
    let names: Vec<&str> =
        [SimdLevel::NoSimd, SimdLevel::Sse2, SimdLevel::Avx2, SimdLevel::Avx512, SimdLevel::Neon]
            .iter()
            .map(|l| l.name())
            .collect();
    assert_eq!(names, vec!["None", "Sse2", "Avx2", "Avx512", "Neon"]);
    assert_eq!(GC_INTERVAL_SECS, 600);
    assert_eq!(GC_RETENTION, 10);
}

#[test]
fn replicas_that_apply_the_same_entries_agree() {
    let entries: Vec<Entry<Vec<u64>>> = (0..40u64)
        .map(|i| {
            let id = (i % 7) as u128;
            let req = match i % 5 {
                0 | 1 | 2 => ChronosRequest::Insert { id, vector: vec![i as u32; 4], payload: vec![i as u8], ts: i },
                3 => ChronosRequest::Update { id, payload: vec![0xf0, i as u8], ts: i },
                _ => ChronosRequest::Delete { id },
            };
            write(i + 1, req)
        })
        .collect();
    let mut leader_db = fresh();
    let mut follower_db = fresh();
    let mut leader: ChronosStore<Vec<u64>> = ChronosStore::new(vec![1, 2, 3]);
    let mut follower: ChronosStore<Vec<u64>> = ChronosStore::new(vec![1, 2, 3]);
    leader.append_to_log(entries.clone());
    leader.apply_to_state_machine(&mut leader_db, &entries);
    for chunk in entries.chunks(6) {
        follower.append_to_log(chunk.to_vec());
        follower.apply_to_state_machine(&mut follower_db, &chunk.to_vec());
    }
    for id in 0..7u128 {
        assert_eq!(follower_db.get_latest(id), leader_db.get_latest(id));
        assert_eq!(follower_db.get_history(id), leader_db.get_history(id));
    }
    assert_eq!(follower.get_log_state(), leader.get_log_state());
    assert_eq!(follower_db.segment().as_bytes(), leader_db.segment().as_bytes());
}

#[test]
fn applied_requests_hand_on_what_the_store_answers() {
    let mut db = fresh();
    let insert = ChronosRequest::Insert { id: 5, vector: vec![1, 2], payload: vec![7], ts: 100 };
    assert_eq!(apply_request(&mut db, &insert), Ok(()));
    assert_eq!(apply_request(&mut db, &ChronosRequest::Update { id: 5, payload: vec![8], ts: 200 }), Ok(()));
    assert_eq!(apply_request(&mut db, &ChronosRequest::Update { id: 6, payload: vec![8], ts: 200 }), Ok(()));
    assert_eq!(apply_request(&mut db, &ChronosRequest::Delete { id: 5 }), Ok(()));
    assert_eq!(apply_request(&mut db, &ChronosRequest::Delete { id: 5 }), Ok(()));
    assert_eq!(db.get_latest(5), None);
}

#[test]
fn pending_record_and_frame_are_what_the_request_appends() {
    let mut db = fresh();
    let insert = ChronosRequest::Insert { id: 5, vector: vec![1, 2], payload: vec![7], ts: 100 };
    let wanted = Record::new(5, vec![1, 2], vec![7], 100);
    assert_eq!(pending_record(&db, &insert), Some(wanted.duplicate()));
    assert_eq!(pending_frame(&db, &insert), encode_frame(&wanted));
    let update = ChronosRequest::Update { id: 5, payload: vec![9, 9], ts: 300 };
    assert_eq!(pending_record(&db, &update), None);
    assert_eq!(pending_frame(&db, &update), None);
    assert_eq!(pending_frame(&db, &ChronosRequest::Delete { id: 5 }), None);

    let frame = pending_frame(&db, &insert).unwrap();
    apply_request(&mut db, &insert).unwrap();
    assert_eq!(db.segment().as_bytes().to_vec(), frame);

    let next = Record::new(5, vec![1, 2], vec![9, 9], 300);
    assert_eq!(pending_record(&db, &update), Some(next.duplicate()));
    let second = pending_frame(&db, &update).unwrap();
    assert_eq!(Some(second.clone()), encode_frame(&next));
    apply_request(&mut db, &update).unwrap();
    assert_eq!(db.segment().as_bytes()[frame.len()..].to_vec(), second);
    assert_eq!(pending_record(&db, &ChronosRequest::Delete { id: 5 }), None);
}
