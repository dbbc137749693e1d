use chronos::codec::{decode_snapshot, encode_record};
use chronos::index::HnswIndex;
use chronos::model::Record;
use chronos::storage::{Segment, StorageError};
use chronos::ChronosDb;

type Kernel = fn(&Vec<u32>, &Vec<u32>) -> u32;

fn cosine(a: &Vec<u32>, b: &Vec<u32>) -> u32 {
    let mut dot = 0.0f32;
    let mut na = 0.0f32;
    let mut nb = 0.0f32;
    for i in 0..a.len().min(b.len()) {
        let x = f32::from_bits(a[i]);
        let y = f32::from_bits(b[i]);
        dot += x * y;
        na += x * x;
        nb += y * y;
    }
    if na == 0.0 || nb == 0.0 {
        return 1.0f32.to_bits();
    }
    (1.0 - dot / (na.sqrt() * nb.sqrt())).to_bits()
}

fn fresh() -> ChronosDb<Kernel> {
    ChronosDb::new(Segment::new(Vec::new()), HnswIndex::new(16, 100, cosine as Kernel))
}

fn unit(axis: usize) -> Vec<u32> {
    let mut v = vec![0.0f32.to_bits(); 128];
    v[axis] = 1.0f32.to_bits();
    v
}

fn noisy(seed: u64) -> Vec<u32> {
    let mut state = seed.wrapping_mul(0x9E37_79B9_7F4A_7C15).wrapping_add(1);
    let mut v = Vec::with_capacity(128);
    for _ in 0..128 {
        state ^= state << 13;
        state ^= state >> 7;
        state ^= state << 17;
        let x = ((state >> 40) as f32) / ((1u64 << 24) as f32) + 0.001;
        v.push(x.to_bits());
    }
    v
}

fn payloads(h: &Vec<Record>) -> Vec<Vec<u8>> {
    h.iter().map(|r| r.payload.clone()).collect()
}

const U1: u128 = 0x1111_2222_3333_4444_5555_6666_7777_8888;

#[test]
fn new_store_is_empty() {
    let db = fresh();
    assert_eq!(db.key_count(), 0);
    assert_eq!(db.get_latest(U1), None);
    assert!(db.get_history(U1).is_empty());
    assert_eq!(db.get_as_of(U1, 100), None);
    assert_eq!(db.segment().current_offset(), 0);
    assert_eq!(db.vector_index().len(), 0);
}

#[test]
fn insert_get_and_search_first_record() {
    let mut db = fresh();
    db.insert(Record::new(U1, unit(0), b"a".to_vec(), 100)).unwrap();
    let got = db.get_latest(U1).unwrap();
    assert_eq!(got.payload, b"a".to_vec());
    assert_eq!(got.valid_time.start, 100);
    assert_eq!(got.valid_time.end, u64::MAX);
    assert_eq!(got.tx_time, 100);
    let hits = db.vector_index().search(&unit(0), 1);
    assert_eq!(hits.len(), 1);
    assert_eq!(hits[0].0, U1);
    assert_eq!(f32::from_bits(hits[0].1), 0.0);
}

#[test]
fn second_version_history_and_as_of() {
    let mut db = fresh();
    db.insert(Record::new(U1, unit(0), b"a".to_vec(), 100)).unwrap();
    db.insert(Record::new(U1, unit(0), b"b".to_vec(), 200)).unwrap();
    assert_eq!(payloads(&db.get_history(U1)), vec![b"a".to_vec(), b"b".to_vec()]);
    assert_eq!(db.get_as_of(U1, 150).unwrap().payload, b"a".to_vec());
    assert_eq!(db.get_as_of(U1, 250).unwrap().payload, b"b".to_vec());
    assert_eq!(db.get_as_of(U1, 50), None);
    assert_eq!(db.get_as_of(U1, 100).unwrap().payload, b"a".to_vec());
    assert_eq!(db.get_as_of(U1, 199).unwrap().payload, b"a".to_vec());
    assert_eq!(db.get_as_of(U1, 200).unwrap().payload, b"b".to_vec());
    assert_eq!(db.get_latest(U1).unwrap().payload, b"b".to_vec());
    assert_eq!(db.key_count(), 1);
}

#[test]
fn delete_then_reinsert_starts_a_new_history() {
    let mut db = fresh();
    db.insert(Record::new(U1, unit(0), b"a".to_vec(), 100)).unwrap();
    db.insert(Record::new(U1, unit(0), b"b".to_vec(), 200)).unwrap();
    let segment_before = db.segment().current_offset();
    assert_eq!(db.delete(U1), Ok(()));
    assert_eq!(db.get_latest(U1), None);
    assert!(db.get_history(U1).is_empty());
    assert_eq!(db.get_as_of(U1, 150), None);
    assert!(!db.vector_index().contains(U1));
    assert_eq!(db.segment().current_offset(), segment_before);
    db.insert(Record::new(U1, unit(1), b"c".to_vec(), 300)).unwrap();
    assert_eq!(db.get_latest(U1).unwrap().payload, b"c".to_vec());
    assert_eq!(payloads(&db.get_history(U1)), vec![b"c".to_vec()]);
    assert_eq!(db.delete(999), Ok(()));
}

#[test]
fn versions_come_back_in_append_order() {
    let mut db = fresh();
    let n = 25u64;
    for i in 0..n {
        db.insert(Record::new(U1, noisy(i), vec![i as u8; (i % 5) as usize], 1000 + i)).unwrap();
        db.insert(Record::new(U1 + 1, noisy(100 + i), vec![0xee], 5000 + i)).unwrap();
    }
    let h = db.get_history(U1);
    assert_eq!(h.len() as u64, n);
    for (i, r) in h.iter().enumerate() {
        assert_eq!(r.key, U1);
        assert_eq!(r.tx_time, 1000 + i as u64);
        assert_eq!(r.payload, vec![i as u8; i % 5]);
        assert_eq!(r.vector, noisy(i as u64));
    }
    assert_eq!(db.get_latest(U1).unwrap(), h[h.len() - 1]);
    assert_eq!(db.get_history(U1 + 1).len() as u64, n);
}

#[test]
fn as_of_returns_the_version_that_started_last_before_the_instant() {
    let mut db = fresh();
    let starts = [10u64, 20, 35, 36, 90];
    for (i, s) in starts.iter().enumerate() {
        db.insert(Record::new(U1, unit(i), vec![i as u8], *s)).unwrap();
    }
    for t in 0..120u64 {
        let expected = starts.iter().rposition(|s| *s <= t);
        match db.get_as_of(U1, t) {
            Some(r) => assert_eq!(Some(r.payload[0] as usize), expected),
            None => assert_eq!(expected, None),
        }
    }
    assert_eq!(db.get_as_of(U1, u64::MAX - 1).unwrap().payload, vec![4]);
    assert_eq!(db.get_as_of(U1, u64::MAX), None);
}

#[test]
fn as_of_skips_versions_that_are_closed() {
    let mut db = fresh();
    let mut closed = Record::new(U1, unit(0), b"old".to_vec(), 10);
    closed.valid_time.end = 20;
    db.insert(closed).unwrap();
    db.insert(Record::new(U1, unit(0), b"new".to_vec(), 30)).unwrap();
    assert_eq!(db.get_as_of(U1, 15).unwrap().payload, b"old".to_vec());
    assert_eq!(db.get_as_of(U1, 25), None);
    assert_eq!(db.get_as_of(U1, 30).unwrap().payload, b"new".to_vec());
}

#[test]
fn insert_appends_one_frame_to_the_segment() {
    let mut db = fresh();
    let r = Record::new(U1, unit(0), b"payload".to_vec(), 1);
    let body = encode_record(&r).unwrap();
    db.insert(r.duplicate()).unwrap();
    let bytes = db.segment().as_bytes().to_vec();
    assert_eq!(bytes.len(), 4 + body.len());
    assert_eq!(&bytes[4..], &body[..]);
    assert_eq!(db.segment().read(0).unwrap(), r);
}

#[test]
fn snapshot_holds_the_current_version_of_every_key() {
    let mut db = fresh();
    for id in 0..20u128 {
        for v in 0..3u64 {
            db.insert(Record::new(id, noisy(id as u64 * 10 + v), vec![id as u8, v as u8], 100 + v)).unwrap();
        }
    }
    db.delete(7).unwrap();
    let image = db.snapshot().unwrap();
    let mut recs = decode_snapshot(&image).unwrap();
    assert_eq!(recs.len(), 19);
    recs.sort_by_key(|r| r.key);
    let keys: Vec<u128> = recs.iter().map(|r| r.key).collect();
    let expected: Vec<u128> = (0..20u128).filter(|k| *k != 7).collect();
    assert_eq!(keys, expected);
    for r in &recs {
        assert_eq!(r.payload, vec![r.key as u8, 2]);
        assert_eq!(*r, db.get_latest(r.key).unwrap());
    }
}

#[test]
fn snapshot_restore_round_trip() {
    let mut db = fresh();
    for id in 0..50u128 {
        for v in 0..(1 + id % 3) as u64 {
            db.insert(Record::new(id, noisy(id as u64 * 7 + v), vec![v as u8; 3], 10 * v + 1)).unwrap();
        }
    }
    let image = db.snapshot().unwrap();
    let mut other = fresh();
    other.insert(Record::new(9999, unit(3), b"gone".to_vec(), 1)).unwrap();
    let segment_before = other.segment().current_offset();
    assert_eq!(other.restore(&image), Ok(()));
    assert_eq!(other.get_latest(9999), None);
    assert!(other.segment().current_offset() > segment_before);
    assert_eq!(other.key_count(), 50);
    assert_eq!(other.vector_index().len(), 50);
    for id in 0..50u128 {
        assert_eq!(other.get_latest(id), db.get_latest(id));
        assert_eq!(other.get_history(id).len(), 1);
        assert!(other.vector_index().contains(id));
    }
    let mut again = decode_snapshot(&other.snapshot().unwrap()).unwrap();
    let mut first = decode_snapshot(&image).unwrap();
    again.sort_by_key(|r| r.key);
    first.sort_by_key(|r| r.key);
    assert_eq!(again, first);
    let hits = other.vector_index().search(&noisy(0), 5);
    assert!(!hits.is_empty());
}

#[test]
fn restore_of_garbage_changes_nothing() {
    let mut db = fresh();
    db.insert(Record::new(U1, unit(0), b"a".to_vec(), 100)).unwrap();
    let before = db.segment().as_bytes().to_vec();
    assert_eq!(db.restore(&[1, 2, 3]), Err(StorageError::Corrupt));
    assert_eq!(db.restore(&[5, 0, 0, 0]), Err(StorageError::Corrupt));
    assert_eq!(db.get_latest(U1).unwrap().payload, b"a".to_vec());
    assert_eq!(db.segment().as_bytes().to_vec(), before);
    assert!(db.vector_index().contains(U1));
    assert_eq!(db.restore(&[0, 0, 0, 0]), Ok(()));
    assert_eq!(db.get_latest(U1), None);
    assert_eq!(db.key_count(), 0);
}

#[test]
fn compact_keeps_the_newest_versions() {
    let mut db = fresh();
    for v in 0..5u8 {
        db.insert(Record::new(1, unit(0), vec![v], 10 + v as u64)).unwrap();
    }
    for v in 0..2u8 {
        db.insert(Record::new(2, unit(1), vec![100 + v], 50 + v as u64)).unwrap();
    }
    db.insert(Record::new(3, unit(2), vec![200], 70)).unwrap();
    assert_eq!(db.compact(2), Ok(()));
    assert_eq!(payloads(&db.get_history(1)), vec![vec![3], vec![4]]);
    assert_eq!(payloads(&db.get_history(2)), vec![vec![100], vec![101]]);
    assert_eq!(payloads(&db.get_history(3)), vec![vec![200]]);
    assert_eq!(db.get_latest(1).unwrap().payload, vec![4]);
    assert_eq!(db.get_as_of(1, 13).unwrap().payload, vec![3]);
    assert_eq!(db.get_as_of(1, 12), None);
    assert_eq!(db.key_count(), 3);
    let one = encode_record(&Record::new(1, unit(0), vec![0], 0)).unwrap().len();
    assert_eq!(db.segment().current_offset() as usize, 5 * (4 + one));
    db.insert(Record::new(1, unit(0), vec![5], 99)).unwrap();
    assert_eq!(payloads(&db.get_history(1)), vec![vec![3], vec![4], vec![5]]);
}

#[test]
fn compact_to_one_version_of_a_hundred_keys() {
    let mut db = fresh();
    for id in 0..100u128 {
        for v in 0..(1 + id % 4) as u64 {
            db.insert(Record::new(id, noisy(id as u64 * 13 + v), vec![v as u8], 1 + v)).unwrap();
        }
    }
    let latest: Vec<Record> = (0..100u128).map(|id| db.get_latest(id).unwrap()).collect();
    assert_eq!(db.compact(1), Ok(()));
    assert_eq!(db.key_count(), 100);
    let mut total = 0;
    for id in 0..100u128 {
        let h = db.get_history(id);
        total += h.len();
        assert_eq!(h.len(), 1);
        assert_eq!(h[0], latest[id as usize]);
        assert_eq!(db.get_latest(id).unwrap(), latest[id as usize]);
    }
    assert_eq!(total, 100);
    let hits = db.vector_index().search(&noisy(0), 100);
    assert!(!hits.is_empty());
    for h in &hits {
        assert!(h.0 < 100);
        assert!(db.get_latest(h.0).is_some());
    }
}

#[test]
fn compact_to_nothing_keeps_keys_without_versions() {
    let mut db = fresh();
    db.insert(Record::new(1, unit(0), vec![1], 1)).unwrap();
    db.insert(Record::new(2, unit(1), vec![2], 2)).unwrap();
    assert_eq!(db.compact(0), Ok(()));
    assert_eq!(db.key_count(), 2);
    assert_eq!(db.get_latest(1), None);
    assert!(db.get_history(2).is_empty());
    assert_eq!(db.segment().current_offset(), 0);
    assert_eq!(decode_snapshot(&db.snapshot().unwrap()), Some(Vec::new()));
    db.insert(Record::new(1, unit(0), vec![9], 5)).unwrap();
    assert_eq!(payloads(&db.get_history(1)), vec![vec![9]]);
    assert_eq!(db.compact(usize::MAX), Ok(()));
    assert_eq!(payloads(&db.get_history(1)), vec![vec![9]]);
}

#[test]
fn store_over_a_stored_segment_appends_behind_it() {
    let mut first = fresh();
    first.insert(Record::new(1, unit(0), vec![1], 1)).unwrap();
    let stored = first.segment().as_bytes().to_vec();
    let mut db: ChronosDb<Kernel> =
        ChronosDb::new(Segment::new(stored.clone()), HnswIndex::new(16, 100, cosine as Kernel));
    assert_eq!(db.get_latest(1), None);
    db.insert(Record::new(2, unit(1), vec![2], 2)).unwrap();
    assert_eq!(db.segment().as_bytes()[..stored.len()].to_vec(), stored);
    assert_eq!(db.get_latest(2).unwrap().payload, vec![2]);
}

#[test]
fn table_holds_the_offsets_of_the_frames() {
    let mut db = fresh();
    assert_eq!(db.offsets_of(1), None);
    let a = Record::new(1, unit(0), b"a".to_vec(), 1);
    let b = Record::new(2, unit(1), b"bbb".to_vec(), 2);
    let a_len = 4 + encode_record(&a).unwrap().len() as u64;
    let b_len = 4 + encode_record(&b).unwrap().len() as u64;
    db.insert(a.duplicate()).unwrap();
    assert_eq!(db.offsets_of(1), Some(vec![0]));
    db.insert(b.duplicate()).unwrap();
    assert_eq!(db.offsets_of(1), Some(vec![0]));
    assert_eq!(db.offsets_of(2), Some(vec![a_len]));
    db.insert(a.duplicate()).unwrap();
    assert_eq!(db.offsets_of(1), Some(vec![0, a_len + b_len]));
    assert_eq!(db.offsets_of(2), Some(vec![a_len]));
    for off in db.offsets_of(1).unwrap() {
        assert_eq!(db.segment().read(off).unwrap(), a);
    }
    db.delete(1).unwrap();
    assert_eq!(db.offsets_of(1), None);
    assert_eq!(db.offsets_of(2), Some(vec![a_len]));
    assert_eq!(db.segment().current_offset(), 2 * a_len + b_len);
    db.insert(a.duplicate()).unwrap();
    assert_eq!(db.offsets_of(1), Some(vec![2 * a_len + b_len]));
}

#[test]
fn compaction_and_restore_renumber_the_offsets() {
    let mut db = fresh();
    let rec = |v: u8| Record::new(9, unit(0), vec![v], v as u64);
    let len = 4 + encode_record(&rec(0)).unwrap().len() as u64;
    for v in 0..4u8 {
        db.insert(rec(v)).unwrap();
    }
    assert_eq!(db.offsets_of(9), Some(vec![0, len, 2 * len, 3 * len]));
    db.compact(2).unwrap();
    assert_eq!(db.offsets_of(9), Some(vec![0, len]));
    assert_eq!(db.segment().current_offset(), 2 * len);
    assert_eq!(db.segment().read(0).unwrap(), rec(2));
    assert_eq!(db.segment().read(len).unwrap(), rec(3));
    let image = db.snapshot().unwrap();
    db.restore(&image).unwrap();
    assert_eq!(db.offsets_of(9), Some(vec![2 * len]));
    assert_eq!(db.segment().current_offset(), 3 * len);
    db.compact(0).unwrap();
    assert_eq!(db.offsets_of(9), Some(vec![]));
    assert_eq!(db.segment().current_offset(), 0);
}

#[test]
fn planned_compaction_leaves_the_store_until_it_is_committed() {
    let mut db = fresh();
    for v in 0..5u8 {
        db.insert(Record::new(1, unit(0), vec![v], 10 + v as u64)).unwrap();
    }
    db.insert(Record::new(2, unit(1), vec![50], 50)).unwrap();
    let segment = db.segment().as_bytes().to_vec();
    let one = 4 + encode_record(&Record::new(1, unit(0), vec![0], 0)).unwrap().len();

    let plan = db.plan_compaction(2).unwrap();
    assert_eq!(plan.history_limit(), 2);
    assert_eq!(plan.segment().as_bytes().len(), 3 * one);
    assert_eq!(db.segment().as_bytes().to_vec(), segment);
    assert_eq!(db.get_history(1).len(), 5);
    assert_eq!(db.offsets_of(1).unwrap().len(), 5);

    let unused = db.plan_compaction(1).unwrap();
    assert_eq!(unused.segment().as_bytes().len(), 2 * one);
    assert_eq!(db.get_history(1).len(), 5);

    let planned = plan.segment().as_bytes().to_vec();
    db.commit_compaction(plan);
    assert_eq!(db.segment().as_bytes().to_vec(), planned);
    assert_eq!(payloads(&db.get_history(1)), vec![vec![3], vec![4]]);
    assert_eq!(payloads(&db.get_history(2)), vec![vec![50]]);
    for id in [1u128, 2] {
        for (off, rec) in db.offsets_of(id).unwrap().iter().zip(db.get_history(id)) {
            assert_eq!(db.segment().read(*off).unwrap(), rec);
        }
    }
    assert!(db.vector_index().contains(1));
}
