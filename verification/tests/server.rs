use chronos::cluster::types::ChronosRequest;
use chronos::index::HnswIndex;
use chronos::model::Record;
use chronos::server::{
    body_length, decode_compact, encode_get, encode_history, encode_search, frame_kind, handle_compact,
    handle_delete, handle_frame, handle_get, handle_get_as_of, handle_history, handle_insert,
    handle_lookup, handle_search, handle_update, handle_write, status_reply, Action, FrameKind,
    MAX_REQUEST, OP_COMPACT, OP_DELETE, OP_GET, OP_GET_AS_OF, OP_HISTORY, OP_INSERT, OP_SEARCH,
    OP_UPDATE,
};
use chronos::storage::Segment;
use chronos::ChronosDb;
use uuid::Uuid;

type Kernel = fn(&Vec<u32>, &Vec<u32>) -> u32;

fn cosine(a: &Vec<u32>, b: &Vec<u32>) -> u32 {
    let mut dot = 0.0f32;
    let mut na = 0.0f32;
    let mut nb = 0.0f32;
    for i in 0..a.len().min(b.len()) {
        let x = f32::from_bits(a[i]);
        let y = f32::from_bits(b[i]);
        dot += x * y;
        na += x * x;
        nb += y * y;
    }
    if na == 0.0 || nb == 0.0 {
        return 1.0f32.to_bits();
    }
    (1.0 - dot / (na.sqrt() * nb.sqrt())).to_bits()
}

fn fresh() -> ChronosDb<Kernel> {
    ChronosDb::new(Segment::new(Vec::new()), HnswIndex::new(16, 100, cosine as Kernel))
}

fn unit(axis: usize) -> Vec<f32> {
    let mut v = vec![0.0f32; 128];
    v[axis] = 1.0;
    v
}

fn words(v: &[f32]) -> Vec<u32> {
    v.iter().map(|x| x.to_bits()).collect()
}

fn floats_le(v: &[f32]) -> Vec<u8> {
    let mut out = Vec::new();
    for x in v {
        out.extend_from_slice(&x.to_le_bytes());
    }
    out
}

fn reply(a: Action) -> Vec<u8> {
    match a {
        Action::Reply(b) => b,
        _ => panic!("expected a reply"),
    }
}

fn id() -> Uuid {
    Uuid::from_bytes([
        0x00, 0x11, 0x22, 0x33, 0x44, 0x55, 0x66, 0x77, 0x88, 0x99, 0xaa, 0xbb, 0xcc, 0xdd, 0xee, 0xff,
    ])
}

#[test]
fn opcodes_and_limits() {
    assert_eq!(
        [OP_INSERT, OP_GET, OP_SEARCH, OP_HISTORY, OP_DELETE, OP_UPDATE, OP_GET_AS_OF, OP_COMPACT],
        [1, 2, 3, 4, 5, 6, 7, 8]
    );
    assert_eq!(MAX_REQUEST, 65536);
}

#[test]
fn header_length_is_little_endian_and_capped() {
    assert_eq!(body_length(&[0, 0, 0, 0]), Some(0));
    assert_eq!(body_length(&[0x10, 0x02, 0, 0]), Some(0x210));
    assert_eq!(body_length(&65536u32.to_le_bytes()), Some(65536));
    assert_eq!(body_length(&65537u32.to_le_bytes()), None);
    assert_eq!(body_length(&[0xff, 0xff, 0xff, 0xff]), None);
}

#[test]
fn status_replies_are_ok_and_er() {
    assert_eq!(status_reply(true), b"OK".to_vec());
    assert_eq!(status_reply(false), b"ER".to_vec());
}

#[test]
fn insert_body_is_id_vector_payload() {
    let mut body = id().as_bytes().to_vec();
    let mut v = unit(2);
    v[5] = -3.5;
    body.extend_from_slice(&floats_le(&v));
    body.extend_from_slice(b"hello");
    match handle_insert(&body, 4242) {
        Action::Replicate(ChronosRequest::Insert { id: got, vector, payload, ts }) => {
            assert_eq!(got, id().as_u128());
            assert_eq!(got, 0x0011_2233_4455_6677_8899_aabb_ccdd_eeff);
            assert_eq!(vector, words(&v));
            assert_eq!(payload, b"hello".to_vec());
            assert_eq!(ts, 4242);
        },
        _ => panic!("expected an insert"),
    }
    let exact = &body[..528];
    match handle_insert(exact, 1) {
        Action::Replicate(ChronosRequest::Insert { payload, .. }) => assert!(payload.is_empty()),
        _ => panic!("expected an insert"),
    }
    assert_eq!(reply(handle_insert(&body[..527], 1)), b"ER".to_vec());
    assert_eq!(reply(handle_insert(&[], 1)), b"ER".to_vec());
}

#[test]
fn update_body_is_id_payload() {
    let mut body = id().as_bytes().to_vec();
    body.extend_from_slice(b"next");
    match handle_update(&body, 77) {
        Action::Replicate(ChronosRequest::Update { id: got, payload, ts }) => {
            assert_eq!(got, id().as_u128());
            assert_eq!(payload, b"next".to_vec());
            assert_eq!(ts, 77);
        },
        _ => panic!("expected an update"),
    }
    match handle_update(id().as_bytes(), 77) {
        Action::Replicate(ChronosRequest::Update { payload, .. }) => assert!(payload.is_empty()),
        _ => panic!("expected an update"),
    }
    assert_eq!(reply(handle_update(&body[..15], 77)), b"ER".to_vec());
}

#[test]
fn delete_body_is_exactly_an_id() {
    match handle_delete(id().as_bytes()) {
        Action::Replicate(ChronosRequest::Delete { id: got }) => assert_eq!(got, id().as_u128()),
        _ => panic!("expected a delete"),
    }
    assert_eq!(reply(handle_delete(&[0u8; 15])), b"ER".to_vec());
    assert_eq!(reply(handle_delete(&[0u8; 17])), b"ER".to_vec());
    assert_eq!(reply(handle_delete(&[])), b"ER".to_vec());
}

#[test]
fn get_replies_found_or_missing() {
    let mut db = fresh();
    assert_eq!(reply(handle_get(id().as_bytes(), &db)), vec![0]);
    db.insert(Record::new(id().as_u128(), words(&unit(0)), b"abc".to_vec(), 100)).unwrap();
    assert_eq!(reply(handle_get(id().as_bytes(), &db)), vec![1, 3, 0, 0, 0, b'a', b'b', b'c']);
    db.insert(Record::new(id().as_u128(), words(&unit(0)), Vec::new(), 200)).unwrap();
    assert_eq!(reply(handle_get(id().as_bytes(), &db)), vec![1, 0, 0, 0, 0]);
    assert!(matches!(handle_get(&[0u8; 3], &db), Action::Close));
    assert!(matches!(handle_get(&[0u8; 17], &db), Action::Close));
    assert_eq!(encode_get(&None), vec![0]);
}

#[test]
fn get_as_of_replies_like_get() {
    let mut db = fresh();
    db.insert(Record::new(id().as_u128(), words(&unit(0)), b"a".to_vec(), 100)).unwrap();
    db.insert(Record::new(id().as_u128(), words(&unit(0)), b"bb".to_vec(), 200)).unwrap();
    let ask = |t: u64, db: &ChronosDb<Kernel>| {
        let mut body = id().as_bytes().to_vec();
        body.extend_from_slice(&t.to_le_bytes());
        reply(handle_get_as_of(&body, db))
    };
    assert_eq!(ask(150, &db), vec![1, 1, 0, 0, 0, b'a']);
    assert_eq!(ask(250, &db), vec![1, 2, 0, 0, 0, b'b', b'b']);
    assert_eq!(ask(50, &db), vec![0]);
    assert_eq!(reply(handle_get_as_of(id().as_bytes(), &db)), vec![0]);
    assert_eq!(reply(handle_get_as_of(&[0u8; 25], &db)), vec![0]);
}

#[test]
fn search_replies_count_then_id_and_distance() {
    let mut db = fresh();
    let a = id().as_u128();
    let b = a + 1;
    db.insert(Record::new(a, words(&unit(0)), b"a".to_vec(), 1)).unwrap();
    db.insert(Record::new(b, words(&unit(1)), b"b".to_vec(), 2)).unwrap();
    let mut body = 5u32.to_le_bytes().to_vec();
    body.extend_from_slice(&floats_le(&unit(0)));
    let out = reply(handle_search(&body, &db));
    assert_eq!(out.len(), 4 + 2 * 20);
    assert_eq!(&out[..4], &[2, 0, 0, 0]);
    assert_eq!(&out[4..20], id().as_bytes());
    assert_eq!(&out[20..24], &0.0f32.to_le_bytes());
    assert_eq!(&out[24..40], Uuid::from_u128(b).as_bytes());
    assert_eq!(&out[40..44], &1.0f32.to_le_bytes());
    let mut one = 1u32.to_le_bytes().to_vec();
    one.extend_from_slice(&floats_le(&unit(0)));
    one.extend_from_slice(b"ignored");
    let out = reply(handle_search(&one, &db));
    assert_eq!(out.len(), 24);
    assert_eq!(&out[..4], &[1, 0, 0, 0]);
    assert_eq!(&out[4..20], id().as_bytes());
    assert!(matches!(handle_search(&body[..515], &db), Action::Close));
    assert!(matches!(handle_search(&[], &db), Action::Close));
    assert_eq!(encode_search(&Vec::new()), vec![0, 0, 0, 0]);
    assert_eq!(reply(handle_search(&body, &fresh())), vec![0, 0, 0, 0]);
}

#[test]
fn search_hit_ids_are_big_endian_on_the_wire() {
    let hits = vec![(0x0102_0304_0506_0708_090a_0b0c_0d0e_0f10u128, 0x3f80_0000u32)];
    let out = encode_search(&hits);
    let mut expected = vec![1, 0, 0, 0];
    expected.extend_from_slice(&[1, 2, 3, 4, 5, 6, 7, 8, 9, 10, 11, 12, 13, 14, 15, 16]);
    expected.extend_from_slice(&[0x00, 0x00, 0x80, 0x3f]);
    assert_eq!(out, expected);
}

#[test]
fn history_replies_versions_oldest_first() {
    let mut db = fresh();
    assert_eq!(reply(handle_history(id().as_bytes(), &db)), vec![0, 0, 0, 0]);
    db.insert(Record::new(id().as_u128(), words(&unit(0)), b"a".to_vec(), 100)).unwrap();
    db.insert(Record::new(id().as_u128(), words(&unit(0)), b"bc".to_vec(), 200)).unwrap();
    let out = reply(handle_history(id().as_bytes(), &db));
    let mut expected = vec![2, 0, 0, 0];
    expected.extend_from_slice(&100u64.to_le_bytes());
    expected.extend_from_slice(&u64::MAX.to_le_bytes());
    expected.extend_from_slice(&1u32.to_le_bytes());
    expected.extend_from_slice(b"a");
    expected.extend_from_slice(&200u64.to_le_bytes());
    expected.extend_from_slice(&u64::MAX.to_le_bytes());
    expected.extend_from_slice(&2u32.to_le_bytes());
    expected.extend_from_slice(b"bc");
    assert_eq!(out, expected);
    assert_eq!(out.len(), 4 + 2 * 20 + 3);
    assert_eq!(out, encode_history(&db.get_history(id().as_u128())));
    assert!(matches!(handle_history(&[1, 2], &db), Action::Close));
    assert!(matches!(handle_history(&[0u8; 17], &db), Action::Close));
}

#[test]
fn compact_replies_ok_and_cuts_histories() {
    let mut db = fresh();
    for v in 0..4u8 {
        db.insert(Record::new(1, words(&unit(0)), vec![v], v as u64)).unwrap();
    }
    assert_eq!(reply(handle_compact(&[1, 2, 3], &mut db)), b"ER".to_vec());
    assert_eq!(db.get_history(1).len(), 4);
    assert_eq!(reply(handle_compact(&3u64.to_le_bytes(), &mut db)), b"OK".to_vec());
    assert_eq!(db.get_history(1).len(), 3);
    assert_eq!(reply(handle_compact(&u64::MAX.to_le_bytes(), &mut db)), b"OK".to_vec());
    assert_eq!(db.get_history(1).len(), 3);
    assert_eq!(reply(handle_compact(&1u64.to_le_bytes(), &mut db)), b"OK".to_vec());
    assert_eq!(db.get_latest(1).unwrap().payload, vec![3]);
    assert_eq!(db.get_history(1).len(), 1);
}

#[test]
fn frames_are_dispatched_by_opcode() {
    let mut db = fresh();
    db.insert(Record::new(id().as_u128(), words(&unit(0)), b"a".to_vec(), 100)).unwrap();
    let idb = id().as_bytes().to_vec();
    assert!(matches!(handle_frame(&mut db, 0, &idb, 1), Action::Close));
    assert!(matches!(handle_frame(&mut db, 9, &idb, 1), Action::Close));
    assert!(matches!(handle_frame(&mut db, 0xff, &[], 1), Action::Close));
    assert_eq!(reply(handle_frame(&mut db, OP_GET, &idb, 1)), vec![1, 1, 0, 0, 0, b'a']);
    assert_eq!(reply(handle_frame(&mut db, OP_HISTORY, &idb, 1)).len(), 4 + 20 + 1);
    assert!(matches!(
        handle_frame(&mut db, OP_DELETE, &idb, 1),
        Action::Replicate(ChronosRequest::Delete { .. })
    ));
    match handle_frame(&mut db, OP_UPDATE, &idb, 555) {
        Action::Replicate(ChronosRequest::Update { ts, .. }) => assert_eq!(ts, 555),
        _ => panic!("expected an update"),
    }
    assert_eq!(reply(handle_frame(&mut db, OP_INSERT, &idb, 1)), b"ER".to_vec());
    let mut as_of = idb.clone();
    as_of.extend_from_slice(&100u64.to_le_bytes());
    assert_eq!(reply(handle_frame(&mut db, OP_GET_AS_OF, &as_of, 1)), vec![1, 1, 0, 0, 0, b'a']);
    let mut search = 1u32.to_le_bytes().to_vec();
    search.extend_from_slice(&floats_le(&unit(0)));
    assert_eq!(reply(handle_frame(&mut db, OP_SEARCH, &search, 1)).len(), 24);
    assert_eq!(reply(handle_frame(&mut db, OP_COMPACT, &1u64.to_le_bytes(), 1)), b"OK".to_vec());
    assert_eq!(db.get_latest(id().as_u128()).unwrap().payload, b"a".to_vec());
}

#[test]
fn frames_are_sorted_into_kinds() {
    let kinds: Vec<FrameKind> = (0..=9u8).map(frame_kind).collect();
    assert_eq!(
        kinds,
        vec![
            FrameKind::Unknown,
            FrameKind::Write,
            FrameKind::Lookup,
            FrameKind::Lookup,
            FrameKind::Lookup,
            FrameKind::Write,
            FrameKind::Write,
            FrameKind::Lookup,
            FrameKind::Compaction,
            FrameKind::Unknown,
        ]
    );
    assert_eq!(frame_kind(0xff), FrameKind::Unknown);
}

#[test]
fn writes_and_lookups_are_handled_apart() {
    let mut db = fresh();
    db.insert(Record::new(id().as_u128(), words(&unit(0)), b"a".to_vec(), 100)).unwrap();
    let idb = id().as_bytes().to_vec();
    assert_eq!(reply(handle_lookup(&db, OP_GET, &idb)), vec![1, 1, 0, 0, 0, b'a']);
    assert_eq!(reply(handle_lookup(&db, OP_HISTORY, &idb)).len(), 25);
    assert!(matches!(handle_lookup(&db, OP_DELETE, &idb), Action::Close));
    assert!(matches!(handle_lookup(&db, OP_COMPACT, &idb), Action::Close));
    assert!(matches!(handle_write(OP_GET, &idb, 1), Action::Close));
    assert!(matches!(handle_write(OP_COMPACT, &idb, 1), Action::Close));
    match handle_write(OP_DELETE, &idb, 1) {
        Action::Replicate(ChronosRequest::Delete { id: got }) => assert_eq!(got, id().as_u128()),
        _ => panic!("expected a delete"),
    }
    match handle_write(OP_UPDATE, &idb, 9) {
        Action::Replicate(ChronosRequest::Update { ts, .. }) => assert_eq!(ts, 9),
        _ => panic!("expected an update"),
    }
    assert_eq!(reply(handle_write(OP_INSERT, &idb, 1)), b"ER".to_vec());
}

#[test]
fn every_frame_is_answered_or_ends_the_connection() {
    let mut db = fresh();
    db.insert(Record::new(id().as_u128(), words(&unit(0)), b"a".to_vec(), 100)).unwrap();
    for op in 0..=10u8 {
        for len in [0usize, 1, 8, 15, 16, 17, 24, 515, 516, 528, 600] {
            let body = vec![0u8; len];
            match handle_frame(&mut db, op, &body, 1) {
                Action::Reply(b) => assert!(!b.is_empty()),
                Action::Replicate(_) => assert!(op == OP_INSERT || op == OP_UPDATE || op == OP_DELETE),
                Action::Close => {}
            }
        }
    }
    assert_eq!(reply(handle_frame(&mut db, OP_DELETE, &[1, 2, 3], 1)), b"ER".to_vec());
    assert!(matches!(handle_frame(&mut db, OP_GET, &[1, 2, 3], 1), Action::Close));
}

#[test]
fn compact_body_is_a_little_endian_limit() {
    assert_eq!(decode_compact(&3u64.to_le_bytes()), Some(3));
    assert_eq!(decode_compact(&[0x10, 0x02, 0, 0, 0, 0, 0, 0]), Some(0x210));
    assert_eq!(decode_compact(&0u64.to_le_bytes()), Some(0));
    assert_eq!(decode_compact(&u64::MAX.to_le_bytes()), Some(usize::MAX));
    assert_eq!(decode_compact(&[0u8; 7]), None);
    assert_eq!(decode_compact(&[0u8; 9]), None);
    assert_eq!(decode_compact(&[]), None);
}
