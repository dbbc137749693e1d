use chronos::codec::{decode_record, decode_snapshot, encode_record, encode_snapshot};
use chronos::model::{Record, TimeStamp, OPEN_END, VECTOR_DIM};
use chronos::storage::{Segment, StorageError};

fn sample(key: u128, payload: &[u8], ts: u64) -> Record {
    Record::new(key, vec![0x3f80_0000, 0, 0x4000_0000], payload.to_vec(), ts)
}

#[test]
fn record_new_sets_times() {
    let r = Record::new(7, vec![1, 2], vec![9], 100);
    assert_eq!(r.key, 7);
    assert_eq!(r.vector, vec![1, 2]);
    assert_eq!(r.payload, vec![9]);
    assert_eq!(r.valid_time, TimeStamp { start: 100, end: u64::MAX });
    assert_eq!(r.tx_time, 100);
    assert_eq!(OPEN_END, u64::MAX);
    assert_eq!(VECTOR_DIM, 128);
}

#[test]
fn record_duplicate_is_equal() {
    let r = sample(3, b"abc", 5);
    assert_eq!(r.duplicate(), r);
}

#[test]
fn timestamp_contains_is_half_open() {
    let t = TimeStamp { start: 10, end: 20 };
    assert!(!t.contains(9));
    assert!(t.contains(10));
    assert!(t.contains(19));
    assert!(!t.contains(20));
    let open = TimeStamp { start: 10, end: u64::MAX };
    assert!(open.contains(u64::MAX - 1));
    assert!(!open.contains(u64::MAX));
}

#[test]
fn record_body_has_documented_layout() {
    let r = Record {
        key: 0x0102_0304_0506_0708_090a_0b0c_0d0e_0f10,
        vector: vec![0x3f80_0000, 0x0000_0001],
        payload: vec![0xaa, 0xbb, 0xcc],
        valid_time: TimeStamp { start: 0x0102, end: u64::MAX },
        tx_time: 7,
    };
    let body = encode_record(&r).unwrap();
    let mut expected: Vec<u8> = Vec::new();
    expected.extend_from_slice(&[
        0x10, 0x0f, 0x0e, 0x0d, 0x0c, 0x0b, 0x0a, 0x09, 0x08, 0x07, 0x06, 0x05, 0x04, 0x03, 0x02, 0x01,
    ]);
    expected.extend_from_slice(&[0x02, 0x01, 0, 0, 0, 0, 0, 0]);
    expected.extend_from_slice(&[0xff; 8]);
    expected.extend_from_slice(&[7, 0, 0, 0, 0, 0, 0, 0]);
    expected.extend_from_slice(&[2, 0, 0, 0]);
    expected.extend_from_slice(&[0x00, 0x00, 0x80, 0x3f]);
    expected.extend_from_slice(&[0x01, 0x00, 0x00, 0x00]);
    expected.extend_from_slice(&[3, 0, 0, 0]);
    expected.extend_from_slice(&[0xaa, 0xbb, 0xcc]);
    assert_eq!(body, expected);
    assert_eq!(body.len(), 48 + 4 * 2 + 3);
    assert_eq!(decode_record(&body), Some(r));
}

#[test]
fn record_body_rejects_wrong_lengths() {
    let r = sample(1, b"payload", 9);
    let body = encode_record(&r).unwrap();
    assert_eq!(decode_record(&body[..body.len() - 1]), None);
    let mut longer = body.clone();
    longer.push(0);
    assert_eq!(decode_record(&longer), None);
    assert_eq!(decode_record(&body[..47]), None);
    assert_eq!(decode_record(&[]), None);
}

#[test]
fn empty_record_round_trips() {
    let r = Record::new(0, vec![], vec![], 0);
    let body = encode_record(&r).unwrap();
    assert_eq!(body.len(), 48);
    assert_eq!(decode_record(&body), Some(r));
}

#[test]
fn append_then_read_round_trip() {
    let mut seg = Segment::new(Vec::new());
    let records = vec![sample(1, b"one", 10), sample(2, b"", 20), sample(1, b"three", 30)];
    let mut offsets = Vec::new();
    for r in &records {
        offsets.push(seg.append(r).unwrap());
    }
    for (off, r) in offsets.iter().zip(records.iter()) {
        assert_eq!(seg.read(*off).unwrap(), *r);
    }
}

#[test]
fn append_returns_offset_before_write_and_advances_by_frame() {
    let mut seg = Segment::new(Vec::new());
    assert_eq!(seg.current_offset(), 0);
    let a = sample(1, b"abcd", 1);
    let body_len = encode_record(&a).unwrap().len() as u64;
    assert_eq!(body_len, 48 + 12 + 4);
    let first = seg.append(&a).unwrap();
    assert_eq!(first, 0);
    assert_eq!(seg.current_offset(), 4 + body_len);
    let second = seg.append(&a).unwrap();
    assert_eq!(second, 4 + body_len);
    assert_eq!(seg.current_offset(), 2 * (4 + body_len));
}

#[test]
fn frame_is_length_prefix_then_body() {
    let mut seg = Segment::new(Vec::new());
    let r = sample(5, b"xyz", 3);
    seg.append(&r).unwrap();
    let body = encode_record(&r).unwrap();
    let bytes = seg.as_bytes();
    assert_eq!(&bytes[..4], &(body.len() as u32).to_le_bytes()[..]);
    assert_eq!(&bytes[4..], &body[..]);
}

#[test]
fn segment_reopened_over_stored_bytes_reads_and_appends() {
    let mut seg = Segment::new(Vec::new());
    let a = sample(1, b"a", 1);
    let off_a = seg.append(&a).unwrap();
    let stored = seg.as_bytes().to_vec();
    let mut again = Segment::new(stored.clone());
    assert_eq!(again.current_offset(), stored.len() as u64);
    assert_eq!(again.read(off_a).unwrap(), a);
    let b = sample(2, b"b", 2);
    let off_b = again.append(&b).unwrap();
    assert_eq!(off_b, stored.len() as u64);
    assert_eq!(again.read(off_b).unwrap(), b);
    assert_eq!(again.read(off_a).unwrap(), a);
}

#[test]
fn read_without_frame_is_no_frame() {
    let mut seg = Segment::new(Vec::new());
    assert_eq!(seg.read(0), Err(StorageError::NoFrame));
    seg.append(&sample(1, b"a", 1)).unwrap();
    let end = seg.current_offset();
    assert_eq!(seg.read(end), Err(StorageError::NoFrame));
    assert_eq!(seg.read(end + 100), Err(StorageError::NoFrame));
    assert_eq!(seg.read(end - 2), Err(StorageError::NoFrame));
    assert_eq!(seg.read(u64::MAX), Err(StorageError::NoFrame));
}

#[test]
fn read_of_frame_that_is_no_record_is_corrupt() {
    let seg = Segment::new(vec![3, 0, 0, 0, 1, 2, 3]);
    assert_eq!(seg.read(0), Err(StorageError::Corrupt));
    let announced_too_long = Segment::new(vec![9, 0, 0, 0, 1, 2, 3]);
    assert_eq!(announced_too_long.read(0), Err(StorageError::NoFrame));
}

#[test]
fn storage_error_messages() {
    assert_eq!(StorageError::RecordTooLarge.message(), "record too large");
    assert_eq!(StorageError::NoFrame.message(), "no frame at offset");
    assert_eq!(StorageError::Corrupt.message(), "corrupt record");
    assert_eq!(StorageError::TooManyRecords.message(), "too many records");
}

#[test]
fn image_round_trips_and_has_count_prefix() {
    let recs = vec![sample(1, b"one", 10), sample(2, b"two", 20)];
    let bytes = encode_snapshot(&recs).unwrap();
    assert_eq!(&bytes[..4], &[2, 0, 0, 0]);
    let first_len = encode_record(&recs[0]).unwrap().len();
    assert_eq!(&bytes[4..8], &(first_len as u32).to_le_bytes()[..]);
    assert_eq!(decode_snapshot(&bytes), Some(recs));
    assert_eq!(decode_snapshot(&encode_snapshot(&Vec::new()).unwrap()), Some(Vec::new()));
}

#[test]
fn image_rejects_garbage() {
    assert_eq!(decode_snapshot(&[]), None);
    assert_eq!(decode_snapshot(&[1, 0, 0]), None);
    assert_eq!(decode_snapshot(&[1, 0, 0, 0]), None);
    let recs = vec![sample(1, b"one", 10)];
    let mut bytes = encode_snapshot(&recs).unwrap();
    bytes.push(0);
    assert_eq!(decode_snapshot(&bytes), None);
    bytes.pop();
    bytes.pop();
    assert_eq!(decode_snapshot(&bytes), None);
    let mut wrong_count = encode_snapshot(&recs).unwrap();
    wrong_count[0] = 2;
    assert_eq!(decode_snapshot(&wrong_count), None);
}
