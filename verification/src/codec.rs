use crate::model::{Record, RecordView, TimeStamp};
use vstd::bytes::{
    lemma_auto_spec_u128_to_from_le_bytes, lemma_auto_spec_u32_to_from_le_bytes,
    lemma_auto_spec_u64_to_from_le_bytes, spec_u128_from_le_bytes, spec_u128_to_le_bytes,
    spec_u32_from_le_bytes, spec_u32_to_le_bytes, spec_u64_from_le_bytes, spec_u64_to_le_bytes,
    u128_from_le_bytes, u128_to_le_bytes, u32_from_le_bytes, u32_to_le_bytes, u64_from_le_bytes,
    u64_to_le_bytes,
};
use vstd::prelude::*;
use vstd::slice::slice_subrange;

verus! {

/// Bytes of a record body before the embedding: key, interval, tx time and
/// the component count.
pub const RECORD_HEAD: usize = 44;

/// Bytes of a record body that do not depend on its contents: the head and
/// the payload length.
pub const RECORD_FIXED: usize = 48;

/// Largest body that a four-byte length prefix can announce.
pub const MAX_BODY: u64 = 0xffff_ffff;

// ---------------------------------------------------------------------
// Little-endian words
// ---------------------------------------------------------------------
/// The little-endian bytes of a sequence of 32-bit words, four per word.
pub open spec fn words_to_bytes(w: Seq<u32>) -> Seq<u8> {
    Seq::new(4 * w.len(), |j: int| spec_u32_to_le_bytes(w[j / 4])[j % 4])
}

/// The words that a byte sequence holds, four bytes each; trailing bytes
/// that do not fill a word are left out.
pub open spec fn bytes_to_words(b: Seq<u8>) -> Seq<u32> {
    Seq::new((b.len() / 4) as nat, |i: int| spec_u32_from_le_bytes(b.subrange(4 * i, 4 * i + 4)))
}

/// The four bytes of word `i` stand at `4 * i`.
pub proof fn lemma_words_slice(w: Seq<u32>, i: int)
    requires
        0 <= i < w.len(),
    ensures
        words_to_bytes(w).subrange(4 * i, 4 * i + 4) == spec_u32_to_le_bytes(w[i]),
{
    lemma_auto_spec_u32_to_from_le_bytes();
    let lhs = words_to_bytes(w).subrange(4 * i, 4 * i + 4);
    let rhs = spec_u32_to_le_bytes(w[i]);
    assert(lhs.len() == 4);
    assert forall|j: int| 0 <= j < 4 implies lhs[j] == rhs[j] by {
        assert((4 * i + j) / 4 == i);
        assert((4 * i + j) % 4 == j);
    }
    assert(lhs =~= rhs);
}

/// Reading back the bytes of a word sequence yields the sequence.
pub proof fn lemma_words_round_trip(w: Seq<u32>)
    ensures
        words_to_bytes(w).len() == 4 * w.len(),
        bytes_to_words(words_to_bytes(w)) == w,
{
    lemma_auto_spec_u32_to_from_le_bytes();
    let b = words_to_bytes(w);
    assert(b.len() / 4 == w.len());
    assert forall|i: int| 0 <= i < w.len() implies bytes_to_words(b)[i] == w[i] by {
        lemma_words_slice(w, i);
        assert(spec_u32_to_le_bytes(w[i]).len() == 4);
        assert(spec_u32_from_le_bytes(spec_u32_to_le_bytes(w[i])) == w[i]);
    }
    assert(bytes_to_words(b) =~= w);
}

/// Appends the little-endian bytes of `x`.
pub fn put_u32(out: &mut Vec<u8>, x: u32)
    ensures
        final(out)@ == old(out)@ + spec_u32_to_le_bytes(x),
        final(out)@.len() == old(out)@.len() + 4,
{
    let mut b = u32_to_le_bytes(x);
    out.append(&mut b);
}

/// Appends the little-endian bytes of `x`.
pub fn put_u64(out: &mut Vec<u8>, x: u64)
    ensures
        final(out)@ == old(out)@ + spec_u64_to_le_bytes(x),
        final(out)@.len() == old(out)@.len() + 8,
{
    let mut b = u64_to_le_bytes(x);
    out.append(&mut b);
}

/// Appends the little-endian bytes of `x`.
pub fn put_u128(out: &mut Vec<u8>, x: u128)
    ensures
        final(out)@ == old(out)@ + spec_u128_to_le_bytes(x),
        final(out)@.len() == old(out)@.len() + 16,
{
    let mut b = u128_to_le_bytes(x);
    out.append(&mut b);
}

/// Appends a copy of `src`.
pub fn put_bytes(out: &mut Vec<u8>, src: &[u8])
    ensures
        final(out)@ == old(out)@ + src@,
{
    out.extend_from_slice(src);
}

/// The little-endian word at `at`.
pub fn get_u32(data: &[u8], at: usize) -> (x: u32)
    requires
        at + 4 <= data@.len(),
    ensures
        x == spec_u32_from_le_bytes(data@.subrange(at as int, at + 4)),
{
    let len: usize = data.len();
    u32_from_le_bytes(slice_subrange(data, at, at + 4))
}

/// The little-endian 64-bit number at `at`.
pub fn get_u64(data: &[u8], at: usize) -> (x: u64)
    requires
        at + 8 <= data@.len(),
    ensures
        x == spec_u64_from_le_bytes(data@.subrange(at as int, at + 8)),
{
    let len: usize = data.len();
    u64_from_le_bytes(slice_subrange(data, at, at + 8))
}

/// The little-endian 128-bit number at `at`.
pub fn get_u128(data: &[u8], at: usize) -> (x: u128)
    requires
        at + 16 <= data@.len(),
    ensures
        x == spec_u128_from_le_bytes(data@.subrange(at as int, at + 16)),
{
    let len: usize = data.len();
    u128_from_le_bytes(slice_subrange(data, at, at + 16))
}

/// A copy of `data[from..to]`.
pub fn copy_range(data: &[u8], from: usize, to: usize) -> (out: Vec<u8>)
    requires
        from <= to <= data@.len(),
    ensures
        out@ == data@.subrange(from as int, to as int),
{
    let mut out: Vec<u8> = Vec::new();
    out.extend_from_slice(slice_subrange(data, from, to));
    out
}

/// Appends the bytes of every word of `words`.
pub fn put_words(out: &mut Vec<u8>, words: &Vec<u32>)
    ensures
        final(out)@ == old(out)@ + words_to_bytes(words@),
{
    let ghost start = out@;
    let mut i: usize = 0;
    while i < words.len()
        invariant
            i <= words.len(),
            out@ == start + words_to_bytes(words@.subrange(0, i as int)),
        decreases words.len() - i,
    {
        put_u32(out, words[i]);
        proof {
            lemma_auto_spec_u32_to_from_le_bytes();
            let a = words@.subrange(0, i as int);
            let b = words@.subrange(0, i + 1);
            assert(b[i as int] == words@[i as int]);
            assert forall|j: int| 0 <= j < 4 * b.len() implies (words_to_bytes(a)
                + spec_u32_to_le_bytes(words@[i as int]))[j] == words_to_bytes(b)[j] by {
                if j < 4 * a.len() {
                    assert(a[j / 4] == b[j / 4]);
                } else {
                    assert(j / 4 == i);
                    assert(j % 4 == j - 4 * i);
                }
            }
            assert(words_to_bytes(a) + spec_u32_to_le_bytes(words@[i as int]) =~= words_to_bytes(
                b,
            ));
            assert(out@ =~= start + words_to_bytes(b));
        }
        i += 1;
    }
    proof {
        assert(words@.subrange(0, i as int) =~= words@);
    }
}

/// The `count` words stored from `at` on.
pub fn get_words(data: &[u8], at: usize, count: usize) -> (out: Vec<u32>)
    requires
        at + 4 * count <= data@.len(),
    ensures
        out@ == bytes_to_words(data@.subrange(at as int, at + 4 * count)),
{
    let ghost src = data@.subrange(at as int, at + 4 * count);
    let mut out: Vec<u32> = Vec::new();
    let mut i: usize = 0;
    while i < count
        invariant
            i <= count,
            at + 4 * count <= data@.len(),
            src == data@.subrange(at as int, at + 4 * count),
            out@.len() == i,
            forall|j: int| 0 <= j < i ==> out@[j] == bytes_to_words(src)[j],
        decreases count - i,
    {
        let len: usize = data.len();
        let w: u32 = get_u32(data, at + 4 * i);
        proof {
            assert(data@.subrange(at + 4 * i, at + 4 * i + 4) =~= src.subrange(4 * i, 4 * i + 4));
        }
        out.push(w);
        i += 1;
    }
    proof {
        assert(src.len() / 4 == count);
        assert(out@ =~= bytes_to_words(src));
    }
    out
}

// ---------------------------------------------------------------------
// Record bodies
// ---------------------------------------------------------------------
/// Length of the body that encodes `r`.
pub open spec fn record_len(r: RecordView) -> nat {
    48 + 4 * r.vector.len() + r.payload.len()
}

/// Whether `r` can be framed: its body must fit a four-byte length.
pub open spec fn encodable(r: RecordView) -> bool {
    record_len(r) <= MAX_BODY
}

/// The stored form of a record:
/// key (16), valid start (8), valid end (8), tx time (8), component count
/// (4), components (4 each), payload length (4), payload. All little-endian.
pub open spec fn record_bytes(r: RecordView) -> Seq<u8> {
    spec_u128_to_le_bytes(r.key) + spec_u64_to_le_bytes(r.valid_time.start) + spec_u64_to_le_bytes(
        r.valid_time.end,
    ) + spec_u64_to_le_bytes(r.tx_time) + spec_u32_to_le_bytes(r.vector.len() as u32)
        + words_to_bytes(r.vector) + spec_u32_to_le_bytes(r.payload.len() as u32) + r.payload
}

/// The record that a body holds, if the body is exactly one record.
pub open spec fn parse_record(b: Seq<u8>) -> Option<RecordView> {
    if b.len() < 48 {
        None
    } else {
        let n = spec_u32_from_le_bytes(b.subrange(40, 44)) as int;
        if b.len() < 48 + 4 * n {
            None
        } else {
            let p = spec_u32_from_le_bytes(b.subrange(44 + 4 * n, 48 + 4 * n)) as int;
            if b.len() != 48 + 4 * n + p {
                None
            } else {
                Some(
                    RecordView {
                        key: spec_u128_from_le_bytes(b.subrange(0, 16)),
                        vector: bytes_to_words(b.subrange(44, 44 + 4 * n)),
                        payload: b.subrange(48 + 4 * n, 48 + 4 * n + p),
                        valid_time: TimeStamp {
                            start: spec_u64_from_le_bytes(b.subrange(16, 24)),
                            end: spec_u64_from_le_bytes(b.subrange(24, 32)),
                        },
                        tx_time: spec_u64_from_le_bytes(b.subrange(32, 40)),
                    },
                )
            }
        }
    }
}

/// A parsed record has the size of its body.
pub proof fn lemma_parse_len(b: Seq<u8>)
    requires
        parse_record(b) is Some,
    ensures
        record_len(parse_record(b)->0) == b.len(),
{
    let n = spec_u32_from_le_bytes(b.subrange(40, 44)) as int;
    let r = parse_record(b)->0;
    assert(b.subrange(44, 44 + 4 * n).len() == 4 * n);
    assert((4 * n) / 4 == n);
    assert(r.vector.len() == n);
}

/// Parsing the stored form of a record yields the record.
pub proof fn lemma_record_round_trip(r: RecordView)
    requires
        encodable(r),
    ensures
        record_bytes(r).len() == record_len(r),
        parse_record(record_bytes(r)) == Some(r),
{
    lemma_auto_spec_u32_to_from_le_bytes();
    lemma_auto_spec_u64_to_from_le_bytes();
    lemma_auto_spec_u128_to_from_le_bytes();
    lemma_words_round_trip(r.vector);
    let b = record_bytes(r);
    let n = r.vector.len() as int;
    let p = r.payload.len() as int;
    assert(b.len() == 48 + 4 * n + p);
    assert(b.subrange(0, 16) =~= spec_u128_to_le_bytes(r.key));
    assert(b.subrange(16, 24) =~= spec_u64_to_le_bytes(r.valid_time.start));
    assert(b.subrange(24, 32) =~= spec_u64_to_le_bytes(r.valid_time.end));
    assert(b.subrange(32, 40) =~= spec_u64_to_le_bytes(r.tx_time));
    assert(b.subrange(40, 44) =~= spec_u32_to_le_bytes(n as u32));
    assert(b.subrange(44, 44 + 4 * n) =~= words_to_bytes(r.vector));
    assert(b.subrange(44 + 4 * n, 48 + 4 * n) =~= spec_u32_to_le_bytes(p as u32));
    assert(b.subrange(48 + 4 * n, 48 + 4 * n + p) =~= r.payload);
    let q = parse_record(b)->0;
    assert(q.vector =~= r.vector);
    assert(q.payload =~= r.payload);
}

/// Encodes a record body. `None` exactly when the record is too large to be
/// framed.
pub fn encode_record(r: &Record) -> (out: Option<Vec<u8>>)
    ensures
        out is Some <==> encodable(r@),
        out is Some ==> out->0@ == record_bytes(r@),
{
    let n: usize = r.vector.len();
    let p: usize = r.payload.len();
    if n as u64 > MAX_BODY || p as u64 > MAX_BODY {
        return None;
    }
    let total: u64 = 48 + 4 * (n as u64) + (p as u64);
    if total > MAX_BODY {
        return None;
    }
    let mut out: Vec<u8> = Vec::new();
    put_u128(&mut out, r.key);
    put_u64(&mut out, r.valid_time.start);
    put_u64(&mut out, r.valid_time.end);
    put_u64(&mut out, r.tx_time);
    put_u32(&mut out, n as u32);
    put_words(&mut out, &r.vector);
    put_u32(&mut out, p as u32);
    put_bytes(&mut out, r.payload.as_slice());
    proof {
        assert(out@ =~= record_bytes(r@));
    }
    Some(out)
}

/// Decodes a record body. `None` exactly when the bytes are not one record.
pub fn decode_record(b: &[u8]) -> (out: Option<Record>)
    ensures
        out is Some <==> parse_record(b@) is Some,
        out is Some ==> out->0@ == parse_record(b@)->0,
{
    let len: usize = b.len();
    if len < RECORD_FIXED {
        return None;
    }
    let n: u32 = get_u32(b, 40);
    let need: u64 = 48 + 4 * (n as u64);
    if (len as u64) < need {
        return None;
    }
    let n_us: usize = n as usize;
    let p_at: usize = RECORD_HEAD + 4 * n_us;
    let p: u32 = get_u32(b, p_at);
    if (len as u64) != need + (p as u64) {
        return None;
    }
    let key: u128 = get_u128(b, 0);
    let start: u64 = get_u64(b, 16);
    let end: u64 = get_u64(b, 24);
    let tx_time: u64 = get_u64(b, 32);
    let vector: Vec<u32> = get_words(b, RECORD_HEAD, n_us);
    let payload: Vec<u8> = copy_range(b, p_at + 4, len);
    Some(Record { key, vector, payload, valid_time: TimeStamp { start, end }, tx_time })
}

// ---------------------------------------------------------------------
// Frames
// ---------------------------------------------------------------------
/// The body of the frame that starts at `off`: a four-byte little-endian
/// length and that many bytes, all inside `log`.
pub open spec fn frame_body(log: Seq<u8>, off: int) -> Option<Seq<u8>> {
    if off < 0 || off + 4 > log.len() {
        None
    } else {
        let len = spec_u32_from_le_bytes(log.subrange(off, off + 4)) as int;
        if off + 4 + len > log.len() {
            None
        } else {
            Some(log.subrange(off + 4, off + 4 + len))
        }
    }
}

/// The record framed at `off`, if a frame starts there and holds one.
pub open spec fn record_at(log: Seq<u8>, off: int) -> Option<RecordView> {
    match frame_body(log, off) {
        Some(body) => parse_record(body),
        None => None,
    }
}

/// A body behind its length prefix.
pub open spec fn frame(body: Seq<u8>) -> Seq<u8> {
    spec_u32_to_le_bytes(body.len() as u32) + body
}

/// A record that was read from a frame can be framed again.
pub proof fn lemma_stored_encodable(log: Seq<u8>, off: int)
    requires
        record_at(log, off) is Some,
    ensures
        encodable(record_at(log, off)->0),
{
    let body = frame_body(log, off)->0;
    lemma_parse_len(body);
}

/// Encodes a record as one frame: the length of its body, then the body.
/// `None` exactly when the record is too large to be framed.
pub fn encode_frame(r: &Record) -> (out: Option<Vec<u8>>)
    ensures
        out is Some <==> encodable(r@),
        out is Some ==> out->0@ == frame(record_bytes(r@)),
{
    match encode_record(r) {
        None => None,
        Some(body) => {
            proof {
                lemma_record_round_trip(r@);
            }
            let mut out: Vec<u8> = Vec::new();
            put_u32(&mut out, body.len() as u32);
            put_bytes(&mut out, body.as_slice());
            proof {
                assert(out@ =~= frame(body@));
            }
            Some(out)
        },
    }
}

/// A frame, once written, reads the same whatever is appended after it.
pub proof fn lemma_frame_stable(log: Seq<u8>, more: Seq<u8>, off: int)
    requires
        frame_body(log, off) is Some,
    ensures
        frame_body(log + more, off) == frame_body(log, off),
        record_at(log + more, off) == record_at(log, off),
{
    let ext = log + more;
    assert(ext.subrange(off, off + 4) =~= log.subrange(off, off + 4));
    let len = spec_u32_from_le_bytes(log.subrange(off, off + 4)) as int;
    assert(ext.subrange(off + 4, off + 4 + len) =~= log.subrange(off + 4, off + 4 + len));
}

/// The frame appended at the end of a log reads back as its body.
pub proof fn lemma_frame_appended(log: Seq<u8>, body: Seq<u8>)
    requires
        body.len() <= MAX_BODY,
    ensures
        frame_body(log + frame(body), log.len() as int) == Some(body),
        (log + frame(body)).len() == log.len() + 4 + body.len(),
{
    lemma_auto_spec_u32_to_from_le_bytes();
    let ext = log + frame(body);
    let off = log.len() as int;
    assert(ext.subrange(off, off + 4) =~= spec_u32_to_le_bytes(body.len() as u32));
    assert(ext.subrange(off + 4, off + 4 + body.len()) =~= body);
}

/// Where the body of the frame at `at` starts and ends. `None` exactly when
/// no complete frame starts there.
pub fn body_at(data: &[u8], at: usize) -> (r: Option<(usize, usize)>)
    ensures
        match r {
            Some((from, to)) => {
                &&& from == at + 4
                &&& from <= to <= data@.len()
                &&& to - from <= MAX_BODY
                &&& frame_body(data@, at as int) == Some(data@.subrange(from as int, to as int))
            },
            None => frame_body(data@, at as int) is None,
        },
{
    let total: usize = data.len();
    if at > total || total - at < 4 {
        return None;
    }
    let len: u32 = get_u32(data, at);
    let room: u64 = (total - at - 4) as u64;
    if room < (len as u64) {
        return None;
    }
    Some((at + 4, at + 4 + len as usize))
}

// ---------------------------------------------------------------------
// Images of record sets
// ---------------------------------------------------------------------
/// The values of a list of records.
pub open spec fn records_view(recs: Seq<Record>) -> Seq<RecordView> {
    Seq::new(recs.len(), |i: int| recs[i]@)
}

/// The frames of the records of `recs`, one after the other.
pub open spec fn frames(recs: Seq<RecordView>) -> Seq<u8>
    decreases recs.len(),
{
    if recs.len() == 0 {
        Seq::empty()
    } else {
        frame(record_bytes(recs.first())) + frames(recs.drop_first())
    }
}

/// An image of a record set: the record count (4 bytes, little-endian), then
/// one frame per record.
pub open spec fn snapshot_bytes(recs: Seq<RecordView>) -> Seq<u8> {
    spec_u32_to_le_bytes(recs.len() as u32) + frames(recs)
}

/// Reads `count` frames from `at` on, which must end where `b` ends, and adds
/// their records to `acc`.
pub open spec fn parse_frames(b: Seq<u8>, at: int, count: nat, acc: Seq<RecordView>) -> Option<
    Seq<RecordView>,
>
    decreases count,
{
    if count == 0 {
        if at == b.len() {
            Some(acc)
        } else {
            None
        }
    } else {
        match frame_body(b, at) {
            None => None,
            Some(body) => match parse_record(body) {
                None => None,
                Some(r) => parse_frames(b, at + 4 + body.len(), (count - 1) as nat, acc.push(r)),
            },
        }
    }
}

/// The records that an image holds, if the bytes are exactly one image.
pub open spec fn parse_snapshot(b: Seq<u8>) -> Option<Seq<RecordView>> {
    if b.len() < 4 {
        None
    } else {
        parse_frames(b, 4, spec_u32_from_le_bytes(b.subrange(0, 4)) as nat, Seq::empty())
    }
}

/// One more record adds its frame at the end.
pub proof fn lemma_frames_push(recs: Seq<RecordView>, r: RecordView)
    ensures
        frames(recs.push(r)) == frames(recs) + frame(record_bytes(r)),
    decreases recs.len(),
{
    let ext = recs.push(r);
    if recs.len() == 0 {
        assert(ext.first() == r);
        assert(ext.drop_first() =~= Seq::<RecordView>::empty());
        assert(frames(ext.drop_first()) =~= Seq::<u8>::empty());
        assert(frames(recs) =~= Seq::<u8>::empty());
        assert(frames(ext) =~= frames(recs) + frame(record_bytes(r)));
    } else {
        assert(ext.first() == recs.first());
        assert(ext.drop_first() =~= recs.drop_first().push(r));
        lemma_frames_push(recs.drop_first(), r);
        assert(frames(ext) =~= frames(recs) + frame(record_bytes(r)));
    }
}

proof fn lemma_parse_frames_round_trip(pre: Seq<u8>, recs: Seq<RecordView>, acc: Seq<RecordView>)
    requires
        forall|i: int| 0 <= i < recs.len() ==> encodable(#[trigger] recs[i]),
    ensures
        parse_frames(pre + frames(recs), pre.len() as int, recs.len(), acc) == Some(acc + recs),
    decreases recs.len(),
{
    let b = pre + frames(recs);
    if recs.len() == 0 {
        assert(b =~= pre);
        assert(acc + recs =~= acc);
    } else {
        let r = recs.first();
        let rest = recs.drop_first();
        let body = record_bytes(r);
        assert(encodable(recs[0]));
        lemma_record_round_trip(r);
        lemma_frame_appended(pre, body);
        lemma_frame_stable(pre + frame(body), frames(rest), pre.len() as int);
        assert(b =~= pre + frame(body) + frames(rest));
        assert forall|i: int| 0 <= i < rest.len() implies encodable(#[trigger] rest[i]) by {
            assert(rest[i] == recs[i + 1]);
        }
        lemma_parse_frames_round_trip(pre + frame(body), rest, acc.push(r));
        assert(acc.push(r) + rest =~= acc + recs);
    }
}

/// Parsing the image of a record set yields the set.
pub proof fn lemma_snapshot_round_trip(recs: Seq<RecordView>)
    requires
        recs.len() <= 0xffff_ffff,
        forall|i: int| 0 <= i < recs.len() ==> encodable(#[trigger] recs[i]),
    ensures
        parse_snapshot(snapshot_bytes(recs)) == Some(recs),
{
    lemma_auto_spec_u32_to_from_le_bytes();
    let head = spec_u32_to_le_bytes(recs.len() as u32);
    let b = snapshot_bytes(recs);
    assert(b.subrange(0, 4) =~= head);
    lemma_parse_frames_round_trip(head, recs, Seq::empty());
    assert(Seq::<RecordView>::empty() + recs =~= recs);
}

/// Encodes an image of `recs`. `None` exactly when there are too many
/// records to count in four bytes or one of them is too large to be framed.
pub fn encode_snapshot(recs: &Vec<Record>) -> (out: Option<Vec<u8>>)
    ensures
        out is Some <==> (recs@.len() <= 0xffff_ffff && forall|i: int|
            0 <= i < recs@.len() ==> encodable(#[trigger] recs@[i]@)),
        out is Some ==> out->0@ == snapshot_bytes(records_view(recs@)),
{
    if recs.len() as u64 > 0xffff_ffff {
        return None;
    }
    let ghost views = records_view(recs@);
    let mut out: Vec<u8> = Vec::new();
    put_u32(&mut out, recs.len() as u32);
    let ghost head = out@;
    let mut i: usize = 0;
    while i < recs.len()
        invariant
            i <= recs.len(),
            views == records_view(recs@),
            out@ == head + frames(views.subrange(0, i as int)),
            forall|j: int| 0 <= j < i ==> encodable(#[trigger] recs@[j]@),
        decreases recs.len() - i,
    {
        match encode_record(&recs[i]) {
            None => {
                assert(!encodable(recs@[i as int]@));
                return None;
            },
            Some(body) => {
                proof {
                    lemma_record_round_trip(recs@[i as int]@);
                    lemma_frames_push(views.subrange(0, i as int), views[i as int]);
                    assert(views.subrange(0, i as int).push(views[i as int]) =~= views.subrange(
                        0,
                        i + 1,
                    ));
                }
                put_u32(&mut out, body.len() as u32);
                put_bytes(&mut out, body.as_slice());
                proof {
                    assert(out@ =~= head + frames(views.subrange(0, i + 1)));
                }
            },
        }
        i += 1;
    }
    proof {
        assert(views.subrange(0, i as int) =~= views);
    }
    Some(out)
}

/// Decodes an image. `None` exactly when the bytes are not one image. Every
/// record that comes out can be framed again.
pub fn decode_snapshot(b: &[u8]) -> (out: Option<Vec<Record>>)
    ensures
        out is Some <==> parse_snapshot(b@) is Some,
        out is Some ==> {
            &&& records_view(out->0@) == parse_snapshot(b@)->0
            &&& forall|i: int| 0 <= i < out->0@.len() ==> encodable(#[trigger] out->0@[i]@)
        },
{
    let len: usize = b.len();
    if len < 4 {
        return None;
    }
    let count: u32 = get_u32(b, 0);
    let ghost goal = parse_snapshot(b@);
    let mut recs: Vec<Record> = Vec::new();
    let mut pos: usize = 4;
    let mut i: u32 = 0;
    proof {
        assert(records_view(recs@) =~= Seq::<RecordView>::empty());
    }
    while i < count
        invariant
            i <= count,
            len == b@.len(),
            len >= 4,
            pos <= len,
            count == spec_u32_from_le_bytes(b@.subrange(0, 4)),
            goal == parse_snapshot(b@),
            parse_frames(b@, pos as int, (count - i) as nat, records_view(recs@)) == goal,
            forall|j: int| 0 <= j < recs@.len() ==> encodable(#[trigger] recs@[j]@),
        decreases count - i,
    {
        let ghost before = records_view(recs@);
        match body_at(b, pos) {
            None => {
                assert(parse_frames(b@, pos as int, (count - i) as nat, before) is None);
                return None;
            },
            Some((from, to)) => {
                match decode_record(slice_subrange(b, from, to)) {
                    None => {
                        assert(parse_frames(b@, pos as int, (count - i) as nat, before) is None);
                        return None;
                    },
                    Some(rec) => {
                        proof {
                            lemma_parse_len(b@.subrange(from as int, to as int));
                            assert(records_view(recs@.push(rec)) =~= before.push(rec@));
                        }
                        recs.push(rec);
                        pos = to;
                    },
                }
            },
        }
        i += 1;
    }
    if pos != len {
        return None;
    }
    Some(recs)
}

} // verus!
