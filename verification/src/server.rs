use crate::cluster::types::{ChronosRequest, RequestView};
use crate::codec::{
    bytes_to_words, copy_range, encodable, get_u32, get_u64, get_words, put_bytes, put_u32, put_u64,
};
use crate::index::is_search_result;
use crate::model::{Record, RecordView};
use crate::versions::{as_of, compacted, hist, latest};
use crate::ChronosDb;
use vstd::bytes::{
    lemma_auto_spec_u128_to_from_le_bytes, lemma_auto_spec_u32_to_from_le_bytes,
    lemma_auto_spec_u64_to_from_le_bytes, spec_u128_from_le_bytes, spec_u128_to_le_bytes,
    spec_u32_from_le_bytes, spec_u32_to_le_bytes, spec_u64_from_le_bytes, spec_u64_to_le_bytes,
};
use vstd::prelude::*;
use vstd::slice::slice_subrange;

verus! {

// Opcodes of the request frames.
pub const OP_INSERT: u8 = 0x01;

pub const OP_GET: u8 = 0x02;

pub const OP_SEARCH: u8 = 0x03;

pub const OP_HISTORY: u8 = 0x04;

pub const OP_DELETE: u8 = 0x05;

pub const OP_UPDATE: u8 = 0x06;

pub const OP_GET_AS_OF: u8 = 0x07;

pub const OP_COMPACT: u8 = 0x08;

/// Longest body that a request may have.
pub const MAX_REQUEST: usize = 65536;

/// Bytes of an embedding on the wire.
pub const VECTOR_BYTES: usize = 512;

// ---------------------------------------------------------------------
// Ids on the wire
// ---------------------------------------------------------------------
/// The id that sixteen bytes on the wire stand for: the bytes of a UUID,
/// most significant first.
pub open spec fn wire_id(b: Seq<u8>) -> u128 {
    spec_u128_from_le_bytes(b.reverse())
}

/// The sixteen bytes that stand for an id on the wire.
pub open spec fn wire_id_bytes(id: u128) -> Seq<u8> {
    spec_u128_to_le_bytes(id).reverse()
}

/// `uuid::Uuid::from_bytes` followed by `Uuid::as_u128`: the number whose
/// big-endian bytes are the sixteen given.
#[verifier::external_body]
fn id_from_wire(bytes: &[u8]) -> (id: u128)
    requires
        bytes@.len() == 16,
    ensures
        id == wire_id(bytes@),
{
    uuid::Uuid::from_bytes(bytes.try_into().unwrap()).as_u128()
}

/// `uuid::Uuid::from_u128` followed by `Uuid::as_bytes`: the sixteen
/// big-endian bytes of the number.
#[verifier::external_body]
fn id_to_wire(id: u128) -> (bytes: Vec<u8>)
    ensures
        bytes@ == wire_id_bytes(id),
{
    uuid::Uuid::from_u128(id).as_bytes().to_vec()
}

/// An id survives the wire.
pub proof fn law_wire_id_round_trip(id: u128)
    ensures
        wire_id_bytes(id).len() == 16,
        wire_id(wire_id_bytes(id)) == id,
{
    lemma_auto_spec_u128_to_from_le_bytes();
    let le = spec_u128_to_le_bytes(id);
    assert(le.reverse().reverse() =~= le);
}

// ---------------------------------------------------------------------
// Requests
// ---------------------------------------------------------------------
/// What the server does about a request frame.
pub enum Action {
    /// Hand the write to the consensus group, then answer with a status.
    Replicate(ChronosRequest),
    /// Send these bytes.
    Reply(Vec<u8>),
    /// Give the connection up: the frame is malformed, or cannot be
    /// answered.
    Close,
}

/// The length that a frame header announces, if a body of that length is
/// accepted.
pub open spec fn accepted_length(len_bytes: Seq<u8>) -> Option<usize> {
    let n = spec_u32_from_le_bytes(len_bytes);
    if n > 65536 {
        None
    } else {
        Some(n as usize)
    }
}

/// Reads the length field of a frame header. `None` for a body longer than
/// [`MAX_REQUEST`], on which the connection is given up.
pub fn body_length(len_bytes: &[u8]) -> (r: Option<usize>)
    requires
        len_bytes@.len() == 4,
    ensures
        r == accepted_length(len_bytes@),
{
    let n: u32 = get_u32(len_bytes, 0);
    proof {
        assert(len_bytes@.subrange(0, 4) =~= len_bytes@);
    }
    if n > 65536 {
        None
    } else {
        Some(n as usize)
    }
}

/// The insert that a body asks for at time `ts`: id, embedding, and the
/// rest as payload. None for a body too short to hold id and embedding.
pub open spec fn insert_request(data: Seq<u8>, ts: u64) -> Option<RequestView> {
    if data.len() < 528 {
        None
    } else {
        Some(
            RequestView::Insert {
                id: wire_id(data.subrange(0, 16)),
                vector: bytes_to_words(data.subrange(16, 528)),
                payload: data.subrange(528, data.len() as int),
                ts,
            },
        )
    }
}

/// The update that a body asks for at time `ts`: id, and the rest as
/// payload. None for a body too short to hold an id.
pub open spec fn update_request(data: Seq<u8>, ts: u64) -> Option<RequestView> {
    if data.len() < 16 {
        None
    } else {
        Some(
            RequestView::Update {
                id: wire_id(data.subrange(0, 16)),
                payload: data.subrange(16, data.len() as int),
                ts,
            },
        )
    }
}

// ---------------------------------------------------------------------
// Replies
// ---------------------------------------------------------------------
/// `OK`.
pub open spec fn ok_reply() -> Seq<u8> {
    seq![0x4fu8, 0x4bu8]
}

/// `ER`.
pub open spec fn er_reply() -> Seq<u8> {
    seq![0x45u8, 0x52u8]
}

/// The reply to a lookup: a zero byte for nothing; else a one byte, the
/// payload length (4 bytes, little-endian) and the payload.
pub open spec fn get_reply(found: Option<RecordView>) -> Seq<u8> {
    match found {
        Some(rec) => seq![1u8] + spec_u32_to_le_bytes(rec.payload.len() as u32) + rec.payload,
        None => seq![0u8],
    }
}

/// The entries of a search reply: per hit the id (16 bytes) and the
/// distance (4 bytes, little-endian).
pub open spec fn hits_bytes(hits: Seq<(u128, u32)>) -> Seq<u8>
    decreases hits.len(),
{
    if hits.len() == 0 {
        Seq::empty()
    } else {
        hits_bytes(hits.drop_last()) + wire_id_bytes(hits.last().0) + spec_u32_to_le_bytes(
            hits.last().1,
        )
    }
}

/// The reply to a search: the hit count (4 bytes, little-endian), then the
/// hits.
pub open spec fn search_reply(hits: Seq<(u128, u32)>) -> Seq<u8> {
    spec_u32_to_le_bytes(hits.len() as u32) + hits_bytes(hits)
}

/// One version in a history reply: valid start and end (8 bytes each), the
/// payload length (4 bytes) and the payload. All little-endian.
pub open spec fn version_bytes(rec: RecordView) -> Seq<u8> {
    spec_u64_to_le_bytes(rec.valid_time.start) + spec_u64_to_le_bytes(rec.valid_time.end)
        + spec_u32_to_le_bytes(rec.payload.len() as u32) + rec.payload
}

/// The versions of a history reply, one after the other.
pub open spec fn versions_bytes(h: Seq<RecordView>) -> Seq<u8>
    decreases h.len(),
{
    if h.len() == 0 {
        Seq::empty()
    } else {
        versions_bytes(h.drop_last()) + version_bytes(h.last())
    }
}

/// The reply to a history request: the version count (4 bytes,
/// little-endian), then the versions, oldest first.
pub open spec fn history_reply(h: Seq<RecordView>) -> Seq<u8> {
    spec_u32_to_le_bytes(h.len() as u32) + versions_bytes(h)
}

/// Bytes of payload in a history.
pub open spec fn payload_total(h: Seq<RecordView>) -> nat
    decreases h.len(),
{
    if h.len() == 0 {
        0
    } else {
        payload_total(h.drop_last()) + h.last().payload.len()
    }
}

/// Wire framing: a status reply has two bytes; a lookup reply one byte, or
/// five and the payload.
pub proof fn law_short_reply_lengths(found: Option<RecordView>)
    ensures
        ok_reply().len() == 2,
        er_reply().len() == 2,
        found is None ==> get_reply(found).len() == 1,
        found is Some ==> get_reply(found).len() == 5 + found->0.payload.len(),
{
    lemma_auto_spec_u32_to_from_le_bytes();
}

/// Wire framing: a search reply has four bytes and twenty per hit.
pub proof fn law_search_reply_length(hits: Seq<(u128, u32)>)
    ensures
        hits_bytes(hits).len() == 20 * hits.len(),
        search_reply(hits).len() == 4 + 20 * hits.len(),
    decreases hits.len(),
{
    lemma_auto_spec_u32_to_from_le_bytes();
    lemma_auto_spec_u128_to_from_le_bytes();
    if hits.len() > 0 {
        law_search_reply_length(hits.drop_last());
    }
}

/// Wire framing: a history reply has four bytes, twenty per version, and
/// the payloads.
pub proof fn law_history_reply_length(h: Seq<RecordView>)
    ensures
        versions_bytes(h).len() == 20 * h.len() + payload_total(h),
        history_reply(h).len() == 4 + 20 * h.len() + payload_total(h),
    decreases h.len(),
{
    lemma_auto_spec_u32_to_from_le_bytes();
    lemma_auto_spec_u64_to_from_le_bytes();
    if h.len() > 0 {
        law_history_reply_length(h.drop_last());
    }
}

/// Wire framing: whatever is sent in answer to a frame has the length laid
/// down for its opcode. A write is answered with the two bytes of a status;
/// a lookup with one byte, or five and the payload; a search with four bytes
/// and twenty per hit, of which there are no more than were asked for; a
/// history with four bytes, twenty per version, and the payloads; a
/// compaction with two bytes.
pub proof fn law_replies_are_framed<F: Fn(&Vec<u32>, &Vec<u32>) -> u32>(
    a: Action,
    data: Seq<u8>,
    ts: u64,
    before: &ChronosDb<F>,
    after: &ChronosDb<F>,
)
    requires
        a is Reply,
    ensures
        insert_outcome(a, data, ts) || update_outcome(a, data, ts) || delete_outcome(a, data)
            || compact_outcome(a, data, before, after) ==> a->Reply_0@.len() == 2,
        get_outcome(a, data, before.versions()) || get_as_of_outcome(a, data, before.versions())
            ==> a->Reply_0@.len() == 1 || exists|rec: RecordView|
            a->Reply_0@.len() == 5 + (#[trigger] rec.payload.len()) && a->Reply_0@ == get_reply(Some(rec)),
        search_outcome(a, data, before.graph()) ==> exists|hits: Seq<(u128, u32)>|
            {
                &&& #[trigger] search_reply(hits) == a->Reply_0@
                &&& hits.len() <= spec_u32_from_le_bytes(data.subrange(0, 4))
                &&& a->Reply_0@.len() == 4 + 20 * hits.len()
            },
        history_outcome(a, data, before.versions()) ==> a->Reply_0@.len() == 4 + 20 * hist(
            before.versions(),
            wire_id(data),
        ).len() + payload_total(hist(before.versions(), wire_id(data))),
{
    let b = a->Reply_0@;
    lemma_auto_spec_u32_to_from_le_bytes();
    if get_outcome(a, data, before.versions()) {
        law_short_reply_lengths(latest(before.versions(), wire_id(data)));
        if latest(before.versions(), wire_id(data)) is Some {
            let rec = latest(before.versions(), wire_id(data))->0;
            assert(b.len() == 5 + rec.payload.len() && b == get_reply(Some(rec)));
        }
    }
    if get_as_of_outcome(a, data, before.versions()) {
        let found = if data.len() == 24 {
            as_of(
                hist(before.versions(), wire_id(data.subrange(0, 16))),
                spec_u64_from_le_bytes(data.subrange(16, 24)),
            )
        } else {
            None
        };
        law_short_reply_lengths(found);
        if found is Some {
            let rec = found->0;
            assert(b.len() == 5 + rec.payload.len() && b == get_reply(Some(rec)));
        }
    }
    if search_outcome(a, data, before.graph()) {
        let k = spec_u32_from_le_bytes(data.subrange(0, 4)) as nat;
        let hits = choose|hits: Seq<(u128, u32)>|
            is_search_result(
                hits,
                before.graph().shape(),
                before.graph().scores(bytes_to_words(data.subrange(4, 516))),
                k,
            ) && #[trigger] search_reply(hits) == b;
        crate::index::lemma_search_result_bounded(
            hits,
            before.graph().shape(),
            before.graph().scores(bytes_to_words(data.subrange(4, 516))),
            k,
        );
        law_search_reply_length(hits);
        assert(search_reply(hits) == b && hits.len() <= k && b.len() == 4 + 20 * hits.len());
    }
    if history_outcome(a, data, before.versions()) {
        law_history_reply_length(hist(before.versions(), wire_id(data)));
    }
}

/// The status reply: `OK` or `ER`.
pub fn status_reply(ok: bool) -> (b: Vec<u8>)
    ensures
        b@ == (if ok {
            ok_reply()
        } else {
            er_reply()
        }),
{
    let mut b: Vec<u8> = Vec::new();
    if ok {
        b.push(0x4f);
        b.push(0x4b);
    } else {
        b.push(0x45);
        b.push(0x52);
    }
    proof {
        assert(b@ =~= (if ok {
            ok_reply()
        } else {
            er_reply()
        }));
    }
    b
}

/// The reply to a lookup.
pub fn encode_get(found: &Option<Record>) -> (b: Vec<u8>)
    requires
        found is Some ==> found->0@.payload.len() <= 0xffff_ffff,
    ensures
        b@ == get_reply(
            match *found {
                Some(rec) => Some(rec@),
                None => None,
            },
        ),
{
    let mut b: Vec<u8> = Vec::new();
    match found {
        Some(rec) => {
            b.push(1);
            put_u32(&mut b, rec.payload.len() as u32);
            put_bytes(&mut b, rec.payload.as_slice());
            proof {
                assert(b@ =~= get_reply(Some(rec@)));
            }
        },
        None => {
            b.push(0);
            proof {
                assert(b@ =~= get_reply(None));
            }
        },
    }
    b
}

/// The reply to a search.
pub fn encode_search(hits: &Vec<(u128, u32)>) -> (b: Vec<u8>)
    requires
        hits@.len() <= 0xffff_ffff,
    ensures
        b@ == search_reply(hits@),
{
    let mut b: Vec<u8> = Vec::new();
    put_u32(&mut b, hits.len() as u32);
    let ghost head = b@;
    let mut i: usize = 0;
    while i < hits.len()
        invariant
            i <= hits.len(),
            b@ == head + hits_bytes(hits@.subrange(0, i as int)),
        decreases hits.len() - i,
    {
        let hit: (u128, u32) = hits[i];
        let id_bytes: Vec<u8> = id_to_wire(hit.0);
        put_bytes(&mut b, id_bytes.as_slice());
        put_u32(&mut b, hit.1);
        proof {
            assert(hits@.subrange(0, i + 1).drop_last() =~= hits@.subrange(0, i as int));
            assert(hits@.subrange(0, i + 1).last() == hit);
            assert(b@ =~= head + hits_bytes(hits@.subrange(0, i + 1)));
        }
        i += 1;
    }
    proof {
        assert(hits@.subrange(0, i as int) =~= hits@);
    }
    b
}

/// The reply to a history request.
pub fn encode_history(history: &Vec<Record>) -> (b: Vec<u8>)
    requires
        history@.len() <= 0xffff_ffff,
        forall|i: int| 0 <= i < history@.len() ==> (#[trigger] history@[i])@.payload.len() <= 0xffff_ffff,
    ensures
        b@ == history_reply(crate::codec::records_view(history@)),
{
    let ghost views = crate::codec::records_view(history@);
    let mut b: Vec<u8> = Vec::new();
    put_u32(&mut b, history.len() as u32);
    let ghost head = b@;
    let mut i: usize = 0;
    while i < history.len()
        invariant
            i <= history.len(),
            views == crate::codec::records_view(history@),
            forall|t: int|
                0 <= t < history@.len() ==> (#[trigger] history@[t])@.payload.len() <= 0xffff_ffff,
            b@ == head + versions_bytes(views.subrange(0, i as int)),
        decreases history.len() - i,
    {
        let rec: &Record = &history[i];
        put_u64(&mut b, rec.valid_time.start);
        put_u64(&mut b, rec.valid_time.end);
        put_u32(&mut b, rec.payload.len() as u32);
        put_bytes(&mut b, rec.payload.as_slice());
        proof {
            assert(views.subrange(0, i + 1).drop_last() =~= views.subrange(0, i as int));
            assert(views.subrange(0, i + 1).last() == rec@);
            assert(b@ =~= head + versions_bytes(views.subrange(0, i + 1)));
        }
        i += 1;
    }
    proof {
        assert(views.subrange(0, i as int) =~= views);
    }
    b
}

// ---------------------------------------------------------------------
// What each request is answered with
// ---------------------------------------------------------------------
/// INSERT: the write to replicate, or `ER` for a body too short to hold an
/// id and an embedding.
pub open spec fn insert_outcome(a: Action, data: Seq<u8>, ts: u64) -> bool {
    match a {
        Action::Replicate(req) => insert_request(data, ts) == Some(req@),
        Action::Reply(b) => insert_request(data, ts) is None && b@ == er_reply(),
        _ => false,
    }
}

/// UPDATE: the write to replicate, or `ER` for a body too short to hold an
/// id.
pub open spec fn update_outcome(a: Action, data: Seq<u8>, ts: u64) -> bool {
    match a {
        Action::Replicate(req) => update_request(data, ts) == Some(req@),
        Action::Reply(b) => update_request(data, ts) is None && b@ == er_reply(),
        _ => false,
    }
}

/// DELETE: the write to replicate, or `ER` for a body that is not an id.
pub open spec fn delete_outcome(a: Action, data: Seq<u8>) -> bool {
    match a {
        Action::Replicate(req) => data.len() == 16 && req@ == (RequestView::Delete { id: wire_id(data) }),
        Action::Reply(b) => data.len() != 16 && b@ == er_reply(),
        _ => false,
    }
}

/// GET: the current version of the id. A body that is not an id is a
/// malformed frame, for which no reply is laid down: the connection is
/// given up.
pub open spec fn get_outcome(a: Action, data: Seq<u8>, v: Map<u128, Seq<RecordView>>) -> bool {
    match a {
        Action::Reply(b) => data.len() == 16 && b@ == get_reply(latest(v, wire_id(data))),
        Action::Close => data.len() != 16,
        _ => false,
    }
}

/// GET_AS_OF: the version of the id valid at the given time; a zero byte
/// for a body that is not an id and a time.
pub open spec fn get_as_of_outcome(a: Action, data: Seq<u8>, v: Map<u128, Seq<RecordView>>) -> bool {
    match a {
        Action::Reply(b) => b@ == (if data.len() == 24 {
            get_reply(
                as_of(
                    hist(v, wire_id(data.subrange(0, 16))),
                    spec_u64_from_le_bytes(data.subrange(16, 24)),
                ),
            )
        } else {
            get_reply(None)
        }),
        _ => false,
    }
}

/// SEARCH: a search result for the count and the query of the body. A body
/// too short to hold a count and an embedding is a malformed frame: the
/// connection is given up.
pub open spec fn search_outcome<F: Fn(&Vec<u32>, &Vec<u32>) -> u32>(
    a: Action,
    data: Seq<u8>,
    graph: crate::index::HnswIndex<F>,
) -> bool {
    match a {
        Action::Reply(b) => data.len() >= 516 && exists|hits: Seq<(u128, u32)>|
            is_search_result(
                hits,
                graph.shape(),
                graph.scores(bytes_to_words(data.subrange(4, 516))),
                spec_u32_from_le_bytes(data.subrange(0, 4)) as nat,
            ) && #[trigger] search_reply(hits) == b@,
        Action::Close => data.len() < 516,
        _ => false,
    }
}

/// HISTORY: every version of the id, oldest first. The connection is given
/// up for a body that is not an id, which is a malformed frame, and for a
/// history with more versions than the four bytes of the count can
/// announce, which no reply can hold.
pub open spec fn history_outcome(a: Action, data: Seq<u8>, v: Map<u128, Seq<RecordView>>) -> bool {
    match a {
        Action::Reply(b) => {
            &&& data.len() == 16
            &&& hist(v, wire_id(data)).len() <= 0xffff_ffff
            &&& b@ == history_reply(hist(v, wire_id(data)))
        },
        Action::Close => data.len() != 16 || hist(v, wire_id(data)).len() > 0xffff_ffff,
        _ => false,
    }
}

/// COMPACT: `OK` after every key was cut down to the limit of the body;
/// `ER`, with nothing changed, for a body that is not a limit.
pub open spec fn compact_outcome<F: Fn(&Vec<u32>, &Vec<u32>) -> u32>(
    a: Action,
    data: Seq<u8>,
    before: &ChronosDb<F>,
    after: &ChronosDb<F>,
) -> bool {
    match a {
        Action::Reply(b) => if data.len() == 8 {
            &&& b@ == ok_reply()
            &&& after.versions() == compacted(before.versions(), clamp_limit(spec_u64_from_le_bytes(data)) as nat)
            &&& exists|order: Seq<u128>|
                crate::keys::enumerates(order, before.versions().dom()) && #[trigger] crate::is_compaction(
                    after.segment_bytes(),
                    after.offsets(),
                    before.versions(),
                    order,
                    clamp_limit(spec_u64_from_le_bytes(data)) as nat,
                )
            &&& after.filter().bits() == before.filter().bits()
            &&& after.graph().shape() == before.graph().shape()
        } else {
            &&& b@ == er_reply()
            &&& after.same_state(before)
        },
        _ => false,
    }
}

/// A history limit as a count of versions on this machine: limits beyond
/// what the machine can count keep everything, as the greatest count does.
pub open spec fn clamp_limit(raw: u64) -> usize {
    if raw > usize::MAX {
        usize::MAX
    } else {
        raw as usize
    }
}

// ---------------------------------------------------------------------
// Handlers
// ---------------------------------------------------------------------
/// INSERT: the write to replicate, or `ER` for a body too short to hold an
/// id and an embedding.
pub fn handle_insert(data: &[u8], ts: u64) -> (a: Action)
    ensures
        insert_outcome(a, data@, ts),
{
    let len: usize = data.len();
    if len < 16 + VECTOR_BYTES {
        return Action::Reply(status_reply(false));
    }
    let id: u128 = id_from_wire(slice_subrange(data, 0, 16));
    let vector: Vec<u32> = get_words(data, 16, 128);
    let payload: Vec<u8> = copy_range(data, 528, len);
    Action::Replicate(ChronosRequest::Insert { id, vector, payload, ts })
}

/// UPDATE: the write to replicate, or `ER` for a body too short to hold an
/// id.
pub fn handle_update(data: &[u8], ts: u64) -> (a: Action)
    ensures
        update_outcome(a, data@, ts),
{
    let len: usize = data.len();
    if len < 16 {
        return Action::Reply(status_reply(false));
    }
    let id: u128 = id_from_wire(slice_subrange(data, 0, 16));
    let payload: Vec<u8> = copy_range(data, 16, len);
    Action::Replicate(ChronosRequest::Update { id, payload, ts })
}

/// DELETE: the write to replicate, or `ER` for a body that is not an id.
pub fn handle_delete(data: &[u8]) -> (a: Action)
    ensures
        delete_outcome(a, data@),
{
    if data.len() != 16 {
        return Action::Reply(status_reply(false));
    }
    Action::Replicate(ChronosRequest::Delete { id: id_from_wire(data) })
}

/// GET: the current version of the id; a body that is not an id gives the
/// connection up.
pub fn handle_get<F: Fn(&Vec<u32>, &Vec<u32>) -> u32>(data: &[u8], db: &ChronosDb<F>) -> (a: Action)
    requires
        db.wf(),
    ensures
        get_outcome(a, data@, db.versions()),
{
    if data.len() != 16 {
        return Action::Close;
    }
    let id: u128 = id_from_wire(data);
    let found: Option<Record> = db.get_latest(id);
    proof {
        db.lemma_versions_fit(id);
        if found is Some {
            assert(encodable(hist(db.versions(), id)[hist(db.versions(), id).len() - 1]));
        }
    }
    Action::Reply(encode_get(&found))
}

/// GET_AS_OF: the version of the id valid at the given time; a zero byte
/// for a body that is not an id and a time.
pub fn handle_get_as_of<F: Fn(&Vec<u32>, &Vec<u32>) -> u32>(data: &[u8], db: &ChronosDb<F>) -> (a:
    Action)
    requires
        db.wf(),
    ensures
        get_as_of_outcome(a, data@, db.versions()),
{
    if data.len() != 24 {
        return Action::Reply(encode_get(&None));
    }
    let id: u128 = id_from_wire(slice_subrange(data, 0, 16));
    let target_time: u64 = get_u64(data, 16);
    let found: Option<Record> = db.get_as_of(id, target_time);
    proof {
        db.lemma_versions_fit(id);
        if found is Some {
            lemma_as_of_member(hist(db.versions(), id), target_time);
        }
    }
    Action::Reply(encode_get(&found))
}

/// The version that an as-of lookup picks is one of the history.
pub proof fn lemma_as_of_member(h: Seq<RecordView>, t: u64)
    requires
        as_of(h, t) is Some,
    ensures
        exists|i: int| 0 <= i < h.len() && #[trigger] h[i] == as_of(h, t)->0,
    decreases h.len(),
{
    if h.last().valid_time.covers(t) {
        assert(h[h.len() - 1] == as_of(h, t)->0);
    } else {
        lemma_as_of_member(h.drop_last(), t);
        let i = choose|i: int| 0 <= i < h.drop_last().len() && #[trigger] h.drop_last()[i] == as_of(
            h.drop_last(),
            t,
        )->0;
        assert(h[i] == as_of(h, t)->0);
    }
}

/// SEARCH: the nearest neighbours of the query; a body too short to hold a
/// count and an embedding gives the connection up. Bytes after the
/// embedding are not looked at.
pub fn handle_search<F: Fn(&Vec<u32>, &Vec<u32>) -> u32>(data: &[u8], db: &ChronosDb<F>) -> (a:
    Action)
    requires
        db.wf(),
    ensures
        search_outcome(a, data@, db.graph()),
{
    if data.len() < 4 + VECTOR_BYTES {
        return Action::Close;
    }
    let k: u32 = get_u32(data, 0);
    let query: Vec<u32> = get_words(data, 4, 128);
    let results: Vec<(u128, u32)> = db.vector_index().search(&query, k as usize);
    proof {
        crate::index::lemma_search_result_bounded(
            results@,
            db.graph().shape(),
            db.graph().scores(query@),
            k as nat,
        );
    }
    let b: Vec<u8> = encode_search(&results);
    proof {
        assert(search_reply(results@) == b@);
    }
    Action::Reply(b)
}

/// HISTORY: every version of the id, oldest first; a body that is not an
/// id, and a history with more versions than four bytes can count, give
/// the connection up.
pub fn handle_history<F: Fn(&Vec<u32>, &Vec<u32>) -> u32>(data: &[u8], db: &ChronosDb<F>) -> (a:
    Action)
    requires
        db.wf(),
    ensures
        history_outcome(a, data@, db.versions()),
{
    if data.len() != 16 {
        return Action::Close;
    }
    let id: u128 = id_from_wire(data);
    let history: Vec<Record> = db.get_history(id);
    if history.len() as u64 > 0xffff_ffff {
        return Action::Close;
    }
    proof {
        db.lemma_versions_fit(id);
        assert forall|i: int| 0 <= i < history@.len() implies (#[trigger] history@[i])@.payload.len()
            <= 0xffff_ffff by {
            assert(crate::codec::records_view(history@)[i] == history@[i]@);
            assert(encodable(hist(db.versions(), id)[i]));
        }
    }
    Action::Reply(encode_history(&history))
}

/// The history limit that a COMPACT body asks for: its eight bytes as a
/// little-endian number, clamped to what the machine can count. None for a
/// body that is not eight bytes.
pub open spec fn compact_request(data: Seq<u8>) -> Option<usize> {
    if data.len() == 8 {
        Some(clamp_limit(spec_u64_from_le_bytes(data)))
    } else {
        None
    }
}

/// Reads the history limit out of a COMPACT body.
pub fn decode_compact(data: &[u8]) -> (r: Option<usize>)
    ensures
        r == compact_request(data@),
{
    if data.len() != 8 {
        return None;
    }
    let raw: u64 = get_u64(data, 0);
    proof {
        assert(data@.subrange(0, 8) =~= data@);
    }
    if raw > usize::MAX as u64 {
        Some(usize::MAX)
    } else {
        Some(raw as usize)
    }
}

/// COMPACT: cuts every key down to its newest versions and answers `OK`;
/// answers `ER`, changing nothing, for a body that is not a limit.
pub fn handle_compact<F: Fn(&Vec<u32>, &Vec<u32>) -> u32>(data: &[u8], db: &mut ChronosDb<F>) -> (a:
    Action)
    requires
        old(db).wf(),
    ensures
        final(db).wf(),
        final(db).same_config(old(db)),
        compact_outcome(a, data@, old(db), final(db)),
{
    let limit: usize = match decode_compact(data) {
        Some(limit) => limit,
        None => {
            return Action::Reply(status_reply(false));
        },
    };
    match db.compact(limit) {
        Ok(_) => Action::Reply(status_reply(true)),
        Err(_) => Action::Reply(status_reply(false)),
    }
}

/// What a request frame asks for, by its opcode.
#[derive(Debug, Clone, Copy, PartialEq, Eq, Structural)]
pub enum FrameKind {
    /// A write, which goes through the consensus group.
    Write,
    /// A lookup, which only reads the store.
    Lookup,
    /// A compaction, which rewrites the store.
    Compaction,
    /// Nothing that the server knows of.
    Unknown,
}

/// The kind of the frames with opcode `op`.
pub open spec fn kind_of(op: u8) -> FrameKind {
    if op == OP_INSERT || op == OP_DELETE || op == OP_UPDATE {
        FrameKind::Write
    } else if op == OP_GET || op == OP_SEARCH || op == OP_HISTORY || op == OP_GET_AS_OF {
        FrameKind::Lookup
    } else if op == OP_COMPACT {
        FrameKind::Compaction
    } else {
        FrameKind::Unknown
    }
}

/// The kind of the frames with opcode `op`.
pub fn frame_kind(op: u8) -> (k: FrameKind)
    ensures
        k == kind_of(op),
{
    if op == OP_INSERT || op == OP_DELETE || op == OP_UPDATE {
        FrameKind::Write
    } else if op == OP_GET || op == OP_SEARCH || op == OP_HISTORY || op == OP_GET_AS_OF {
        FrameKind::Lookup
    } else if op == OP_COMPACT {
        FrameKind::Compaction
    } else {
        FrameKind::Unknown
    }
}

/// Decodes a write frame into the request to replicate, with `now` as its
/// time, or answers `ER` to a malformed one. A frame of another kind gives
/// the connection up.
pub fn handle_write(op: u8, body: &[u8], now: u64) -> (a: Action)
    ensures
        op == OP_INSERT ==> insert_outcome(a, body@, now),
        op == OP_UPDATE ==> update_outcome(a, body@, now),
        op == OP_DELETE ==> delete_outcome(a, body@),
        kind_of(op) != FrameKind::Write ==> a is Close,
{
    if op == OP_INSERT {
        handle_insert(body, now)
    } else if op == OP_DELETE {
        handle_delete(body)
    } else if op == OP_UPDATE {
        handle_update(body, now)
    } else {
        Action::Close
    }
}

/// Answers a lookup frame from the store, which it only reads. A frame of
/// another kind gives the connection up.
pub fn handle_lookup<F: Fn(&Vec<u32>, &Vec<u32>) -> u32>(db: &ChronosDb<F>, op: u8, body: &[u8]) -> (a:
    Action)
    requires
        db.wf(),
    ensures
        op == OP_GET ==> get_outcome(a, body@, db.versions()),
        op == OP_GET_AS_OF ==> get_as_of_outcome(a, body@, db.versions()),
        op == OP_SEARCH ==> search_outcome(a, body@, db.graph()),
        op == OP_HISTORY ==> history_outcome(a, body@, db.versions()),
        kind_of(op) != FrameKind::Lookup ==> a is Close,
{
    if op == OP_GET {
        handle_get(body, db)
    } else if op == OP_SEARCH {
        handle_search(body, db)
    } else if op == OP_HISTORY {
        handle_history(body, db)
    } else if op == OP_GET_AS_OF {
        handle_get_as_of(body, db)
    } else {
        Action::Close
    }
}

/// Dispatches a request frame by its opcode. Writes are handed back for
/// replication with `now` as their time; lookups are answered from the
/// store; a compaction is carried out; an unknown opcode gives the
/// connection up. Every frame is either answered or ends the connection.
pub fn handle_frame<F: Fn(&Vec<u32>, &Vec<u32>) -> u32>(
    db: &mut ChronosDb<F>,
    op: u8,
    body: &[u8],
    now: u64,
) -> (a: Action)
    requires
        old(db).wf(),
    ensures
        final(db).wf(),
        final(db).same_config(old(db)),
        op != OP_COMPACT ==> final(db).same_state(old(db)),
        kind_of(op) == FrameKind::Unknown ==> a is Close,
        op == OP_INSERT ==> insert_outcome(a, body@, now),
        op == OP_UPDATE ==> update_outcome(a, body@, now),
        op == OP_DELETE ==> delete_outcome(a, body@),
        op == OP_GET ==> get_outcome(a, body@, old(db).versions()),
        op == OP_GET_AS_OF ==> get_as_of_outcome(a, body@, old(db).versions()),
        op == OP_SEARCH ==> search_outcome(a, body@, old(db).graph()),
        op == OP_HISTORY ==> history_outcome(a, body@, old(db).versions()),
        op == OP_COMPACT ==> compact_outcome(a, body@, old(db), final(db)),
{
    match frame_kind(op) {
        FrameKind::Write => handle_write(op, body, now),
        FrameKind::Lookup => handle_lookup(db, op, body),
        FrameKind::Compaction => handle_compact(body, db),
        FrameKind::Unknown => Action::Close,
    }
}

} // verus!
