use crate::codec::encodable;
use crate::model::{new_record, RecordView};
use crate::versions::{deleted, inserted, latest};
use vstd::prelude::*;

verus! {

/// Identifies a node of the cluster.
pub type NodeId = u64;

/// A write, as it is replicated through the consensus log.
#[derive(Clone, Debug)]
pub enum ChronosRequest {
    /// A new version of `id` with its own embedding.
    Insert { id: u128, vector: Vec<u32>, payload: Vec<u8>, ts: u64 },
    /// The end of `id` and of its history.
    Delete { id: u128 },
    /// A new version of `id` that keeps the embedding of the current one.
    Update { id: u128, payload: Vec<u8>, ts: u64 },
}

/// Mathematical value of a [`ChronosRequest`].
pub enum RequestView {
    Insert { id: u128, vector: Seq<u32>, payload: Seq<u8>, ts: u64 },
    Delete { id: u128 },
    Update { id: u128, payload: Seq<u8>, ts: u64 },
}

impl View for ChronosRequest {
    type V = RequestView;

    open spec fn view(&self) -> RequestView {
        match *self {
            ChronosRequest::Insert { id, vector, payload, ts } => RequestView::Insert {
                id,
                vector: vector@,
                payload: payload@,
                ts,
            },
            ChronosRequest::Delete { id } => RequestView::Delete { id },
            ChronosRequest::Update { id, payload, ts } => RequestView::Update {
                id,
                payload: payload@,
                ts,
            },
        }
    }
}

/// What the state machine answers to an applied entry.
#[derive(Clone, Debug)]
pub struct ChronosResponse {
    pub success: bool,
    pub message: String,
}

/// The record that a request asks the store to append, if it asks for one:
/// an insert its own, an update the current embedding of its key under the
/// new payload and time. None for a delete and for an update of a key
/// without current version.
pub open spec fn wanted_record(v: Map<u128, Seq<RecordView>>, req: RequestView) -> Option<
    RecordView,
> {
    match req {
        RequestView::Insert { id, vector, payload, ts } => Some(new_record(id, vector, payload, ts)),
        RequestView::Update { id, payload, ts } => match latest(v, id) {
            Some(prev) => Some(new_record(id, prev.vector, payload, ts)),
            None => None,
        },
        RequestView::Delete { id } => None,
    }
}

/// The record that a request adds to the store, if it adds one: the record
/// it asks for, unless that is too large to be framed.
pub open spec fn record_of(v: Map<u128, Seq<RecordView>>, req: RequestView) -> Option<RecordView> {
    match wanted_record(v, req) {
        Some(r) => if encodable(r) {
            Some(r)
        } else {
            None
        },
        None => None,
    }
}

/// Whether the store refuses the request: it asks for a record that is too
/// large to be framed. A delete, and an update of a key without current
/// version, which does nothing, are not refused.
pub open spec fn request_fails(v: Map<u128, Seq<RecordView>>, req: RequestView) -> bool {
    wanted_record(v, req) is Some && !encodable(wanted_record(v, req)->0)
}

/// The store after a request was applied.
pub open spec fn applied(v: Map<u128, Seq<RecordView>>, req: RequestView) -> Map<
    u128,
    Seq<RecordView>,
> {
    match req {
        RequestView::Delete { id } => deleted(v, id),
        _ => match record_of(v, req) {
            Some(r) => inserted(v, r),
            None => v,
        },
    }
}

} // verus!
