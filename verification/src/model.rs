use vstd::prelude::*;

verus! {

/// Number of components in every embedding handled by the wire protocol and
/// the graph checkpoint.
pub const VECTOR_DIM: usize = 128;

/// Value of `valid_time.end` for a version that has not been closed.
pub const OPEN_END: u64 = 0xffff_ffff_ffff_ffff;

/// Validity interval of a version, in unix seconds: `start <= t < end`.
#[derive(Debug, Clone, Copy, PartialEq, Eq, Structural)]
pub struct TimeStamp {
    pub start: u64,
    pub end: u64,
}

impl TimeStamp {
    /// Whether the instant `t` falls inside the interval.
    pub open spec fn covers(self, t: u64) -> bool {
        self.start <= t && t < self.end
    }

    /// Whether the instant `t` falls inside the interval.
    pub fn contains(&self, t: u64) -> (r: bool)
        ensures
            r == self.covers(t),
    {
        self.start <= t && t < self.end
    }
}

/// One immutable version of an entity.
///
/// Embedding components are carried as the bit patterns of IEEE-754 single
/// precision numbers, so that records can be stored, compared and framed with
/// integer operations only.
#[derive(Debug, Clone, PartialEq)]
pub struct Record {
    pub key: u128,
    pub vector: Vec<u32>,
    pub payload: Vec<u8>,
    pub valid_time: TimeStamp,
    pub tx_time: u64,
}

/// Mathematical value of a [`Record`].
pub struct RecordView {
    pub key: u128,
    pub vector: Seq<u32>,
    pub payload: Seq<u8>,
    pub valid_time: TimeStamp,
    pub tx_time: u64,
}

impl View for Record {
    type V = RecordView;

    open spec fn view(&self) -> RecordView {
        RecordView {
            key: self.key,
            vector: self.vector@,
            payload: self.payload@,
            valid_time: self.valid_time,
            tx_time: self.tx_time,
        }
    }
}

/// The record that an insert at time `ts` creates: valid from `ts` on,
/// never closed, recorded at `ts`.
pub open spec fn new_record(key: u128, vector: Seq<u32>, payload: Seq<u8>, ts: u64) -> RecordView {
    RecordView {
        key,
        vector,
        payload,
        valid_time: TimeStamp { start: ts, end: OPEN_END },
        tx_time: ts,
    }
}

impl Record {
    /// The version that an insert at time `ts` creates.
    pub fn new(key: u128, vector: Vec<u32>, payload: Vec<u8>, ts: u64) -> (r: Record)
        ensures
            r@ == new_record(key, vector@, payload@, ts),
    {
        Record { key, vector, payload, valid_time: TimeStamp { start: ts, end: OPEN_END }, tx_time: ts }
    }

    /// An independent copy with the same value.
    pub fn duplicate(&self) -> (r: Record)
        ensures
            r@ == self@,
    {
        Record {
            key: self.key,
            vector: self.vector.clone(),
            payload: self.payload.clone(),
            valid_time: self.valid_time,
            tx_time: self.tx_time,
        }
    }
}

} // verus!
