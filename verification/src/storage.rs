use crate::codec::{
    body_at, decode_record, encodable, encode_record, frame, frame_body, lemma_frame_appended,
    lemma_frame_stable, lemma_record_round_trip, put_bytes, put_u32, record_at, record_bytes,
};
use crate::model::{Record, RecordView};
use vstd::prelude::*;
use vstd::slice::slice_subrange;

verus! {

/// Why a segment operation was refused.
#[derive(Debug, Clone, Copy, PartialEq, Eq, Structural)]
pub enum StorageError {
    /// The record's body does not fit a four-byte length prefix.
    RecordTooLarge,
    /// No complete frame starts at the offset.
    NoFrame,
    /// A frame starts at the offset, but its body is not a record; or bytes
    /// handed in as an image are not one.
    Corrupt,
    /// More records than a four-byte count can announce.
    TooManyRecords,
}

/// The text that describes an error.
pub open spec fn message_text(e: StorageError) -> Seq<char> {
    match e {
        StorageError::RecordTooLarge => "record too large"@,
        StorageError::NoFrame => "no frame at offset"@,
        StorageError::Corrupt => "corrupt record"@,
        StorageError::TooManyRecords => "too many records"@,
    }
}

impl StorageError {
    /// A short description for logs and replies.
    pub fn message(&self) -> (s: &'static str)
        ensures
            s@ == message_text(*self),
    {
        match self {
            StorageError::RecordTooLarge => "record too large",
            StorageError::NoFrame => "no frame at offset",
            StorageError::Corrupt => "corrupt record",
            StorageError::TooManyRecords => "too many records",
        }
    }
}

/// An append-only log of framed records.
///
/// The segment is the byte image of its file: a sequence of frames, each a
/// four-byte little-endian length followed by a record body. A record's
/// address is the offset of its length prefix.
#[derive(Debug)]
pub struct Segment {
    data: Vec<u8>,
}

impl View for Segment {
    type V = Seq<u8>;

    closed spec fn view(&self) -> Seq<u8> {
        self.data@
    }
}

impl Segment {
    /// Opens a segment over the bytes already stored; appends go after them.
    pub fn new(contents: Vec<u8>) -> (s: Segment)
        ensures
            s@ == contents@,
    {
        Segment { data: contents }
    }

    /// Offset at which the next record will be appended.
    pub fn current_offset(&self) -> (off: u64)
        ensures
            off == self@.len(),
    {
        self.data.len() as u64
    }

    /// The stored bytes.
    pub fn as_bytes(&self) -> (b: &[u8])
        ensures
            b@ == self@,
    {
        self.data.as_slice()
    }

    /// Appends `record` as one frame and returns the frame's offset.
    ///
    /// Fails, leaving the segment as it was, exactly when the record is too
    /// large to be framed.
    pub fn append(&mut self, record: &Record) -> (r: Result<u64, StorageError>)
        ensures
            r is Ok <==> encodable(record@),
            r is Ok ==> {
                &&& r->Ok_0 == old(self)@.len()
                &&& final(self)@ == old(self)@ + frame(record_bytes(record@))
                &&& record_at(final(self)@, r->Ok_0 as int) == Some(record@)
            },
            r is Err ==> r->Err_0 == StorageError::RecordTooLarge && final(self)@ == old(self)@,
    {
        match encode_record(record) {
            None => Err(StorageError::RecordTooLarge),
            Some(body) => {
                let start: u64 = self.data.len() as u64;
                proof {
                    lemma_record_round_trip(record@);
                    lemma_frame_appended(self.data@, body@);
                }
                put_u32(&mut self.data, body.len() as u32);
                put_bytes(&mut self.data, body.as_slice());
                proof {
                    assert(self.data@ =~= old(self).data@ + frame(body@));
                }
                Ok(start)
            },
        }
    }

    /// Reads the record framed at `offset`.
    pub fn read(&self, offset: u64) -> (r: Result<Record, StorageError>)
        ensures
            match r {
                Ok(rec) => record_at(self@, offset as int) == Some(rec@),
                Err(StorageError::NoFrame) => frame_body(self@, offset as int) is None,
                Err(StorageError::Corrupt) => frame_body(self@, offset as int) is Some && record_at(
                    self@,
                    offset as int,
                ) is None,
                Err(StorageError::RecordTooLarge) => false,
                Err(StorageError::TooManyRecords) => false,
            },
    {
        let total: usize = self.data.len();
        if offset > (total as u64) {
            return Err(StorageError::NoFrame);
        }
        match body_at(self.data.as_slice(), offset as usize) {
            None => Err(StorageError::NoFrame),
            Some((from, to)) => match decode_record(slice_subrange(self.data.as_slice(), from, to)) {
                Some(rec) => Ok(rec),
                None => Err(StorageError::Corrupt),
            },
        }
    }
}

/// A record appended to a segment is read back unchanged at the offset that
/// the append returned, whatever is appended afterwards.
pub proof fn law_append_read_round_trip(log: Seq<u8>, r: RecordView, more: Seq<u8>)
    requires
        encodable(r),
    ensures
        record_at(log + frame(record_bytes(r)), log.len() as int) == Some(r),
        record_at(log + frame(record_bytes(r)) + more, log.len() as int) == Some(r),
{
    lemma_record_round_trip(r);
    lemma_frame_appended(log, record_bytes(r));
    lemma_frame_stable(log + frame(record_bytes(r)), more, log.len() as int);
}

} // verus!
