//! The record framing shared by the recorder (writer) and the reader.
//!
//! Each record stored in a shard ring has the payload layout
//!
//! ```text
//! [ ts_nanos: u64 LE ][ event_id: u64 LE ][ fields … ]
//! ```
//!
//! The trailing length suffix that delimits records belongs to the ring ([`crate::ring`]) and is
//! not part of this payload.

use crate::id::EventId;
use crate::le::{
    get_le, le_bytes, le_value, lemma_le_bytes_len, lemma_le_round_trip, lemma_pow256_values,
};
use vstd::prelude::*;
use vstd::slice::slice_subrange;

verus! {

/// Byte offset of the timestamp within a record payload.
pub const TS_OFFSET: usize = 0;

/// Byte offset of the event id within a record payload.
pub const ID_OFFSET: usize = 8;

/// Byte offset of the first field within a record payload (end of the fixed prefix).
pub const FIELDS_OFFSET: usize = 16;

/// The payload of a record: its timestamp, its event id, then the event's own bytes.
pub open spec fn record_bytes(ts_nanos: u64, event_id: u64, fields: Seq<u8>) -> Seq<u8> {
    le_bytes(ts_nanos as nat, 8) + le_bytes(event_id as nat, 8) + fields
}

/// The timestamp of a payload that holds the fixed prefix.
pub open spec fn record_ts(payload: Seq<u8>) -> u64 {
    le_value(payload.subrange(0, 8)) as u64
}

/// The event id of a payload that holds the fixed prefix.
pub open spec fn record_id(payload: Seq<u8>) -> u64 {
    le_value(payload.subrange(8, 16)) as u64
}

/// A parsed view over one record payload's fixed prefix and field bytes.
#[derive(Clone, Copy, Debug, PartialEq, Eq)]
pub struct RecordView<'a> {
    /// Capture timestamp in nanoseconds (source-defined epoch).
    pub ts_nanos: u64,
    /// The event id; look it up in the dump's schema registry to decode `fields`.
    pub event_id: EventId,
    /// The event struct's raw bytes, described field-by-field by its schema.
    pub fields: &'a [u8],
}

impl<'a> RecordView<'a> {
    /// Parses a record payload, or returns `None` if it is too short to hold the fixed prefix
    /// (a torn record near the ring head).
    pub fn parse(payload: &'a [u8]) -> (v: Option<Self>)
        ensures
            v is Some <==> payload@.len() >= FIELDS_OFFSET,
            v matches Some(r) ==> payload@ == record_bytes(r.ts_nanos, r.event_id.0, r.fields@),
            v matches Some(r) ==> r.ts_nanos == record_ts(payload@) && r.event_id.0 == record_id(
                payload@,
            ) && r.fields@ == payload@.skip(16),
    {
        if payload.len() < FIELDS_OFFSET {
            return None;
        }
        let ts_nanos: u64 = get_le(slice_subrange(payload, TS_OFFSET, ID_OFFSET));
        let event_id = EventId(get_le(slice_subrange(payload, ID_OFFSET, FIELDS_OFFSET)));
        let fields = slice_subrange(payload, FIELDS_OFFSET, payload.len());
        proof {
            crate::le::lemma_le_value_bytes(payload@.subrange(0, 8));
            crate::le::lemma_le_value_bytes(payload@.subrange(8, 16));
            assert(payload@ =~= payload@.subrange(0, 8) + payload@.subrange(8, 16)
                + payload@.skip(16));
            assert(fields@ =~= payload@.skip(16));
        }
        Some(RecordView { ts_nanos, event_id, fields })
    }
}

/// Parsing what the recorder writes gives back its timestamp, its event id and its fields.
pub proof fn law_record_round_trip(ts_nanos: u64, event_id: u64, fields: Seq<u8>)
    ensures
        record_bytes(ts_nanos, event_id, fields).len() == 16 + fields.len(),
        record_ts(record_bytes(ts_nanos, event_id, fields)) == ts_nanos,
        record_id(record_bytes(ts_nanos, event_id, fields)) == event_id,
        record_bytes(ts_nanos, event_id, fields).skip(16) == fields,
{
    let payload = record_bytes(ts_nanos, event_id, fields);
    lemma_pow256_values();
    lemma_le_bytes_len(ts_nanos as nat, 8);
    lemma_le_bytes_len(event_id as nat, 8);
    lemma_le_round_trip(ts_nanos as nat, 8);
    lemma_le_round_trip(event_id as nat, 8);
    assert(payload.subrange(0, 8) =~= le_bytes(ts_nanos as nat, 8));
    assert(payload.subrange(8, 16) =~= le_bytes(event_id as nat, 8));
    assert(payload.skip(16) =~= fields);
}

} // verus!
