//! The on-disk dump format.
//!
//! A dump is self-describing: it carries the schemas needed to decode its own records. The file is
//! an envelope header, a section table, and the section bodies:
//!
//! ```text
//! magic[8] = b"BACKBEAT"
//! format u16, flags u16, section_count u16, reserved u16
//! section_count x { kind u16, pad u16, offset u64, len u64 }
//! section bodies
//! ```
//!
//! A Schema section is the registry of event layouts. Intern, Shard and Meta sections are tagged
//! with the `instance_id` of the process that produced them, so one file can hold the records of
//! several processes. A Views section is opaque query text.

use vstd::prelude::*;

verus! {

/// File magic at the very front of every dump: the letters `BACKBEAT`.
pub const MAGIC: [u8; 8] = [0x42u8, 0x41u8, 0x43u8, 0x4bu8, 0x42u8, 0x45u8, 0x41u8, 0x54u8];

/// Version of the envelope and section framing (event layouts describe themselves).
pub const FORMAT_VERSION: u16 = 1;

/// Envelope flag: records and integer sections are little-endian.
pub const LITTLE_ENDIAN: u16 = 1;

/// Identifies what a section contains. The on-disk numbers are stable.
#[derive(Clone, Copy, Debug, PartialEq, Eq, Structural)]
pub enum SectionKind {
    /// The schema registry: how to decode every event id present in the dump.
    Schema,
    /// An intern table: `u32` id to bytes.
    Intern,
    /// A single capture ring's raw snapshot.
    Shard,
    /// Metadata of one instance: its id and a host label.
    Meta,
    /// Consumer-supplied query DDL, carried verbatim.
    Views,
}

impl SectionKind {
    /// The on-disk number of a section kind.
    pub open spec fn code(self) -> u16 {
        match self {
            SectionKind::Schema => 0,
            SectionKind::Intern => 1,
            SectionKind::Shard => 2,
            SectionKind::Meta => 3,
            SectionKind::Views => 4,
        }
    }

    /// The on-disk number of this section kind.
    pub fn to_u16(self) -> (v: u16)
        ensures
            v == self.code(),
    {
        match self {
            SectionKind::Schema => 0,
            SectionKind::Intern => 1,
            SectionKind::Shard => 2,
            SectionKind::Meta => 3,
            SectionKind::Views => 4,
        }
    }

    /// Maps a raw on-disk value back to a `SectionKind`, or `None` if unknown (a reader skips
    /// section kinds it does not recognize).
    pub fn from_u16(v: u16) -> (kind: Option<Self>)
        ensures
            kind is Some <==> v <= 4,
            kind matches Some(k) ==> k.code() == v,
    {
        match v {
            0 => Some(SectionKind::Schema),
            1 => Some(SectionKind::Intern),
            2 => Some(SectionKind::Shard),
            3 => Some(SectionKind::Meta),
            4 => Some(SectionKind::Views),
            _ => None,
        }
    }
}

/// No two section kinds share an on-disk number, so reading a written kind gives it back.
pub proof fn law_section_codes_distinct(a: SectionKind, b: SectionKind)
    ensures
        a.code() == b.code() ==> a == b,
        a.code() <= 4,
{
}

} // verus!
