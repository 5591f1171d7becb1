//! Stable event identifiers.
//!
//! Every event type is identified by a 64-bit [`EventId`], an FNV-1a hash. The hash needs no
//! central registry and is the same on every build, architecture and host, so ids can be compared
//! directly across dumps.

use crate::le::le_bytes;
use crate::schema::FieldType;
use crate::text::{hex_text, push_hex};
use vstd::prelude::*;
use vstd::utf8::encode_utf8;

verus! {

/// FNV-1a 64-bit offset basis.
pub const FNV_OFFSET: u64 = 0xcbf2_9ce4_8422_2325;

/// FNV-1a 64-bit prime.
pub const FNV_PRIME: u64 = 0x0000_0100_0000_01b3;

/// One FNV-1a step: xor the byte in, then multiply by the prime modulo `2^64`.
pub open spec fn fnv_step(hash: u64, b: u8) -> u64 {
    ((hash ^ (b as u64)) * FNV_PRIME % 0x1_0000_0000_0000_0000) as u64
}

/// The hash after the bytes `s` have been folded into `hash`, first byte first.
pub open spec fn fnv_fold(hash: u64, s: Seq<u8>) -> u64
    decreases s.len(),
{
    if s.len() == 0 {
        hash
    } else {
        fnv_step(fnv_fold(hash, s.drop_last()), s.last())
    }
}

/// A string as the hash and the dump format both frame it: the low 16 bits of its length in bytes,
/// then its UTF-8 bytes.
pub open spec fn str_bytes(s: Seq<char>) -> Seq<u8> {
    le_bytes(encode_utf8(s).len(), 2) + encode_utf8(s)
}

/// An optional string: a presence byte, then the string when present.
pub open spec fn opt_str_bytes(s: Option<Seq<char>>) -> Seq<u8> {
    match s {
        Some(s) => seq![1u8] + str_bytes(s),
        None => seq![0u8],
    }
}

/// The characters of an optional string slice.
pub open spec fn opt_chars(s: Option<&str>) -> Option<Seq<char>> {
    match s {
        Some(s) => Some(s@),
        None => None,
    }
}

/// Folding in two runs of bytes one after the other folds in their concatenation.
pub proof fn lemma_fnv_fold_concat(hash: u64, a: Seq<u8>, b: Seq<u8>)
    ensures
        fnv_fold(fnv_fold(hash, a), b) == fnv_fold(hash, a + b),
    decreases b.len(),
{
    if b.len() == 0 {
        assert(a + b =~= a);
    } else {
        lemma_fnv_fold_concat(hash, a, b.drop_last());
        assert((a + b).drop_last() =~= a + b.drop_last());
    }
}

/// Folding in one byte is one step.
pub proof fn lemma_fnv_fold_one(hash: u64, b: u8)
    ensures
        fnv_fold(hash, seq![b]) == fnv_step(hash, b),
{
    assert(seq![b].drop_last() =~= Seq::<u8>::empty());
    reveal_with_fuel(fnv_fold, 2);
}

/// A chainable FNV-1a accumulator.
#[derive(Clone, Copy)]
pub struct Fnv {
    hash: u64,
}

impl View for Fnv {
    type V = u64;

    closed spec fn view(&self) -> u64 {
        self.hash
    }
}

impl Default for Fnv {
    fn default() -> (r: Self)
        ensures
            r@ == FNV_OFFSET,
    {
        Fnv::new()
    }
}

impl Fnv {
    /// A fresh accumulator seeded with the FNV offset basis.
    pub fn new() -> (r: Self)
        ensures
            r@ == FNV_OFFSET,
    {
        Fnv { hash: FNV_OFFSET }
    }

    /// Folds in one byte.
    pub fn byte(self, b: u8) -> (r: Self)
        ensures
            r@ == fnv_step(self@, b),
            r@ == fnv_fold(self@, seq![b]),
    {
        proof {
            lemma_fnv_fold_one(self@, b);
        }
        let mixed: u64 = self.hash ^ (b as u64);
        Fnv { hash: mixed.wrapping_mul(FNV_PRIME) }
    }

    /// Folds in a `u16` (little-endian).
    pub fn u16(self, v: u16) -> (r: Self)
        ensures
            r@ == fnv_fold(self@, le_bytes(v as nat, 2)),
    {
        proof {
            reveal_with_fuel(le_bytes, 3);
            assert(le_bytes(v as nat, 2) =~= seq![(v % 256) as u8] + seq![(v / 256 % 256) as u8]);
            lemma_fnv_fold_concat(self@, seq![(v % 256) as u8], seq![(v / 256 % 256) as u8]);
        }
        self.byte((v % 256) as u8).byte((v / 256) as u8)
    }

    /// Folds in a `u64` (little-endian).
    pub fn u64(self, v: u64) -> (r: Self)
        ensures
            r@ == fnv_fold(self@, le_bytes(v as nat, 8)),
    {
        let mut acc = self;
        let mut rest: u64 = v;
        let mut i: usize = 0;
        while i < 8
            invariant
                i <= 8,
                fnv_fold(self@, le_bytes(v as nat, 8)) == fnv_fold(
                    acc@,
                    le_bytes(rest as nat, (8 - i) as nat),
                ),
            decreases 8 - i,
        {
            proof {
                lemma_fnv_fold_concat(
                    acc@,
                    seq![(rest % 256) as u8],
                    le_bytes((rest / 256) as nat, (7 - i) as nat),
                );
            }
            acc = acc.byte((rest % 256) as u8);
            rest = rest / 256;
            i = i + 1;
        }
        assert(le_bytes(rest as nat, 0) =~= Seq::<u8>::empty());
        acc
    }

    /// Folds in a run of bytes, with no length.
    fn fold_bytes(self, bytes: &[u8]) -> (r: Self)
        ensures
            r@ == fnv_fold(self@, bytes@),
    {
        let mut acc = self;
        let mut i: usize = 0;
        assert(bytes@.take(0) =~= Seq::<u8>::empty());
        while i < bytes.len()
            invariant
                i <= bytes@.len(),
                acc@ == fnv_fold(self@, bytes@.take(i as int)),
            decreases bytes@.len() - i,
        {
            assert(bytes@.take(i + 1).drop_last() =~= bytes@.take(i as int));
            acc = acc.byte(bytes[i]);
            i = i + 1;
        }
        assert(bytes@.take(i as int) =~= bytes@);
        acc
    }

    /// Folds in a length-prefixed string (the length tells `"ab"` then `"c"` from `"a"` then
    /// `"bc"`).
    pub fn str(self, s: &str) -> (r: Self)
        ensures
            r@ == fnv_fold(self@, str_bytes(s@)),
    {
        let bytes = s.as_bytes();
        let len: u16 = (bytes.len() % 0x1_0000) as u16;
        proof {
            lemma_low_half(bytes@.len());
            lemma_fnv_fold_concat(self@, le_bytes(bytes@.len(), 2), bytes@);
        }
        self.u16(len).fold_bytes(bytes)
    }

    /// Folds in an optional string: a presence byte, then the string when present.
    pub fn opt_str(self, s: Option<&str>) -> (r: Self)
        ensures
            r@ == fnv_fold(self@, opt_str_bytes(opt_chars(s))),
    {
        match s {
            Some(s) => {
                proof {
                    lemma_fnv_fold_concat(self@, seq![1u8], str_bytes(s@));
                }
                self.byte(1).str(s)
            },
            None => self.byte(0),
        }
    }

    /// Folds in a field type: its tag plus any inline payload, so a type change forks the id.
    pub fn field_type(self, ty: FieldType) -> (r: Self)
        ensures
            r@ == fnv_fold(self@, ty.wire_bytes()),
    {
        match ty {
            FieldType::U8 => self.byte(0),
            FieldType::U16 => self.byte(1),
            FieldType::U32 => self.byte(2),
            FieldType::U64 => self.byte(3),
            FieldType::I8 => self.byte(4),
            FieldType::I16 => self.byte(5),
            FieldType::I32 => self.byte(6),
            FieldType::I64 => self.byte(7),
            FieldType::Bool => self.byte(8),
            FieldType::Bytes => self.byte(9),
            FieldType::Enum { repr } => {
                proof {
                    assert(seq![10u8, repr] =~= seq![10u8] + seq![repr]);
                    lemma_fnv_fold_concat(self@, seq![10u8], seq![repr]);
                }
                self.byte(10).byte(repr)
            },
            FieldType::Interned { dynamic } => {
                let flag: u8 = if dynamic { 1 } else { 0 };
                proof {
                    assert(seq![11u8, flag] =~= seq![11u8] + seq![flag]);
                    lemma_fnv_fold_concat(self@, seq![11u8], seq![flag]);
                }
                self.byte(11).byte(flag)
            },
        }
    }

    /// The accumulated 64-bit hash.
    pub fn finish(self) -> (h: u64)
        ensures
            h == self@,
    {
        self.hash
    }
}

/// Two bytes hold the low 16 bits of a length.
pub proof fn lemma_low_half(len: nat)
    ensures
        le_bytes(len, 2) == le_bytes(len % 0x1_0000, 2),
{
    reveal_with_fuel(le_bytes, 3);
    assert((len % 0x1_0000) % 256 == len % 256);
    assert(((len % 0x1_0000) / 256) % 256 == (len / 256) % 256);
}

/// A stable, 64-bit identifier for an event type: the join key between a record in the ring and
/// its schema in the dump registry.
#[derive(Clone, Copy, Debug, PartialEq, Eq, Structural, PartialOrd, Ord, Hash)]
pub struct EventId(pub u64);

impl EventId {
    /// The plain FNV-1a hash of a fully-qualified event name (`"namespace::EventName"`), with no
    /// length prefix. Ids over a whole schema come from
    /// [`EventSchema::compute_id`](crate::schema::EventSchema::compute_id).
    pub fn of(name: &str) -> (id: Self)
        ensures
            id.0 == fnv_fold(FNV_OFFSET, encode_utf8(name@)),
    {
        EventId(Fnv::new().fold_bytes(name.as_bytes()).finish())
    }

    /// The raw 64-bit value, as stored in a record and the schema registry.
    pub fn get(self) -> (v: u64)
        ensures
            v == self.0,
    {
        self.0
    }

    /// The id as text: `0x` and sixteen digits.
    pub fn text(self) -> (s: String)
        ensures
            s@ == id_hex(self.0),
    {
        let mut s = String::new();
        push_id(&mut s, self.0);
        assert(s@ =~= id_hex(self.0));
        s
    }
}

/// A 64-bit id as text: `0x` and sixteen digits.
pub open spec fn id_hex(id: u64) -> Seq<char> {
    "0x"@ + hex_text(id as nat, 16)
}

/// Appends a 64-bit id.
pub fn push_id(out: &mut String, id: u64)
    ensures
        final(out)@ == old(out)@ + id_hex(id),
{
    out.append("0x");
    push_hex(out, id, 16);
    assert(out@ =~= old(out)@ + id_hex(id));
}

} // verus!
