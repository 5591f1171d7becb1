//! The decoding of a dump, as functions from bytes to values.
//!
//! A parser takes the bytes that are left and gives what it read together with the bytes that are
//! left after it, or the error that it reports.

use crate::format::{FORMAT_VERSION, MAGIC};
use crate::le::{le_value, lemma_le_value_bound, lemma_pow256_values};
use crate::schema::{FieldRole, FieldType, FieldView, LabelView, Phase, SchemaView};
use crate::wire::{Error, InternView, MetaView, SectionView, ShardView};
use vstd::prelude::*;
use vstd::utf8::{decode_utf8, valid_utf8};

verus! {

/// What a parser gives.
pub type Parsed<T> = Result<(T, Seq<u8>), Error>;

/// The next `n` bytes.
pub open spec fn p_take(s: Seq<u8>, n: nat) -> Parsed<Seq<u8>> {
    if n <= s.len() {
        Ok((s.take(n as int), s.skip(n as int)))
    } else {
        Err(Error::UnexpectedEof)
    }
}

/// A little-endian number on `n` bytes.
pub open spec fn p_uint(s: Seq<u8>, n: nat) -> Parsed<nat> {
    match p_take(s, n) {
        Ok((b, rest)) => Ok((le_value(b), rest)),
        Err(e) => Err(e),
    }
}

/// A byte.
pub open spec fn p_u8(s: Seq<u8>) -> Parsed<u8> {
    if s.len() >= 1 {
        Ok((s[0], s.skip(1)))
    } else {
        Err(Error::UnexpectedEof)
    }
}

/// A length-prefixed string.
pub open spec fn p_str(s: Seq<u8>) -> Parsed<Seq<char>> {
    match p_uint(s, 2) {
        Ok((len, s1)) => match p_take(s1, len) {
            Ok((b, s2)) => if valid_utf8(b) {
                Ok((decode_utf8(b), s2))
            } else {
                Err(Error::InvalidUtf8)
            },
            Err(e) => Err(e),
        },
        Err(e) => Err(e),
    }
}

/// An optional string; any presence byte but zero announces one.
pub open spec fn p_opt_str(s: Seq<u8>) -> Parsed<Option<Seq<char>>> {
    match p_u8(s) {
        Ok((flag, s1)) => if flag == 0 {
            Ok((None, s1))
        } else {
            match p_str(s1) {
                Ok((v, s2)) => Ok((Some(v), s2)),
                Err(e) => Err(e),
            }
        },
        Err(e) => Err(e),
    }
}

/// An optional number.
pub open spec fn p_opt_u64(s: Seq<u8>) -> Parsed<Option<u64>> {
    match p_u8(s) {
        Ok((flag, s1)) => if flag == 0 {
            Ok((None, s1))
        } else {
            match p_uint(s1, 8) {
                Ok((v, s2)) => Ok((Some(v as u64), s2)),
                Err(e) => Err(e),
            }
        },
        Err(e) => Err(e),
    }
}

/// The role of a tag byte; an unknown tag is an ordinary field.
pub open spec fn role_of(tag: u8) -> FieldRole {
    if tag == 1 {
        FieldRole::Key
    } else if tag == 2 {
        FieldRole::SpanId
    } else if tag == 3 {
        FieldRole::ParentSpanId
    } else {
        FieldRole::Plain
    }
}

/// The phase of a tag byte; an unknown tag is an instantaneous event.
pub open spec fn phase_of(tag: u8) -> Phase {
    if tag == 1 {
        Phase::Enter
    } else if tag == 2 {
        Phase::Exit
    } else {
        Phase::Instant
    }
}

/// A field role.
pub open spec fn p_role(s: Seq<u8>) -> Parsed<FieldRole> {
    match p_u8(s) {
        Ok((tag, rest)) => Ok((role_of(tag), rest)),
        Err(e) => Err(e),
    }
}

/// A span phase.
pub open spec fn p_phase(s: Seq<u8>) -> Parsed<Phase> {
    match p_u8(s) {
        Ok((tag, rest)) => Ok((phase_of(tag), rest)),
        Err(e) => Err(e),
    }
}

/// The field type of a tag without a payload.
pub open spec fn simple_type(tag: u8) -> FieldType
    recommends
        tag < 10,
{
    if tag == 0 {
        FieldType::U8
    } else if tag == 1 {
        FieldType::U16
    } else if tag == 2 {
        FieldType::U32
    } else if tag == 3 {
        FieldType::U64
    } else if tag == 4 {
        FieldType::I8
    } else if tag == 5 {
        FieldType::I16
    } else if tag == 6 {
        FieldType::I32
    } else if tag == 7 {
        FieldType::I64
    } else if tag == 8 {
        FieldType::Bool
    } else {
        FieldType::Bytes
    }
}

/// A field type: a tag byte, and one more byte for enums and interned values.
pub open spec fn p_field_type(s: Seq<u8>) -> Parsed<FieldType> {
    match p_u8(s) {
        Ok((tag, s1)) => if tag < 10 {
            Ok((simple_type(tag), s1))
        } else if tag > 11 {
            Err(Error::BadTag(tag))
        } else {
            match p_u8(s1) {
                Ok((b, s2)) => if tag == 10 {
                    Ok((FieldType::Enum { repr: b }, s2))
                } else {
                    Ok((FieldType::Interned { dynamic: b != 0 }, s2))
                },
                Err(e) => Err(e),
            }
        },
        Err(e) => Err(e),
    }
}

/// `n` values, each read by `p`, one after the other.
pub open spec fn p_many<T>(p: spec_fn(Seq<u8>) -> Parsed<T>, s: Seq<u8>, n: nat) -> Parsed<Seq<T>>
    decreases n,
{
    if n == 0 {
        Ok((Seq::empty(), s))
    } else {
        match p_many(p, s, (n - 1) as nat) {
            Ok((xs, s1)) => match p(s1) {
                Ok((x, s2)) => Ok((xs.push(x), s2)),
                Err(e) => Err(e),
            },
            Err(e) => Err(e),
        }
    }
}

/// An enum label.
pub open spec fn p_label(s: Seq<u8>) -> Parsed<LabelView> {
    match p_uint(s, 8) {
        Ok((value, s1)) => match p_str(s1) {
            Ok((label, s2)) => Ok((LabelView { value: value as u64, label }, s2)),
            Err(e) => Err(e),
        },
        Err(e) => Err(e),
    }
}

/// The parser of enum labels.
pub open spec fn label_parser() -> spec_fn(Seq<u8>) -> Parsed<LabelView> {
    |s: Seq<u8>| p_label(s)
}

/// A run of enum labels with its count.
pub open spec fn p_labels(s: Seq<u8>) -> Parsed<Seq<LabelView>> {
    match p_uint(s, 2) {
        Ok((n, s1)) => p_many(label_parser(), s1, n),
        Err(e) => Err(e),
    }
}

/// A field of a registry entry.
#[verifier::opaque]
pub open spec fn p_field(s: Seq<u8>) -> Parsed<FieldView> {
    match p_str(s) {
        Ok((name, s1)) => match p_opt_str(s1) {
            Ok((description, s2)) => match p_field_type(s2) {
                Ok((ty, s3)) => match p_uint(s3, 2) {
                    Ok((offset, s4)) => match p_uint(s4, 2) {
                        Ok((width, s5)) => match p_role(s5) {
                            Ok((role, s6)) => match p_opt_str(s6) {
                                Ok((unit, s7)) => match p_opt_u64(s7) {
                                    Ok((sentinel, s8)) => match p_labels(s8) {
                                        Ok((labels, s9)) => Ok(
                                            (
                                                FieldView {
                                                    name,
                                                    description,
                                                    ty,
                                                    offset: offset as u16,
                                                    width: width as u16,
                                                    role,
                                                    unit,
                                                    sentinel,
                                                    labels,
                                                },
                                                s9,
                                            ),
                                        ),
                                        Err(e) => Err(e),
                                    },
                                    Err(e) => Err(e),
                                },
                                Err(e) => Err(e),
                            },
                            Err(e) => Err(e),
                        },
                        Err(e) => Err(e),
                    },
                    Err(e) => Err(e),
                },
                Err(e) => Err(e),
            },
            Err(e) => Err(e),
        },
        Err(e) => Err(e),
    }
}

/// The parser of fields.
pub open spec fn field_parser() -> spec_fn(Seq<u8>) -> Parsed<FieldView> {
    |s: Seq<u8>| p_field(s)
}

/// A run of fields with its count.
pub open spec fn p_fields(s: Seq<u8>) -> Parsed<Seq<FieldView>> {
    match p_uint(s, 2) {
        Ok((n, s1)) => p_many(field_parser(), s1, n),
        Err(e) => Err(e),
    }
}

/// A registry entry.
#[verifier::opaque]
pub open spec fn p_schema(s: Seq<u8>) -> Parsed<SchemaView> {
    match p_uint(s, 8) {
        Ok((id, s1)) => match p_str(s1) {
            Ok((name, s2)) => match p_opt_str(s2) {
                Ok((description, s3)) => match p_uint(s3, 2) {
                    Ok((record_size, s4)) => match p_phase(s4) {
                        Ok((phase, s5)) => match p_fields(s5) {
                            Ok((fields, s6)) => Ok(
                                (
                                    SchemaView {
                                        id: id as u64,
                                        name,
                                        description,
                                        record_size: record_size as u16,
                                        phase,
                                        fields,
                                    },
                                    s6,
                                ),
                            ),
                            Err(e) => Err(e),
                        },
                        Err(e) => Err(e),
                    },
                    Err(e) => Err(e),
                },
                Err(e) => Err(e),
            },
            Err(e) => Err(e),
        },
        Err(e) => Err(e),
    }
}

/// The parser of registry entries.
pub open spec fn schema_parser() -> spec_fn(Seq<u8>) -> Parsed<SchemaView> {
    |s: Seq<u8>| p_schema(s)
}

/// The body of a Schema section; bytes after the last entry are ignored.
pub open spec fn p_registry(body: Seq<u8>) -> Result<Seq<SchemaView>, Error> {
    match p_uint(body, 4) {
        Ok((n, s1)) => match p_many(schema_parser(), s1, n) {
            Ok((schemas, _)) => Ok(schemas),
            Err(e) => Err(e),
        },
        Err(e) => Err(e),
    }
}

/// An entry of an intern table.
#[verifier::opaque]
pub open spec fn p_entry(s: Seq<u8>) -> Parsed<(u32, Seq<u8>)> {
    match p_uint(s, 4) {
        Ok((id, s1)) => match p_uint(s1, 4) {
            Ok((len, s2)) => match p_take(s2, len) {
                Ok((b, s3)) => Ok(((id as u32, b), s3)),
                Err(e) => Err(e),
            },
            Err(e) => Err(e),
        },
        Err(e) => Err(e),
    }
}

/// The parser of intern entries.
pub open spec fn entry_parser() -> spec_fn(Seq<u8>) -> Parsed<(u32, Seq<u8>)> {
    |s: Seq<u8>| p_entry(s)
}

/// The body of an Intern section.
#[verifier::opaque]
pub open spec fn p_intern(body: Seq<u8>) -> Result<InternView, Error> {
    match p_uint(body, 8) {
        Ok((instance_id, s1)) => match p_uint(s1, 4) {
            Ok((n, s2)) => match p_many(entry_parser(), s2, n) {
                Ok((entries, _)) => Ok(InternView { instance_id: instance_id as u64, entries }),
                Err(e) => Err(e),
            },
            Err(e) => Err(e),
        },
        Err(e) => Err(e),
    }
}

/// The body of a Meta section.
pub open spec fn p_meta(body: Seq<u8>) -> Result<MetaView, Error> {
    match p_uint(body, 8) {
        Ok((instance_id, s1)) => match p_str(s1) {
            Ok((host, _)) => Ok(MetaView { instance_id: instance_id as u64, host }),
            Err(e) => Err(e),
        },
        Err(e) => Err(e),
    }
}

/// The body of a Views section: the whole body is the text.
pub open spec fn p_view(body: Seq<u8>) -> Result<Seq<char>, Error> {
    if valid_utf8(body) {
        Ok(decode_utf8(body))
    } else {
        Err(Error::InvalidUtf8)
    }
}

/// The body of a Shard section. The region is the `capacity` bytes after the prefix; the capacity
/// is taken as an index of this machine.
#[verifier::opaque]
pub open spec fn p_shard(body: Seq<u8>) -> Result<ShardView, Error> {
    match p_uint(body, 8) {
        Ok((instance_id, s1)) => match p_uint(s1, 4) {
            Ok((shard_id, s2)) => match p_uint(s2, 8) {
                Ok((head, s3)) => match p_uint(s3, 8) {
                    Ok((cap, s4)) => {
                        let capacity = (cap as u64) as usize;
                        if capacity <= s4.len() {
                            Ok(
                                ShardView {
                                    instance_id: instance_id as u64,
                                    shard_id: shard_id as u32,
                                    head: head as u64,
                                    capacity: capacity as u64,
                                    region: s4.take(capacity as int),
                                },
                            )
                        } else {
                            Err(Error::SectionOutOfBounds)
                        }
                    },
                    Err(e) => Err(e),
                },
                Err(e) => Err(e),
            },
            Err(e) => Err(e),
        },
        Err(e) => Err(e),
    }
}

/// The first error of a run of results, or all their values.
pub open spec fn all_ok<T>(rs: Seq<Result<T, Error>>) -> Result<Seq<T>, Error>
    decreases rs.len(),
{
    if rs.len() == 0 {
        Ok(Seq::empty())
    } else {
        match all_ok(rs.drop_last()) {
            Ok(xs) => match rs.last() {
                Ok(x) => Ok(xs.push(x)),
                Err(e) => Err(e),
            },
            Err(e) => Err(e),
        }
    }
}

/// A parsed envelope: the flag bits and the sections, each with its kind number and its body.
#[verifier::ext_equal]
pub struct DumpView {
    pub flags: u16,
    pub sections: Seq<SectionView>,
}

/// One entry of the section table of the dump `whole`; its body must lie within the file.
#[verifier::opaque]
pub open spec fn p_table_entry(whole: Seq<u8>, s: Seq<u8>) -> Parsed<SectionView> {
    match p_uint(s, 2) {
        Ok((kind, s1)) => match p_uint(s1, 2) {
            Ok((_, s2)) => match p_uint(s2, 8) {
                Ok((off, s3)) => match p_uint(s3, 8) {
                    Ok((len, s4)) => {
                        let offset = (off as u64) as usize;
                        let length = (len as u64) as usize;
                        if offset + length <= whole.len() {
                            Ok(
                                (
                                    SectionView {
                                        kind: kind as u16,
                                        body: whole.subrange(offset as int, offset + length),
                                    },
                                    s4,
                                ),
                            )
                        } else {
                            Err(Error::SectionOutOfBounds)
                        }
                    },
                    Err(e) => Err(e),
                },
                Err(e) => Err(e),
            },
            Err(e) => Err(e),
        },
        Err(e) => Err(e),
    }
}

/// The parser of the section table of the dump `whole`.
pub open spec fn table_parser(whole: Seq<u8>) -> spec_fn(Seq<u8>) -> Parsed<SectionView> {
    |s: Seq<u8>| p_table_entry(whole, s)
}

/// A whole dump: magic, version, flags, section count, reserved, section table.
pub open spec fn p_dump(whole: Seq<u8>) -> Result<DumpView, Error> {
    match p_take(whole, 8) {
        Ok((magic, s1)) => if magic != MAGIC@ {
            Err(Error::BadMagic)
        } else {
            match p_uint(s1, 2) {
                Ok((version, s2)) => if version != FORMAT_VERSION {
                    Err(Error::UnsupportedVersion(version as u16))
                } else {
                    match p_uint(s2, 2) {
                        Ok((flags, s3)) => match p_uint(s3, 2) {
                            Ok((count, s4)) => match p_uint(s4, 2) {
                                Ok((_, s5)) => match p_many(table_parser(whole), s5, count) {
                                    Ok((sections, _)) => Ok(
                                        DumpView { flags: flags as u16, sections },
                                    ),
                                    Err(e) => Err(e),
                                },
                                Err(e) => Err(e),
                            },
                            Err(e) => Err(e),
                        },
                        Err(e) => Err(e),
                    }
                },
                Err(e) => Err(e),
            }
        },
        Err(e) => Err(e),
    }
}

/// The bodies of the sections of one kind, in file order.
pub open spec fn bodies_of(sections: Seq<SectionView>, kind: u16) -> Seq<Seq<u8>>
    decreases sections.len(),
{
    if sections.len() == 0 {
        Seq::empty()
    } else if sections.last().kind == kind {
        bodies_of(sections.drop_last(), kind).push(sections.last().body)
    } else {
        bodies_of(sections.drop_last(), kind)
    }
}

/// Every body of one kind, each decoded by `p`: all the values, or the first error.
pub open spec fn decode_all<T>(
    sections: Seq<SectionView>,
    kind: u16,
    p: spec_fn(Seq<u8>) -> Result<T, Error>,
) -> Result<Seq<T>, Error> {
    all_ok(bodies_of(sections, kind).map_values(p))
}

/// The registry of a dump: that of its first Schema section, or nothing.
pub open spec fn dump_schemas(sections: Seq<SectionView>) -> Result<Seq<SchemaView>, Error> {
    let bodies = bodies_of(sections, 0);
    if bodies.len() == 0 {
        Ok(Seq::empty())
    } else {
        p_registry(bodies[0])
    }
}

/// The intern tables of a dump.
pub open spec fn dump_interns(sections: Seq<SectionView>) -> Result<Seq<InternView>, Error> {
    decode_all(sections, 1, |b: Seq<u8>| p_intern(b))
}

/// The shards of a dump.
pub open spec fn dump_shards(sections: Seq<SectionView>) -> Result<Seq<ShardView>, Error> {
    decode_all(sections, 2, |b: Seq<u8>| p_shard(b))
}

/// The metadata of a dump.
pub open spec fn dump_metas(sections: Seq<SectionView>) -> Result<Seq<MetaView>, Error> {
    decode_all(sections, 3, |b: Seq<u8>| p_meta(b))
}

/// The view sets of a dump.
pub open spec fn dump_views(sections: Seq<SectionView>) -> Result<Seq<Seq<char>>, Error> {
    decode_all(sections, 4, |b: Seq<u8>| p_view(b))
}

/// Once a run of values fails at one of them, reading more of them fails the same way.
pub proof fn lemma_many_error<T>(p: spec_fn(Seq<u8>) -> Parsed<T>, s: Seq<u8>, i: nat, n: nat)
    requires
        i <= n,
        p_many(p, s, i) is Err,
    ensures
        p_many(p, s, n) == p_many(p, s, i),
    decreases n,
{
    if i < n {
        lemma_many_error(p, s, i, (n - 1) as nat);
    }
}

/// Once a run of results holds an error, a longer run reports the same error.
pub proof fn lemma_all_ok_error<T>(rs: Seq<Result<T, Error>>, i: int)
    requires
        0 <= i <= rs.len(),
        all_ok(rs.take(i)) is Err,
    ensures
        all_ok(rs) == all_ok(rs.take(i)),
    decreases rs.len(),
{
    if i < rs.len() {
        assert(rs.drop_last().take(i) =~= rs.take(i));
        lemma_all_ok_error(rs.drop_last(), i);
    } else {
        assert(rs.take(i) =~= rs);
    }
}

/// A run of `n` values holds `n` values.
pub proof fn lemma_many_len<T>(p: spec_fn(Seq<u8>) -> Parsed<T>, s: Seq<u8>, n: nat)
    ensures
        p_many(p, s, n) matches Ok((xs, _)) ==> xs.len() == n,
    decreases n,
{
    if n > 0 {
        lemma_many_len(p, s, (n - 1) as nat);
    }
}

/// A registry holds fewer schemas than its four-byte count can say.
pub proof fn lemma_schemas_len(sections: Seq<SectionView>)
    ensures
        dump_schemas(sections) matches Ok(v) ==> v.len() < 0x1_0000_0000,
{
    let bodies = bodies_of(sections, 0);
    if bodies.len() > 0 {
        if let Ok((n, s1)) = p_uint(bodies[0], 4) {
            lemma_many_len(schema_parser(), s1, n);
            lemma_le_value_bound(bodies[0].take(4));
            lemma_pow256_values();
        }
    }
}

/// Every value of a run of results comes from the result at its place.
pub proof fn lemma_all_ok_items<T>(rs: Seq<Result<T, Error>>)
    ensures
        all_ok(rs) matches Ok(xs) ==> xs.len() == rs.len() && forall|i: int|
            0 <= i < rs.len() ==> rs[i] == Ok::<T, Error>(#[trigger] xs[i]),
    decreases rs.len(),
{
    if rs.len() > 0 {
        lemma_all_ok_items(rs.drop_last());
        if let Ok(xs) = all_ok(rs) {
            assert forall|i: int| 0 <= i < rs.len() implies rs[i] == Ok::<T, Error>(
                #[trigger] xs[i],
            ) by {
                if i < rs.len() - 1 {
                    assert(rs.drop_last()[i] == rs[i]);
                }
            }
        }
    }
}

/// Every decoded shard's region is as long as its capacity, which this machine can index.
pub proof fn lemma_shards_regions(sections: Seq<SectionView>)
    ensures
        dump_shards(sections) matches Ok(v) ==> forall|i: int|
            0 <= i < v.len() ==> (#[trigger] v[i]).region.len() == v[i].capacity && v[i].capacity
                <= usize::MAX,
{
    reveal(p_shard);
    let p = |b: Seq<u8>| p_shard(b);
    let rs = bodies_of(sections, 2).map_values(p);
    lemma_all_ok_items(rs);
    if let Ok(v) = dump_shards(sections) {
        assert forall|i: int| 0 <= i < v.len() implies (#[trigger] v[i]).region.len()
            == v[i].capacity && v[i].capacity <= usize::MAX by {
            assert(rs[i] == p_shard(bodies_of(sections, 2)[i]));
        }
    }
}

} // verus!
