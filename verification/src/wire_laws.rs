//! Reading a dump gives back what was written.
//!
//! Each law starts from a value, encodes it as [`crate::wire::DumpWriter`] does, and decodes it as
//! [`crate::wire::DumpReader`] does. The bounds are those of the format: strings, field counts and
//! label counts are framed on two bytes, registries and intern tables on four, sections on two.

use crate::format::{FORMAT_VERSION, LITTLE_ENDIAN, MAGIC};
use crate::id::{opt_str_bytes, str_bytes};
use crate::le::{le_bytes, lemma_le_bytes_len, lemma_le_round_trip, lemma_pow256_values, pow256};
use crate::parse::{
    bodies_of, entry_parser, field_parser, label_parser, p_dump, p_entry, p_field, p_field_type,
    p_intern, p_label, p_labels, p_many, p_meta, p_opt_str, p_opt_u64, p_registry, p_schema,
    p_shard, p_str, p_take, p_u8, p_uint, p_view, schema_parser, table_parser, p_table_entry,
    DumpView, Parsed,
};
use crate::schema::{FieldType, FieldView, LabelView, SchemaView};
use crate::wire::{
    bodies_base, bodies_bytes, bodies_len, dump_bytes, dump_len, entry_bytes, entry_enc,
    field_bytes, field_enc, intern_bytes, label_bytes, label_enc, lemma_assoc, many_bytes,
    meta_bytes, opt_u64_bytes, registry_bytes, schema_bytes, schema_enc, shard_bytes, table_bytes,
    table_entry_bytes, get_schema, put_owned_schema, Cursor, Error, InternView, MetaView, OwnedSchema,
    SectionView, ShardView,
};
use vstd::prelude::*;
use vstd::utf8::{encode_utf8, encode_utf8_decode_utf8, encode_utf8_valid_utf8};

verus! {

/// A string whose length can be framed.
pub open spec fn str_fits(s: Seq<char>) -> bool {
    encode_utf8(s).len() < 0x1_0000
}

/// An optional string whose length can be framed.
pub open spec fn opt_str_fits(s: Option<Seq<char>>) -> bool {
    match s {
        Some(s) => str_fits(s),
        None => true,
    }
}

/// A field whose strings and label count can be framed.
pub open spec fn field_fits(f: FieldView) -> bool {
    &&& str_fits(f.name)
    &&& opt_str_fits(f.description)
    &&& opt_str_fits(f.unit)
    &&& f.labels.len() < 0x1_0000
    &&& forall|i: int| 0 <= i < f.labels.len() ==> str_fits((#[trigger] f.labels[i]).label)
}

/// A schema whose strings and counts can be framed.
pub open spec fn schema_fits(s: SchemaView) -> bool {
    &&& str_fits(s.name)
    &&& opt_str_fits(s.description)
    &&& s.fields.len() < 0x1_0000
    &&& forall|i: int| 0 <= i < s.fields.len() ==> field_fits(#[trigger] s.fields[i])
}

/// A registry whose entries and count can be framed.
pub open spec fn registry_fits(schemas: Seq<SchemaView>) -> bool {
    &&& schemas.len() < 0x1_0000_0000
    &&& forall|i: int| 0 <= i < schemas.len() ==> schema_fits(#[trigger] schemas[i])
}

/// An intern table whose entries and count can be framed.
pub open spec fn intern_fits(t: InternView) -> bool {
    &&& t.entries.len() < 0x1_0000_0000
    &&& forall|i: int| 0 <= i < t.entries.len() ==> (#[trigger] t.entries[i]).1.len() < 0x1_0000_0000
}

/// The leading bytes of `a + rest` are `a`.
proof fn lemma_take_written(a: Seq<u8>, rest: Seq<u8>)
    ensures
        p_take(a + rest, a.len()) == Ok::<(Seq<u8>, Seq<u8>), Error>((a, rest)),
{
    assert((a + rest).take(a.len() as int) =~= a);
    assert((a + rest).skip(a.len() as int) =~= rest);
}

/// A number reads back.
proof fn lemma_uint(v: nat, n: nat, rest: Seq<u8>)
    requires
        v < pow256(n),
    ensures
        p_uint(le_bytes(v, n) + rest, n) == Ok::<(nat, Seq<u8>), Error>((v, rest)),
{
    lemma_le_bytes_len(v, n);
    lemma_le_round_trip(v, n);
    lemma_take_written(le_bytes(v, n), rest);
}

/// A byte reads back.
proof fn lemma_u8(b: u8, rest: Seq<u8>)
    ensures
        p_u8(seq![b] + rest) == Ok::<(u8, Seq<u8>), Error>((b, rest)),
{
    assert((seq![b] + rest).skip(1) =~= rest);
}

/// A string reads back.
proof fn lemma_str(s: Seq<char>, rest: Seq<u8>)
    requires
        str_fits(s),
    ensures
        p_str(str_bytes(s) + rest) == Ok::<(Seq<char>, Seq<u8>), Error>((s, rest)),
{
    let b = encode_utf8(s);
    lemma_pow256_values();
    encode_utf8_valid_utf8(s);
    encode_utf8_decode_utf8(s);
    lemma_assoc(le_bytes(b.len(), 2), b, rest);
    lemma_uint(b.len(), 2, b + rest);
    lemma_take_written(b, rest);
}

/// An optional string reads back.
proof fn lemma_opt_str(s: Option<Seq<char>>, rest: Seq<u8>)
    requires
        opt_str_fits(s),
    ensures
        p_opt_str(opt_str_bytes(s) + rest) == Ok::<(Option<Seq<char>>, Seq<u8>), Error>((s, rest)),
{
    match s {
        Some(t) => {
            lemma_assoc(seq![1u8], str_bytes(t), rest);
            lemma_u8(1, str_bytes(t) + rest);
            lemma_str(t, rest);
        },
        None => {
            lemma_u8(0, rest);
        },
    }
}

/// An optional number reads back.
proof fn lemma_opt_u64(v: Option<u64>, rest: Seq<u8>)
    ensures
        p_opt_u64(opt_u64_bytes(v) + rest) == Ok::<(Option<u64>, Seq<u8>), Error>((v, rest)),
{
    lemma_pow256_values();
    match v {
        Some(x) => {
            lemma_assoc(seq![1u8], le_bytes(x as nat, 8), rest);
            lemma_u8(1, le_bytes(x as nat, 8) + rest);
            lemma_uint(x as nat, 8, rest);
        },
        None => {
            lemma_u8(0, rest);
        },
    }
}

/// A field type reads back.
proof fn lemma_field_type(ty: FieldType, rest: Seq<u8>)
    ensures
        p_field_type(ty.wire_bytes() + rest) == Ok::<(FieldType, Seq<u8>), Error>((ty, rest)),
{
    match ty {
        FieldType::Enum { repr } => {
            assert(ty.wire_bytes() =~= seq![10u8] + seq![repr]);
            lemma_assoc(seq![10u8], seq![repr], rest);
            lemma_u8(10, seq![repr] + rest);
            lemma_u8(repr, rest);
        },
        FieldType::Interned { dynamic } => {
            let flag = if dynamic {
                1u8
            } else {
                0u8
            };
            assert(ty.wire_bytes() =~= seq![11u8] + seq![flag]);
            lemma_assoc(seq![11u8], seq![flag], rest);
            lemma_u8(11, seq![flag] + rest);
            lemma_u8(flag, rest);
        },
        _ => {
            let tag = ty.wire_bytes()[0];
            assert(ty.wire_bytes() =~= seq![tag]);
            lemma_u8(tag, rest);
        },
    }
}

/// A run of values reads back if each of them does.
proof fn lemma_many<T>(
    enc: spec_fn(T) -> Seq<u8>,
    p: spec_fn(Seq<u8>) -> Parsed<T>,
    xs: Seq<T>,
    rest: Seq<u8>,
)
    requires
        forall|i: int, r: Seq<u8>|
            0 <= i < xs.len() ==> #[trigger] p(enc(xs[i]) + r) == Ok::<(T, Seq<u8>), Error>(
                (xs[i], r),
            ),
    ensures
        p_many(p, many_bytes(enc, xs) + rest, xs.len()) == Ok::<(Seq<T>, Seq<u8>), Error>(
            (xs, rest),
        ),
    decreases xs.len(),
{
    if xs.len() == 0 {
        assert(many_bytes(enc, xs) + rest =~= rest);
        assert(xs =~= Seq::<T>::empty());
    } else {
        let init = xs.drop_last();
        let last = xs.last();
        assert forall|i: int, r: Seq<u8>| 0 <= i < init.len() implies #[trigger] p(
            enc(init[i]) + r,
        ) == Ok::<(T, Seq<u8>), Error>((init[i], r)) by {
            assert(init[i] == xs[i]);
        }
        lemma_assoc(many_bytes(enc, init), enc(last), rest);
        lemma_many(enc, p, init, enc(last) + rest);
        assert(last == xs[xs.len() - 1]);
        assert(p(enc(last) + rest) == Ok::<(T, Seq<u8>), Error>((last, rest)));
        assert(init.push(last) =~= xs);
    }
}

/// An enum label reads back.
proof fn lemma_label(l: LabelView, rest: Seq<u8>)
    requires
        str_fits(l.label),
    ensures
        p_label(label_bytes(l) + rest) == Ok::<(LabelView, Seq<u8>), Error>((l, rest)),
{
    lemma_pow256_values();
    lemma_assoc(le_bytes(l.value as nat, 8), str_bytes(l.label), rest);
    lemma_uint(l.value as nat, 8, str_bytes(l.label) + rest);
    lemma_str(l.label, rest);
}

/// A counted run of labels reads back.
proof fn lemma_labels(labels: Seq<LabelView>, rest: Seq<u8>)
    requires
        labels.len() < 0x1_0000,
        forall|i: int| 0 <= i < labels.len() ==> str_fits((#[trigger] labels[i]).label),
    ensures
        p_labels((le_bytes(labels.len(), 2) + many_bytes(label_enc(), labels)) + rest) == Ok::<
            (Seq<LabelView>, Seq<u8>),
            Error,
        >((labels, rest)),
{
    let body = many_bytes(label_enc(), labels);
    lemma_pow256_values();
    lemma_assoc(le_bytes(labels.len(), 2), body, rest);
    lemma_uint(labels.len(), 2, body + rest);
    let enc = label_enc();
    let p = label_parser();
    assert forall|i: int, r: Seq<u8>| 0 <= i < labels.len() implies #[trigger] p(
        enc(labels[i]) + r,
    ) == Ok::<(LabelView, Seq<u8>), Error>((labels[i], r)) by {
        lemma_label(labels[i], r);
    }
    lemma_many(enc, p, labels, rest);
}

/// A field reads back.
pub proof fn lemma_field(f: FieldView, rest: Seq<u8>)
    requires
        field_fits(f),
    ensures
        p_field(field_bytes(f) + rest) == Ok::<(FieldView, Seq<u8>), Error>((f, rest)),
{
    reveal(p_field);
    lemma_pow256_values();
    let p1 = str_bytes(f.name);
    let p2 = opt_str_bytes(f.description);
    let p3 = f.ty.wire_bytes();
    let p4 = le_bytes(f.offset as nat, 2);
    let p5 = le_bytes(f.width as nat, 2);
    let p6 = seq![f.role.tag()];
    let p7 = opt_str_bytes(f.unit);
    let p8 = opt_u64_bytes(f.sentinel);
    let t8 = le_bytes(f.labels.len(), 2) + many_bytes(label_enc(), f.labels);
    let t7 = p8 + t8;
    let t6 = p7 + t7;
    let t5 = p6 + t6;
    let t4 = p5 + t5;
    let t3 = p4 + t4;
    let t2 = p3 + t3;
    let t1 = p2 + t2;
    lemma_assoc(p1, t1, rest);
    lemma_assoc(p2, t2, rest);
    lemma_assoc(p3, t3, rest);
    lemma_assoc(p4, t4, rest);
    lemma_assoc(p5, t5, rest);
    lemma_assoc(p6, t6, rest);
    lemma_assoc(p7, t7, rest);
    lemma_assoc(p8, t8, rest);
    lemma_str(f.name, t1 + rest);
    lemma_opt_str(f.description, t2 + rest);
    lemma_field_type(f.ty, t3 + rest);
    lemma_uint(f.offset as nat, 2, t4 + rest);
    lemma_uint(f.width as nat, 2, t5 + rest);
    lemma_u8(f.role.tag(), t6 + rest);
    lemma_opt_str(f.unit, t7 + rest);
    lemma_opt_u64(f.sentinel, t8 + rest);
    lemma_labels(f.labels, rest);
}

/// Decoding one registry entry gives back the schema that was encoded, whatever follows it.
pub proof fn law_schema_round_trip(s: SchemaView, rest: Seq<u8>)
    requires
        schema_fits(s),
    ensures
        p_schema(schema_bytes(s) + rest) == Ok::<(SchemaView, Seq<u8>), Error>((s, rest)),
{
    reveal(p_schema);
    lemma_pow256_values();
    let p1 = le_bytes(s.id as nat, 8);
    let p2 = str_bytes(s.name);
    let p3 = opt_str_bytes(s.description);
    let p4 = le_bytes(s.record_size as nat, 2);
    let p5 = seq![s.phase.tag()];
    let p6 = le_bytes(s.fields.len(), 2);
    let t6 = many_bytes(field_enc(), s.fields);
    let t5 = p6 + t6;
    let t4 = p5 + t5;
    let t3 = p4 + t4;
    let t2 = p3 + t3;
    let t1 = p2 + t2;
    lemma_assoc(p1, t1, rest);
    lemma_assoc(p2, t2, rest);
    lemma_assoc(p3, t3, rest);
    lemma_assoc(p4, t4, rest);
    lemma_assoc(p5, t5, rest);
    lemma_assoc(p6, t6, rest);
    lemma_uint(s.id as nat, 8, t1 + rest);
    lemma_str(s.name, t2 + rest);
    lemma_opt_str(s.description, t3 + rest);
    lemma_uint(s.record_size as nat, 2, t4 + rest);
    lemma_u8(s.phase.tag(), t5 + rest);
    lemma_uint(s.fields.len(), 2, t6 + rest);
    let enc = field_enc();
    let p = field_parser();
    assert forall|i: int, r: Seq<u8>| 0 <= i < s.fields.len() implies #[trigger] p(
        enc(s.fields[i]) + r,
    ) == Ok::<(FieldView, Seq<u8>), Error>((s.fields[i], r)) by {
        lemma_field(s.fields[i], r);
    }
    lemma_many(enc, p, s.fields, rest);
}

/// A schema that was written reads back whole: `get_schema` on the bytes that `put_owned_schema`
/// appended gives the same schema, and leaves nothing behind.
pub proof fn law_written_schema_reads_back(
    out: &mut Vec<u8>,
    s: &OwnedSchema,
    cur: &mut Cursor,
    r: Result<OwnedSchema, Error>,
)
    requires
        schema_fits(s@),
        old(out)@ == Seq::<u8>::empty(),
        call_ensures(put_owned_schema, (out, s), ()),
        old(cur)@ == final(out)@,
        call_ensures(get_schema, (cur,), r),
    ensures
        r matches Ok(t) && t@ == s@,
        final(cur)@ == Seq::<u8>::empty(),
{
    law_schema_round_trip(s@, Seq::empty());
    assert(old(cur)@ =~= schema_bytes(s@) + Seq::<u8>::empty());
}

/// Decoding a Schema section gives back the registry that was written.
pub proof fn law_registry_round_trip(schemas: Seq<SchemaView>)
    requires
        registry_fits(schemas),
    ensures
        p_registry(registry_bytes(schemas)) == Ok::<Seq<SchemaView>, Error>(schemas),
{
    lemma_pow256_values();
    let body = many_bytes(schema_enc(), schemas);
    lemma_uint(schemas.len(), 4, body);
    let enc = schema_enc();
    let p = schema_parser();
    assert forall|i: int, r: Seq<u8>| 0 <= i < schemas.len() implies #[trigger] p(
        enc(schemas[i]) + r,
    ) == Ok::<(SchemaView, Seq<u8>), Error>((schemas[i], r)) by {
        law_schema_round_trip(schemas[i], r);
    }
    lemma_many(enc, p, schemas, Seq::empty());
    assert(body + Seq::<u8>::empty() =~= body);
}

/// An intern entry reads back.
proof fn lemma_entry(e: (u32, Seq<u8>), rest: Seq<u8>)
    requires
        e.1.len() < 0x1_0000_0000,
    ensures
        p_entry(entry_bytes(e) + rest) == Ok::<((u32, Seq<u8>), Seq<u8>), Error>((e, rest)),
{
    reveal(p_entry);
    lemma_pow256_values();
    lemma_assoc(le_bytes(e.0 as nat, 4), le_bytes(e.1.len(), 4) + e.1, rest);
    lemma_assoc(le_bytes(e.1.len(), 4), e.1, rest);
    lemma_uint(e.0 as nat, 4, le_bytes(e.1.len(), 4) + (e.1 + rest));
    lemma_uint(e.1.len(), 4, e.1 + rest);
    lemma_take_written(e.1, rest);
}

/// Decoding an Intern section gives back the table that was written.
pub proof fn law_intern_round_trip(t: InternView)
    requires
        intern_fits(t),
    ensures
        p_intern(intern_bytes(t)) == Ok::<InternView, Error>(t),
{
    reveal(p_intern);
    lemma_pow256_values();
    let body = many_bytes(entry_enc(), t.entries);
    lemma_uint(t.instance_id as nat, 8, le_bytes(t.entries.len(), 4) + body);
    lemma_uint(t.entries.len(), 4, body);
    let enc = entry_enc();
    let p = entry_parser();
    assert forall|i: int, r: Seq<u8>| 0 <= i < t.entries.len() implies #[trigger] p(
        enc(t.entries[i]) + r,
    ) == Ok::<((u32, Seq<u8>), Seq<u8>), Error>((t.entries[i], r)) by {
        lemma_entry(t.entries[i], r);
    }
    lemma_many(enc, p, t.entries, Seq::empty());
    assert(body + Seq::<u8>::empty() =~= body);
}

/// Decoding a Meta section gives back the metadata that was written.
pub proof fn law_meta_round_trip(m: MetaView)
    requires
        str_fits(m.host),
    ensures
        p_meta(meta_bytes(m)) == Ok::<MetaView, Error>(m),
{
    lemma_pow256_values();
    lemma_uint(m.instance_id as nat, 8, str_bytes(m.host));
    lemma_str(m.host, Seq::empty());
    assert(str_bytes(m.host) + Seq::<u8>::empty() =~= str_bytes(m.host));
}

/// Decoding a Views section gives back the text verbatim.
pub proof fn law_view_round_trip(sql: Seq<char>)
    ensures
        p_view(encode_utf8(sql)) == Ok::<Seq<char>, Error>(sql),
{
    encode_utf8_valid_utf8(sql);
    encode_utf8_decode_utf8(sql);
}

/// Decoding a Shard section gives back the ring that was written.
pub proof fn law_shard_round_trip(instance_id: u64, shard_id: u32, head: u64, region: Seq<u8>)
    requires
        region.len() <= usize::MAX,
    ensures
        p_shard(shard_bytes(instance_id, shard_id, head, region)) == Ok::<ShardView, Error>(
            (ShardView { instance_id, shard_id, head, capacity: region.len() as u64, region }),
        ),
{
    reveal(p_shard);
    lemma_pow256_values();
    let t3 = le_bytes(region.len(), 8) + region;
    let t2 = le_bytes(head as nat, 8) + t3;
    let t1 = le_bytes(shard_id as nat, 4) + t2;
    lemma_uint(instance_id as nat, 8, t1);
    lemma_uint(shard_id as nat, 4, t2);
    lemma_uint(head as nat, 8, t3);
    lemma_uint(region.len(), 8, region);
    assert(region.take(region.len() as int) =~= region);
}

/// The bodies take up as many bytes as their lengths add up to.
pub proof fn lemma_bodies_bytes_len(sections: Seq<SectionView>)
    ensures
        bodies_bytes(sections).len() == bodies_len(sections),
    decreases sections.len(),
{
    if sections.len() > 0 {
        lemma_bodies_bytes_len(sections.drop_last());
    }
}

/// Each body stands among the bodies behind those before it.
proof fn lemma_body_at(sections: Seq<SectionView>, k: int)
    requires
        0 <= k < sections.len(),
    ensures
        bodies_len(sections.take(k)) + sections[k].body.len() <= bodies_bytes(sections).len(),
        bodies_bytes(sections).subrange(
            bodies_len(sections.take(k)) as int,
            (bodies_len(sections.take(k)) + sections[k].body.len()) as int,
        ) == sections[k].body,
    decreases sections.len(),
{
    let init = sections.drop_last();
    lemma_bodies_bytes_len(init);
    lemma_bodies_bytes_len(sections);
    if k == sections.len() - 1 {
        assert(sections.take(k) =~= init);
        assert(bodies_bytes(sections).subrange(
            bodies_len(init) as int,
            (bodies_len(init) + sections[k].body.len()) as int,
        ) =~= sections[k].body);
    } else {
        lemma_body_at(init, k);
        assert(init.take(k) =~= sections.take(k));
        let from = bodies_len(sections.take(k)) as int;
        let to = from + sections[k].body.len();
        assert(bodies_bytes(sections).subrange(from, to) =~= bodies_bytes(init).subrange(from, to));
    }
}

/// A section table takes twenty bytes an entry.
pub proof fn lemma_table_len(sections: Seq<SectionView>, base: nat)
    ensures
        table_bytes(sections, base).len() == 20 * sections.len(),
    decreases sections.len(),
{
    broadcast use lemma_le_bytes_len;

    if sections.len() > 0 {
        lemma_table_len(sections.drop_last(), base);
    }
}

/// A table entry reads back as the section that it describes.
proof fn lemma_table_entry(
    whole: Seq<u8>,
    kind: u16,
    offset: nat,
    body: Seq<u8>,
    rest: Seq<u8>,
)
    requires
        whole.len() <= usize::MAX,
        offset + body.len() <= whole.len(),
        whole.subrange(offset as int, (offset + body.len()) as int) == body,
    ensures
        p_table_entry(whole, table_entry_bytes(kind, offset, body.len()) + rest) == Ok::<
            (SectionView, Seq<u8>),
            Error,
        >((SectionView { kind, body }, rest)),
{
    reveal(p_table_entry);
    lemma_pow256_values();
    let p1 = le_bytes(kind as nat, 2);
    let p2 = le_bytes(0, 2);
    let p3 = le_bytes(offset, 8);
    let p4 = le_bytes(body.len(), 8);
    lemma_assoc(p1, p2 + (p3 + p4), rest);
    lemma_assoc(p2, p3 + p4, rest);
    lemma_assoc(p3, p4, rest);
    lemma_uint(kind as nat, 2, p2 + (p3 + (p4 + rest)));
    lemma_uint(0, 2, p3 + (p4 + rest));
    lemma_uint(offset, 8, p4 + rest);
    lemma_uint(body.len(), 8, rest);
}

/// The first `k` entries of a table read back as the first `k` sections.
proof fn lemma_table(
    whole: Seq<u8>,
    sections: Seq<SectionView>,
    base: nat,
    k: nat,
    rest: Seq<u8>,
)
    requires
        k <= sections.len(),
        whole.len() <= usize::MAX,
        base + bodies_len(sections) == whole.len(),
        whole.skip(base as int) == bodies_bytes(sections),
    ensures
        p_many(
            table_parser(whole),
            table_bytes(sections.take(k as int), base) + rest,
            k,
        ) == Ok::<(Seq<SectionView>, Seq<u8>), Error>((sections.take(k as int), rest)),
    decreases k,
{
    let p = table_parser(whole);
    let first = sections.take(k as int);
    if k == 0 {
        assert(table_bytes(first, base) + rest =~= rest);
        assert(first =~= Seq::<SectionView>::empty());
    } else {
        let init = sections.take(k - 1);
        let last = sections[k - 1];
        assert(first.drop_last() =~= init);
        let at = base + bodies_len(init);
        let entry = table_entry_bytes(last.kind, at, last.body.len());
        lemma_assoc(table_bytes(init, base), entry, rest);
        lemma_table(whole, sections, base, (k - 1) as nat, entry + rest);
        lemma_body_at(sections, k - 1);
        lemma_bodies_bytes_len(sections);
        assert(whole.subrange(at as int, (at + last.body.len()) as int) =~= whole.skip(
            base as int,
        ).subrange(bodies_len(init) as int, (bodies_len(init) + last.body.len()) as int));
        lemma_table_entry(whole, last.kind, at, last.body, rest);
        assert(p(entry + rest) == p_table_entry(whole, entry + rest));
        assert(init.push(last) =~= first);
    }
}

/// A dump is as long as `dump_len` says.
pub proof fn lemma_dump_bytes_len(sections: Seq<SectionView>)
    ensures
        dump_bytes(sections).len() == dump_len(sections),
{
    broadcast use lemma_le_bytes_len;

    lemma_table_len(sections, bodies_base(sections.len()));
    lemma_bodies_bytes_len(sections);
}

/// Reading a written dump gives back its sections, in order, each with its kind and its body.
pub proof fn law_dump_round_trip(sections: Seq<SectionView>)
    requires
        sections.len() < 0x1_0000,
        dump_len(sections) <= usize::MAX,
    ensures
        p_dump(dump_bytes(sections)) == Ok::<DumpView, Error>(
            (DumpView { flags: LITTLE_ENDIAN, sections }),
        ),
{
    broadcast use lemma_le_bytes_len;

    lemma_pow256_values();
    let n = sections.len();
    let base = bodies_base(n);
    let whole = dump_bytes(sections);
    let table = table_bytes(sections, base);
    let bodies = bodies_bytes(sections);
    let t5 = table + bodies;
    let p2 = le_bytes(FORMAT_VERSION as nat, 2);
    let p3 = le_bytes(LITTLE_ENDIAN as nat, 2);
    let p4 = le_bytes(n, 2);
    let p5 = le_bytes(0, 2);
    lemma_dump_bytes_len(sections);
    lemma_table_len(sections, base);
    lemma_assoc(MAGIC@, p2 + (p3 + (p4 + p5)), t5);
    lemma_assoc(p2, p3 + (p4 + p5), t5);
    lemma_assoc(p3, p4 + p5, t5);
    lemma_assoc(p4, p5, t5);
    lemma_take_written(MAGIC@, p2 + (p3 + (p4 + (p5 + t5))));
    lemma_uint(FORMAT_VERSION as nat, 2, p3 + (p4 + (p5 + t5)));
    lemma_uint(LITTLE_ENDIAN as nat, 2, p4 + (p5 + t5));
    lemma_uint(n, 2, p5 + t5);
    lemma_uint(0, 2, t5);
    assert(whole.skip(base as int) =~= bodies);
    assert(sections.take(n as int) =~= sections);
    lemma_table(whole, sections, base, n, bodies);
}

/// A section of another kind, wherever it stands, changes nothing of what is read of one kind; so
/// section kinds that a reader does not know are skipped.
pub proof fn law_other_sections_ignored(
    before: Seq<SectionView>,
    other: SectionView,
    after: Seq<SectionView>,
    kind: u16,
)
    requires
        other.kind != kind,
    ensures
        bodies_of(before.push(other) + after, kind) == bodies_of(before + after, kind),
    decreases after.len(),
{
    if after.len() == 0 {
        assert((before.push(other) + after).drop_last() =~= before);
        assert(before + after =~= before);
        assert((before.push(other) + after).last() == other);
    } else {
        law_other_sections_ignored(before, other, after.drop_last(), kind);
        assert((before.push(other) + after).drop_last() =~= before.push(other) + after.drop_last());
        assert((before + after).drop_last() =~= before + after.drop_last());
    }
}

} // verus!
