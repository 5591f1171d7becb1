//! Where in a file each thing stands.

use crate::buf::bytes_of;
use crate::id::{opt_str_bytes, str_bytes};
use crate::le::{le_bytes, le_value, lemma_le_bytes_len, pow256};
use crate::record::record_bytes;
use crate::schema::{FieldView, LabelView, SchemaView};
use crate::text::stands_at;
use crate::wire::{
    bodies_base, bodies_bytes, bodies_len, dump_bytes, entry_bytes, entry_enc, field_bytes,
    field_enc, header_bytes, intern_bytes, label_bytes, label_enc, many_bytes, meta_bytes,
    opt_u64_bytes, registry_bytes, schema_bytes, schema_enc, shard_bytes, table_bytes,
    table_entry_bytes, DumpReader, Error, InternView, MetaView, SectionView,
};
use bytes::Bytes;
use vstd::prelude::*;
use vstd::utf8::encode_utf8;

verus! {

/// What comes first stands first.
proof fn lemma_first(a: Seq<u8>, rest: Seq<u8>)
    ensures
        stands_at(a + rest, a, 0),
{
    assert((a + rest).subrange(0, a.len() as int) =~= a);
}

/// What stands somewhere stands as much later with something before it.
proof fn lemma_later(a: Seq<u8>, rest: Seq<u8>, part: Seq<u8>, i: int)
    requires
        stands_at(rest, part, i),
    ensures
        stands_at(a + rest, part, a.len() + i),
{
    let all = a + rest;
    let j = a.len() + i;
    assert(all.subrange(j, j + part.len()) =~= rest.subrange(i, i + part.len()));
}

/// What stands somewhere stands there with something behind it.
proof fn lemma_more(text: Seq<u8>, more: Seq<u8>, part: Seq<u8>, i: int)
    requires
        stands_at(text, part, i),
    ensures
        stands_at(text + more, part, i),
{
    assert((text + more).subrange(i, i + part.len()) =~= text.subrange(i, i + part.len()));
}

/// A text stands in itself.
proof fn lemma_whole(part: Seq<u8>)
    ensures
        stands_at(part, part, 0),
{
    assert(part.subrange(0, part.len() as int) =~= part);
}

/// Numbers are written with their least significant byte first.
pub proof fn law_least_byte_first(v: nat, n: nat, i: nat)
    requires
        i < n,
    ensures
        le_bytes(v, n).len() == n,
        le_bytes(v, n)[i as int] == (v / pow256(i)) % 256,
        pow256(i) > 0,
    decreases n,
{
    lemma_le_bytes_len(v, n);
    if i > 0 {
        let m = (i - 1) as nat;
        law_least_byte_first(v / 256, (n - 1) as nat, m);
        assert(le_bytes(v, n)[i as int] == le_bytes(v / 256, (n - 1) as nat)[m as int]);
        vstd::arithmetic::div_mod::lemma_div_denominator(v as int, 256, pow256(m) as int);
    } else {
        assert(v / 1 == v);
    }
}

/// A string is its length in bytes on two bytes, then its bytes.
pub proof fn law_string_layout(s: Seq<char>)
    ensures
        stands_at(str_bytes(s), le_bytes(encode_utf8(s).len(), 2), 0),
        stands_at(str_bytes(s), encode_utf8(s), 2),
        str_bytes(s).len() == 2 + encode_utf8(s).len(),
{
    let b = encode_utf8(s);
    lemma_le_bytes_len(b.len(), 2);
    lemma_first(le_bytes(b.len(), 2), b);
    lemma_whole(b);
    lemma_later(le_bytes(b.len(), 2), b, b, 0);
}

/// A record is its time on eight bytes, its event's id on eight, then its fields.
pub proof fn law_record_layout(ts_nanos: u64, event_id: u64, fields: Seq<u8>)
    ensures
        stands_at(record_bytes(ts_nanos, event_id, fields), le_bytes(ts_nanos as nat, 8), 0),
        stands_at(record_bytes(ts_nanos, event_id, fields), le_bytes(event_id as nat, 8), 8),
        stands_at(record_bytes(ts_nanos, event_id, fields), fields, 16),
        record_bytes(ts_nanos, event_id, fields).len() == 16 + fields.len(),
{
    let a = le_bytes(ts_nanos as nat, 8);
    let b = le_bytes(event_id as nat, 8);
    lemma_le_bytes_len(ts_nanos as nat, 8);
    lemma_le_bytes_len(event_id as nat, 8);
    lemma_first(a, b);
    lemma_more(a + b, fields, a, 0);
    lemma_whole(b);
    lemma_later(a, b, b, 0);
    lemma_more(a + b, fields, b, 8);
    lemma_whole(fields);
    lemma_later(a + b, fields, fields, 0);
}

/// A shard is its instance on eight bytes, its id on four, the ring's head on eight, its capacity on
/// eight, then its region.
pub proof fn law_shard_layout(instance_id: u64, shard_id: u32, head: u64, region: Seq<u8>)
    ensures
        ({
            let b = shard_bytes(instance_id, shard_id, head, region);
            &&& stands_at(b, le_bytes(instance_id as nat, 8), 0)
            &&& stands_at(b, le_bytes(shard_id as nat, 4), 8)
            &&& stands_at(b, le_bytes(head as nat, 8), 12)
            &&& stands_at(b, le_bytes(region.len(), 8), 20)
            &&& stands_at(b, region, 28)
            &&& b.len() == 28 + region.len()
        }),
{
    let p1 = le_bytes(instance_id as nat, 8);
    let p2 = le_bytes(shard_id as nat, 4);
    let p3 = le_bytes(head as nat, 8);
    let p4 = le_bytes(region.len(), 8);
    lemma_le_bytes_len(instance_id as nat, 8);
    lemma_le_bytes_len(shard_id as nat, 4);
    lemma_le_bytes_len(head as nat, 8);
    lemma_le_bytes_len(region.len(), 8);
    let t4 = p4 + region;
    let t3 = p3 + t4;
    let t2 = p2 + t3;
    lemma_first(p1, t2);
    lemma_first(p2, t3);
    lemma_later(p1, t2, p2, 0);
    lemma_first(p3, t4);
    lemma_later(p2, t3, p3, 0);
    lemma_later(p1, t2, p3, 4);
    lemma_first(p4, region);
    lemma_later(p3, t4, p4, 0);
    lemma_later(p2, t3, p4, 8);
    lemma_later(p1, t2, p4, 12);
    lemma_whole(region);
    lemma_later(p4, region, region, 0);
    lemma_later(p3, t4, region, 8);
    lemma_later(p2, t3, region, 16);
    lemma_later(p1, t2, region, 20);
}

/// Metadata is the instance on eight bytes, then the host label.
pub proof fn law_meta_layout(m: MetaView)
    ensures
        stands_at(meta_bytes(m), le_bytes(m.instance_id as nat, 8), 0),
        stands_at(meta_bytes(m), str_bytes(m.host), 8),
        meta_bytes(m).len() == 8 + str_bytes(m.host).len(),
{
    let a = le_bytes(m.instance_id as nat, 8);
    lemma_le_bytes_len(m.instance_id as nat, 8);
    lemma_first(a, str_bytes(m.host));
    lemma_whole(str_bytes(m.host));
    lemma_later(a, str_bytes(m.host), str_bytes(m.host), 0);
}

/// A table of strings is the instance on eight bytes, the number of entries on four, then the entries;
/// each is its id on four bytes, the length of its string on four, then the string.
pub proof fn law_intern_layout(t: InternView, e: (u32, Seq<u8>))
    ensures
        stands_at(intern_bytes(t), le_bytes(t.instance_id as nat, 8), 0),
        stands_at(intern_bytes(t), le_bytes(t.entries.len(), 4), 8),
        stands_at(entry_bytes(e), le_bytes(e.0 as nat, 4), 0),
        stands_at(entry_bytes(e), le_bytes(e.1.len(), 4), 4),
        stands_at(entry_bytes(e), e.1, 8),
        entry_bytes(e).len() == 8 + e.1.len(),
{
    let a = le_bytes(t.instance_id as nat, 8);
    let b = le_bytes(t.entries.len(), 4);
    let rest = many_bytes(entry_enc(), t.entries);
    lemma_le_bytes_len(t.instance_id as nat, 8);
    lemma_le_bytes_len(t.entries.len(), 4);
    lemma_first(a, b + rest);
    lemma_first(b, rest);
    lemma_later(a, b + rest, b, 0);
    let c = le_bytes(e.0 as nat, 4);
    let d = le_bytes(e.1.len(), 4);
    lemma_le_bytes_len(e.0 as nat, 4);
    lemma_le_bytes_len(e.1.len(), 4);
    lemma_first(c, d + e.1);
    lemma_first(d, e.1);
    lemma_later(c, d + e.1, d, 0);
    lemma_whole(e.1);
    lemma_later(d, e.1, e.1, 0);
    lemma_later(c, d + e.1, e.1, 4);
}

/// An event type is its id on eight bytes and its name; behind its description come the size of its
/// records on two bytes, its phase on one, and the number of its fields on two. A registry begins with
/// the number of its event types on four bytes.
pub proof fn law_schema_layout(s: SchemaView, schemas: Seq<SchemaView>)
    ensures
        stands_at(registry_bytes(schemas), le_bytes(schemas.len(), 4), 0),
        stands_at(schema_bytes(s), le_bytes(s.id as nat, 8), 0),
        stands_at(schema_bytes(s), str_bytes(s.name), 8),
        ({
            let i = 8 + str_bytes(s.name).len() as int;
            let j = i + opt_str_bytes(s.description).len();
            &&& stands_at(schema_bytes(s), opt_str_bytes(s.description), i)
            &&& stands_at(schema_bytes(s), le_bytes(s.record_size as nat, 2), j)
            &&& stands_at(schema_bytes(s), seq![s.phase.tag()], j + 2)
            &&& stands_at(schema_bytes(s), le_bytes(s.fields.len(), 2), j + 3)
        }),
{
    let p1 = le_bytes(s.id as nat, 8);
    let p2 = str_bytes(s.name);
    let p3 = opt_str_bytes(s.description);
    let p4 = le_bytes(s.record_size as nat, 2);
    let p5 = seq![s.phase.tag()];
    let p6 = le_bytes(s.fields.len(), 2);
    let rest = many_bytes(field_enc(), s.fields);
    lemma_le_bytes_len(s.id as nat, 8);
    lemma_le_bytes_len(s.record_size as nat, 2);
    lemma_le_bytes_len(s.fields.len(), 2);
    lemma_first(
        le_bytes(schemas.len(), 4),
        many_bytes(schema_enc(), schemas),
    );
    let t6 = p6 + rest;
    let t5 = p5 + t6;
    let t4 = p4 + t5;
    let t3 = p3 + t4;
    let t2 = p2 + t3;
    lemma_first(p1, t2);
    lemma_first(p2, t3);
    lemma_later(p1, t2, p2, 0);
    let i = p2.len() as int;
    let j = i + p3.len();
    lemma_first(p3, t4);
    lemma_later(p2, t3, p3, 0);
    lemma_later(p1, t2, p3, i);
    lemma_first(p4, t5);
    lemma_later(p3, t4, p4, 0);
    lemma_later(p2, t3, p4, p3.len() as int);
    lemma_later(p1, t2, p4, j);
    lemma_first(p5, t6);
    lemma_later(p4, t5, p5, 0);
    lemma_later(p3, t4, p5, 2);
    lemma_later(p2, t3, p5, p3.len() as int + 2);
    lemma_later(p1, t2, p5, j + 2);
    lemma_first(p6, rest);
    lemma_later(p5, t6, p6, 0);
    lemma_later(p4, t5, p6, 1);
    lemma_later(p3, t4, p6, 3);
    lemma_later(p2, t3, p6, p3.len() as int + 3);
    lemma_later(p1, t2, p6, j + 3);
}

/// What stands behind something and before the rest.
proof fn lemma_after(before: Seq<u8>, part: Seq<u8>, rest: Seq<u8>)
    ensures
        stands_at(before + (part + rest), part, before.len() as int),
        before + (part + rest) == before + part + rest,
{
    lemma_first(part, rest);
    lemma_later(before, part + rest, part, 0);
    assert(before + (part + rest) =~= before + part + rest);
}

/// A field is its name, its description, its type, its offset and its width on two bytes each, its
/// role on one, its unit, its "absent" marker, and the number of its labels on two bytes, one behind
/// the other; its labels follow. A label is its value on eight bytes, then its text.
pub proof fn law_field_layout(f: FieldView, l: LabelView)
    ensures
        ({
            let b = field_bytes(f);
            let i1 = str_bytes(f.name).len() as int;
            let i2 = i1 + opt_str_bytes(f.description).len();
            let i3 = i2 + f.ty.wire_bytes().len();
            let i7 = i3 + 5 + opt_str_bytes(f.unit).len();
            let i8 = i7 + opt_u64_bytes(f.sentinel).len();
            &&& stands_at(b, str_bytes(f.name), 0)
            &&& stands_at(b, opt_str_bytes(f.description), i1)
            &&& stands_at(b, f.ty.wire_bytes(), i2)
            &&& stands_at(b, le_bytes(f.offset as nat, 2), i3)
            &&& stands_at(b, le_bytes(f.width as nat, 2), i3 + 2)
            &&& stands_at(b, seq![f.role.tag()], i3 + 4)
            &&& stands_at(b, opt_str_bytes(f.unit), i3 + 5)
            &&& stands_at(b, opt_u64_bytes(f.sentinel), i7)
            &&& stands_at(b, le_bytes(f.labels.len(), 2), i8)
        }),
        stands_at(label_bytes(l), le_bytes(l.value as nat, 8), 0),
        stands_at(label_bytes(l), str_bytes(l.label), 8),
{
    let p1 = str_bytes(f.name);
    let p2 = opt_str_bytes(f.description);
    let p3 = f.ty.wire_bytes();
    let p4 = le_bytes(f.offset as nat, 2);
    let p5 = le_bytes(f.width as nat, 2);
    let p6 = seq![f.role.tag()];
    let p7 = opt_str_bytes(f.unit);
    let p8 = opt_u64_bytes(f.sentinel);
    let p9 = le_bytes(f.labels.len(), 2);
    let t9 = many_bytes(label_enc(), f.labels);
    let t8 = p9 + t9;
    let t7 = p8 + t8;
    let t6 = p7 + t7;
    let t5 = p6 + t6;
    let t4 = p5 + t5;
    let t3 = p4 + t4;
    let t2 = p3 + t3;
    let t1 = p2 + t2;
    lemma_le_bytes_len(f.offset as nat, 2);
    lemma_le_bytes_len(f.width as nat, 2);
    lemma_first(p1, t1);
    lemma_after(p1, p2, t2);
    lemma_after(p1 + p2, p3, t3);
    lemma_after(p1 + p2 + p3, p4, t4);
    lemma_after(p1 + p2 + p3 + p4, p5, t5);
    lemma_after(p1 + p2 + p3 + p4 + p5, p6, t6);
    lemma_after(p1 + p2 + p3 + p4 + p5 + p6, p7, t7);
    lemma_after(p1 + p2 + p3 + p4 + p5 + p6 + p7, p8, t8);
    lemma_after(p1 + p2 + p3 + p4 + p5 + p6 + p7 + p8, p9, t9);
    lemma_le_bytes_len(l.value as nat, 8);
    lemma_first(le_bytes(l.value as nat, 8), str_bytes(l.label));
    lemma_whole(str_bytes(l.label));
    lemma_later(le_bytes(l.value as nat, 8), str_bytes(l.label), str_bytes(l.label), 0);
}

// ---------------------------------------------------------------------------
// The envelope.
// ---------------------------------------------------------------------------

/// The letters `BACKBEAT`.
pub open spec fn letters() -> Seq<u8> {
    seq![66u8, 65u8, 67u8, 75u8, 66u8, 69u8, 65u8, 84u8]
}

/// The file is refused with the error.
pub open spec fn refused(r: Result<DumpReader, Error>, e: Error) -> bool {
    r matches Err(got) && got == e
}

/// An entry of the section table.
proof fn lemma_entry_layout(kind: u16, offset: nat, len: nat)
    ensures
        stands_at(table_entry_bytes(kind, offset, len), le_bytes(kind as nat, 2), 0),
        stands_at(table_entry_bytes(kind, offset, len), le_bytes(offset, 8), 4),
        stands_at(table_entry_bytes(kind, offset, len), le_bytes(len, 8), 12),
        table_entry_bytes(kind, offset, len).len() == 20,
{
    let a = le_bytes(kind as nat, 2);
    let b = le_bytes(0, 2);
    let c = le_bytes(offset, 8);
    let d = le_bytes(len, 8);
    lemma_le_bytes_len(kind as nat, 2);
    lemma_le_bytes_len(0, 2);
    lemma_le_bytes_len(offset, 8);
    lemma_le_bytes_len(len, 8);
    lemma_first(a, b + (c + d));
    lemma_first(c, d);
    lemma_later(b, c + d, c, 0);
    lemma_later(a, b + (c + d), c, 2);
    lemma_whole(d);
    lemma_later(c, d, d, 0);
    lemma_later(b, c + d, d, 8);
    lemma_later(a, b + (c + d), d, 10);
}

/// A section: its entry in the table and its body.
proof fn lemma_section_layout(sections: Seq<SectionView>, base: nat, k: int)
    requires
        0 <= k < sections.len(),
    ensures
        ({
            let o = bodies_len(sections.take(k));
            let table = table_bytes(sections, base);
            &&& table.len() == 20 * sections.len()
            &&& stands_at(table, le_bytes(sections[k].kind as nat, 2), 20 * k)
            &&& stands_at(table, le_bytes(base + o, 8), 20 * k + 4)
            &&& stands_at(table, le_bytes(sections[k].body.len(), 8), 20 * k + 12)
            &&& stands_at(bodies_bytes(sections), sections[k].body, o as int)
            &&& bodies_bytes(sections).len() == bodies_len(sections)
        }),
    decreases sections.len(),
{
    let init = sections.drop_last();
    let n = sections.len() - 1;
    let last = sections[n];
    let entry = table_entry_bytes(last.kind, base + bodies_len(init), last.body.len());
    let o = bodies_len(sections.take(k));
    crate::wire_laws::lemma_table_len(init, base);
    crate::wire_laws::lemma_bodies_bytes_len(init);
    lemma_entry_layout(last.kind, base + bodies_len(init), last.body.len());
    if k < n {
        lemma_section_layout(init, base, k);
        assert(init.take(k) =~= sections.take(k));
        assert(init[k] == sections[k]);
        let table = table_bytes(init, base);
        lemma_more(table, entry, le_bytes(sections[k].kind as nat, 2), 20 * k);
        lemma_more(table, entry, le_bytes(base + o, 8), 20 * k + 4);
        lemma_more(table, entry, le_bytes(sections[k].body.len(), 8), 20 * k + 12);
        lemma_more(bodies_bytes(init), last.body, sections[k].body, o as int);
    } else {
        assert(sections.take(k) =~= init);
        let table = table_bytes(init, base);
        lemma_later(table, entry, le_bytes(last.kind as nat, 2), 0);
        lemma_later(table, entry, le_bytes(base + o, 8), 4);
        lemma_later(table, entry, le_bytes(last.body.len(), 8), 12);
        lemma_whole(last.body);
        lemma_later(bodies_bytes(init), last.body, last.body, 0);
    }
}

/// A dump begins with the letters `BACKBEAT`, then the version 1, the flag 1, the number of sections
/// and a zero, each on two bytes. Entry `k` of the section table stands behind 20 bytes for each
/// before it: the section's kind on two bytes, two bytes of padding, and on eight bytes each where in
/// the file its body stands and how long it is. There the body stands; the first stands behind the
/// table, and each behind the one before.
pub proof fn law_envelope_layout(sections: Seq<SectionView>, k: int)
    requires
        0 <= k < sections.len(),
    ensures
        ({
            let b = dump_bytes(sections);
            let o = 16 + 20 * sections.len() + bodies_len(sections.take(k));
            &&& stands_at(b, letters(), 0)
            &&& stands_at(b, le_bytes(1, 2), 8)
            &&& stands_at(b, le_bytes(1, 2), 10)
            &&& stands_at(b, le_bytes(sections.len(), 2), 12)
            &&& stands_at(b, le_bytes(0, 2), 14)
            &&& stands_at(b, le_bytes(sections[k].kind as nat, 2), 16 + 20 * k)
            &&& stands_at(b, le_bytes(o, 8), 20 + 20 * k)
            &&& stands_at(b, le_bytes(sections[k].body.len(), 8), 28 + 20 * k)
            &&& stands_at(b, sections[k].body, o as int)
            &&& b.len() == 16 + 20 * sections.len() + bodies_len(sections)
        }),
{
    let n = sections.len();
    let base = bodies_base(n);
    let o = bodies_len(sections.take(k));
    let magic = letters();
    assert(crate::format::MAGIC@ =~= magic);
    let p2 = le_bytes(1, 2);
    let p4 = le_bytes(n, 2);
    let p5 = le_bytes(0, 2);
    lemma_le_bytes_len(1, 2);
    lemma_le_bytes_len(n, 2);
    lemma_le_bytes_len(0, 2);
    let head = header_bytes(n);
    let t4 = p4 + p5;
    let t3 = p2 + t4;
    let t2 = p2 + t3;
    assert(head == magic + t2);
    let table = table_bytes(sections, base);
    let bodies = bodies_bytes(sections);
    let rest = table + bodies;
    lemma_first(magic, t2);
    lemma_first(p2, t3);
    lemma_later(magic, t2, p2, 0);
    lemma_first(p2, t4);
    lemma_later(p2, t3, p2, 0);
    lemma_later(magic, t2, p2, 2);
    lemma_first(p4, p5);
    lemma_later(p2, t4, p4, 0);
    lemma_later(p2, t3, p4, 2);
    lemma_later(magic, t2, p4, 4);
    lemma_whole(p5);
    lemma_later(p4, p5, p5, 0);
    lemma_later(p2, t4, p5, 2);
    lemma_later(p2, t3, p5, 4);
    lemma_later(magic, t2, p5, 6);
    lemma_more(head, rest, magic, 0);
    lemma_more(head, rest, p2, 8);
    lemma_more(head, rest, p2, 10);
    lemma_more(head, rest, p4, 12);
    lemma_more(head, rest, p5, 14);
    lemma_section_layout(sections, base, k);
    let kind = le_bytes(sections[k].kind as nat, 2);
    let off = le_bytes(base + o, 8);
    let len = le_bytes(sections[k].body.len(), 8);
    lemma_more(table, bodies, kind, 20 * k);
    lemma_more(table, bodies, off, 20 * k + 4);
    lemma_more(table, bodies, len, 20 * k + 12);
    lemma_later(head, rest, kind, 20 * k);
    lemma_later(head, rest, off, 20 * k + 4);
    lemma_later(head, rest, len, 20 * k + 12);
    lemma_later(table, bodies, sections[k].body, o as int);
    lemma_later(head, rest, sections[k].body, table.len() as int + o);
}

/// A file is refused as cut short where it has fewer than eight bytes; as no dump where those are not
/// the letters `BACKBEAT`; with its version where that is not 1; and as cut short where it has no
/// whole header.
pub proof fn law_headers_refused(bytes: Bytes, r: Result<DumpReader, Error>)
    requires
        call_ensures(DumpReader::new, (bytes,), r),
    ensures
        bytes_of(bytes).len() < 8 ==> refused(r, Error::UnexpectedEof),
        bytes_of(bytes).len() >= 8 && bytes_of(bytes).take(8) != letters() ==> refused(r, Error::BadMagic),
        bytes_of(bytes).len() >= 10 && bytes_of(bytes).take(8) == letters() && le_value(bytes_of(bytes).subrange(8, 10)) != 1 ==> refused(
            r,
            Error::UnsupportedVersion(le_value(bytes_of(bytes).subrange(8, 10)) as u16),
        ),
        8 <= bytes_of(bytes).len() < 16 && bytes_of(bytes).take(8) == letters() && (bytes_of(bytes).len() >= 10 ==> le_value(bytes_of(bytes).subrange(8, 10)) == 1)
            ==> refused(r, Error::UnexpectedEof),
{
    let whole = bytes_of(bytes);
    let magic = letters();
    assert(crate::format::MAGIC@ =~= magic);
    if whole.len() >= 10 {
        assert(whole.skip(8).take(2) =~= whole.subrange(8, 10));
    }
}

} // verus!
