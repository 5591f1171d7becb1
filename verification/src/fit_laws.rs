//! What was decoded from a dump can be written again: it fits the frames that it was read from.

use crate::convert::union_of;
use crate::le::{lemma_le_value_bound, lemma_pow256_values};
use crate::merge::{first_host, spliced_registry, splice_part, splice_parts, SplicePart};
use crate::merge_laws::{lemma_union_member, lemma_with_schemas_member};
use crate::model::{
    dump_parts, host_of, instance_ids, load_many_spec, load_spec, loaded_one, schema_leq,
    sorted_schemas, InputError, LoadedView,
};
use crate::order::lemma_stable_sort_contains;
use crate::parse::{
    bodies_of, dump_metas, dump_schemas, field_parser, label_parser, lemma_all_ok_items, p_dump,
    p_field, p_many, p_meta, p_opt_str, p_schema, p_str, p_u8, p_uint, schema_parser, Parsed,
};
use crate::schema::{FieldView, LabelView, SchemaView};
use crate::wire::{MetaView, SectionView};
use crate::wire_laws::{field_fits, opt_str_fits, registry_fits, schema_fits, str_fits};
use vstd::prelude::*;
use vstd::utf8::{decode_utf8_encode_utf8, encode_utf8};

verus! {

/// A number on two bytes is below 2^16.
proof fn lemma_u16(s: Seq<u8>)
    ensures
        p_uint(s, 2) matches Ok((n, _)) ==> n < 0x1_0000,
{
    if s.len() >= 2 {
        lemma_le_value_bound(s.take(2));
        lemma_pow256_values();
    }
}

/// A string that was read can be framed.
proof fn lemma_str_read(s: Seq<u8>)
    ensures
        p_str(s) matches Ok((t, _)) ==> str_fits(t),
{
    lemma_u16(s);
    if let Ok((t, _)) = p_str(s) {
        let (len, s1) = p_uint(s, 2)->Ok_0;
        decode_utf8_encode_utf8(s1.take(len as int));
    }
}

/// An optional string that was read can be framed.
proof fn lemma_opt_str_read(s: Seq<u8>)
    ensures
        p_opt_str(s) matches Ok((t, _)) ==> opt_str_fits(t),
{
    if let Ok((_, s1)) = p_u8(s) {
        lemma_str_read(s1);
    }
}

/// Each value of a run has what the parser gives every value.
proof fn lemma_many_each<T>(
    p: spec_fn(Seq<u8>) -> Parsed<T>,
    s: Seq<u8>,
    n: nat,
    ok: spec_fn(T) -> bool,
)
    requires
        forall|s: Seq<u8>| #[trigger] p(s) matches Ok((x, _)) ==> ok(x),
    ensures
        p_many(p, s, n) matches Ok((xs, _)) ==> xs.len() == n && forall|i: int|
            0 <= i < n ==> ok(#[trigger] xs[i]),
    decreases n,
{
    if n > 0 {
        lemma_many_each(p, s, (n - 1) as nat, ok);
    }
}

/// A field that was read can be framed.
proof fn lemma_field_read(s: Seq<u8>)
    ensures
        p_field(s) matches Ok((f, _)) ==> field_fits(f),
{
    reveal(p_field);
    if let Ok((f, _)) = p_field(s) {
        lemma_str_read(s);
        let s1 = p_str(s)->Ok_0.1;
        lemma_opt_str_read(s1);
        let s2 = p_opt_str(s1)->Ok_0.1;
        let s3 = crate::parse::p_field_type(s2)->Ok_0.1;
        let s4 = p_uint(s3, 2)->Ok_0.1;
        let s5 = p_uint(s4, 2)->Ok_0.1;
        let s6 = crate::parse::p_role(s5)->Ok_0.1;
        lemma_opt_str_read(s6);
        let s7 = p_opt_str(s6)->Ok_0.1;
        let s8 = crate::parse::p_opt_u64(s7)->Ok_0.1;
        lemma_u16(s8);
        let (n, s9) = p_uint(s8, 2)->Ok_0;
        let ok = |l: LabelView| str_fits(l.label);
        assert forall|s: Seq<u8>| #[trigger] label_parser()(s) matches Ok((x, _)) ==> ok(x) by {
            if let Ok((_, t)) = p_uint(s, 8) {
                lemma_str_read(t);
            }
        }
        lemma_many_each(label_parser(), s9, n, ok);
        assert forall|i: int| 0 <= i < f.labels.len() implies str_fits(
            (#[trigger] f.labels[i]).label,
        ) by {
            assert(ok(f.labels[i]));
        }
    }
}

/// A schema that was read can be framed.
proof fn lemma_schema_read(s: Seq<u8>)
    ensures
        p_schema(s) matches Ok((x, _)) ==> schema_fits(x),
{
    reveal(p_schema);
    if let Ok((x, _)) = p_schema(s) {
        let s1 = p_uint(s, 8)->Ok_0.1;
        lemma_str_read(s1);
        let s2 = p_str(s1)->Ok_0.1;
        lemma_opt_str_read(s2);
        let s3 = p_opt_str(s2)->Ok_0.1;
        let s4 = p_uint(s3, 2)->Ok_0.1;
        let s5 = crate::parse::p_phase(s4)->Ok_0.1;
        lemma_u16(s5);
        let (n, s6) = p_uint(s5, 2)->Ok_0;
        let ok = |f: FieldView| field_fits(f);
        assert forall|s: Seq<u8>| #[trigger] field_parser()(s) matches Ok((x, _)) ==> ok(x) by {
            lemma_field_read(s);
        }
        lemma_many_each(field_parser(), s6, n, ok);
        assert forall|i: int| 0 <= i < x.fields.len() implies field_fits(
            #[trigger] x.fields[i],
        ) by {
            assert(ok(x.fields[i]));
        }
    }
}

/// The registry of a dump that was read can be written.
pub proof fn law_registry_fits(sections: Seq<SectionView>)
    ensures
        dump_schemas(sections) matches Ok(v) ==> registry_fits(v),
{
    let bodies = bodies_of(sections, 0);
    crate::parse::lemma_schemas_len(sections);
    if bodies.len() > 0 {
        if let Ok((n, s1)) = p_uint(bodies[0], 4) {
            let ok = |x: SchemaView| schema_fits(x);
            assert forall|s: Seq<u8>| #[trigger] schema_parser()(s) matches Ok((x, _)) ==> ok(
                x,
            ) by {
                lemma_schema_read(s);
            }
            lemma_many_each(schema_parser(), s1, n, ok);
            if let Ok(v) = dump_schemas(sections) {
                assert forall|i: int| 0 <= i < v.len() implies schema_fits(#[trigger] v[i]) by {
                    assert(ok(v[i]));
                }
            }
        }
    }
}

/// The host labels of a dump that was read can be written.
pub proof fn law_hosts_fit(sections: Seq<SectionView>)
    ensures
        dump_metas(sections) matches Ok(v) ==> forall|i: int|
            0 <= i < v.len() ==> str_fits((#[trigger] v[i]).host),
{
    let p = |b: Seq<u8>| p_meta(b);
    let bodies = bodies_of(sections, 3);
    let rs = bodies.map_values(p);
    lemma_all_ok_items(rs);
    if let Ok(v) = dump_metas(sections) {
        assert forall|i: int| 0 <= i < v.len() implies str_fits((#[trigger] v[i]).host) by {
            assert(rs[i] == p_meta(bodies[i]));
            if let Ok((_, s1)) = p_uint(bodies[i], 8) {
                lemma_str_read(s1);
            }
        }
    }
}

/// Every schema of a run can be framed.
pub open spec fn all_fit(schemas: Seq<SchemaView>) -> bool {
    forall|i: int| 0 <= i < schemas.len() ==> schema_fits(#[trigger] schemas[i])
}

/// The schemas and the host label of a loaded instance can be framed.
pub open spec fn loaded_fits(l: LoadedView) -> bool {
    all_fit(l.schemas) && str_fits(l.host)
}

/// Those of every loaded instance can.
pub open spec fn all_loaded_fit(dumps: Seq<LoadedView>) -> bool {
    forall|d: int| 0 <= d < dumps.len() ==> loaded_fits(#[trigger] dumps[d])
}

/// The host of an instance is that of one of the metadata sections, or empty.
proof fn lemma_host_fits(metas: Seq<MetaView>, id: u64)
    requires
        forall|i: int| 0 <= i < metas.len() ==> str_fits((#[trigger] metas[i]).host),
    ensures
        str_fits(host_of(metas, id)),
    decreases metas.len(),
{
    if metas.len() > 0 {
        let init = metas.drop_last();
        assert forall|i: int| 0 <= i < init.len() implies str_fits((#[trigger] init[i]).host) by {
            assert(init[i] == metas[i]);
        }
        lemma_host_fits(init, id);
        assert(str_fits(metas[metas.len() - 1].host));
    } else {
        assert(encode_utf8(Seq::<char>::empty()).len() == 0);
    }
}

/// What was loaded can be written again: the schemas and the host label of every loaded instance
/// can be framed.
pub proof fn law_loaded_fits(inputs: Seq<(Seq<char>, Seq<u8>)>)
    ensures
        load_many_spec(inputs) matches Ok(dumps) ==> all_loaded_fit(dumps),
    decreases inputs.len(),
{
    if inputs.len() > 0 && load_many_spec(inputs) is Ok {
        let (path, bytes) = inputs.last();
        law_loaded_fits(inputs.drop_last());
        let before = load_many_spec(inputs.drop_last())->Ok_0;
        let more = load_spec(path, bytes)->Ok_0;
        let sections = p_dump(bytes)->Ok_0.sections;
        let parts = dump_parts(sections)->Ok_0;
        let ids = instance_ids(parts.metas, parts.shards);
        let schemas = sorted_schemas(parts.schemas);
        law_registry_fits(sections);
        law_hosts_fit(sections);
        assert(all_fit(schemas)) by {
            assert forall|i: int| 0 <= i < schemas.len() implies schema_fits(
                #[trigger] schemas[i],
            ) by {
                lemma_stable_sort_contains(parts.schemas, schema_leq(), schemas[i]);
                assert(schemas.contains(schemas[i]));
                let k = choose|k: int|
                    0 <= k < parts.schemas.len() && parts.schemas[k] == schemas[i];
                assert(schema_fits(parts.schemas[k]));
            }
        }
        let dumps = before + more;
        assert forall|d: int| 0 <= d < dumps.len() implies loaded_fits(#[trigger] dumps[d]) by {
            if d < before.len() {
                assert(dumps[d] == before[d]);
            } else {
                let k = d - before.len();
                assert(dumps[d] == more[k]);
                assert(more[k] == loaded_one(path, parts, ids[k]));
                lemma_host_fits(parts.metas, ids[k]);
            }
        }
    }
}

/// The host of an instance over loaded dumps can be framed.
proof fn lemma_first_host_fits(dumps: Seq<LoadedView>, id: u64)
    requires
        all_loaded_fit(dumps),
    ensures
        str_fits(first_host(dumps, id)),
    decreases dumps.len(),
{
    if dumps.len() == 0 {
        assert(encode_utf8(Seq::<char>::empty()).len() == 0);
    } else {
        let rest = dumps.skip(1);
        assert forall|d: int| 0 <= d < rest.len() implies loaded_fits(#[trigger] rest[d]) by {
            assert(rest[d] == dumps[d + 1]);
        }
        lemma_first_host_fits(rest, id);
        assert(loaded_fits(dumps[0]));
    }
}

/// The union of the registries of loaded dumps can be written, if its count can, and so can the host
/// labels.
pub proof fn law_union_fits(inputs: Seq<(Seq<char>, Seq<u8>)>, dumps: Seq<LoadedView>)
    requires
        load_many_spec(inputs) == Ok::<Seq<LoadedView>, InputError>(dumps),
        union_of(dumps).len() < 0x1_0000_0000,
    ensures
        registry_fits(union_of(dumps)),
        forall|id: u64| str_fits(#[trigger] first_host(dumps, id)),
{
    law_loaded_fits(inputs);
    let all = union_of(dumps);
    assert forall|i: int| 0 <= i < all.len() implies schema_fits(#[trigger] all[i]) by {
        let at = lemma_union_member(dumps, i);
        assert(loaded_fits(dumps[at.0]));
        assert(schema_fits(dumps[at.0].schemas[at.1]));
    }
    assert forall|id: u64| str_fits(#[trigger] first_host(dumps, id)) by {
        lemma_first_host_fits(dumps, id);
    }
}

/// The united registry of spliced inputs can be written, if its count can.
pub proof fn law_spliced_registry_fits(
    inputs: Seq<(Seq<char>, Seq<u8>)>,
    parts: Seq<SplicePart>,
)
    requires
        splice_parts(inputs) == Ok::<Seq<SplicePart>, InputError>(parts),
        spliced_registry(parts).len() < 0x1_0000_0000,
    ensures
        registry_fits(spliced_registry(parts)),
{
    lemma_spliced_fits(inputs, parts);
}

/// The schemas of the united registry of spliced inputs can be framed.
proof fn lemma_spliced_fits(inputs: Seq<(Seq<char>, Seq<u8>)>, parts: Seq<SplicePart>)
    requires
        splice_parts(inputs) == Ok::<Seq<SplicePart>, InputError>(parts),
    ensures
        all_fit(spliced_registry(parts)),
    decreases inputs.len(),
{
    if inputs.len() > 0 {
        let before = splice_parts(inputs.drop_last())->Ok_0;
        let part = splice_part(inputs.last().1)->Ok_0;
        assert(parts.drop_last() =~= before);
        assert(parts.last() == part);
        lemma_spliced_fits(inputs.drop_last(), before);
        law_registry_fits(part.sections);
        let all = spliced_registry(parts);
        let known = spliced_registry(before);
        assert forall|i: int| 0 <= i < all.len() implies schema_fits(#[trigger] all[i]) by {
            lemma_with_schemas_member(known, part.schemas, i);
            if known.contains(all[i]) {
                let k = choose|k: int| 0 <= k < known.len() && known[k] == all[i];
                assert(schema_fits(known[k]));
            } else {
                let k = choose|k: int| 0 <= k < part.schemas.len() && part.schemas[k] == all[i];
                assert(schema_fits(part.schemas[k]));
            }
        }
    } else {
        assert(parts =~= Seq::<SplicePart>::empty());
    }
}

} // verus!
