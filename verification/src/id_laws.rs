//! What a change of an event's definition does to its id.
//!
//! An id is a 64-bit hash, so two definitions can share one. A change of a single byte of what is
//! hashed never goes unnoticed, though.

use crate::id::{fnv_fold, fnv_step, lemma_fnv_fold_concat, lemma_fnv_fold_one, str_bytes};
use crate::id::{opt_str_bytes, FNV_OFFSET, FNV_PRIME};
use crate::le::{le_bytes, lemma_le_bytes_len, lemma_le_round_trip, lemma_pow256_values, pow256};
use crate::schema::{
    content_id, field_stream, fields_stream, id_stream, labels_stream, sentinel_stream, FieldRole,
    FieldType, FieldView, LabelView, Phase,
};
use vstd::utf8::encode_utf8;
use vstd::arithmetic::div_mod::{
    lemma_mod_multiples_vanish, lemma_mul_mod_noop_left, lemma_small_mod,
};
use vstd::prelude::*;

verus! {

/// Multiplying by the prime modulo `2^64` is undone by multiplying by its inverse.
proof fn lemma_prime_undone(x: u64)
    ensures
        (x * FNV_PRIME % 0x1_0000_0000_0000_0000) * 0xce96_5057_aff6_957bint
            % 0x1_0000_0000_0000_0000 == x,
{
    let p = FNV_PRIME as int;
    let m = 0x1_0000_0000_0000_0000int;
    let v = 0xce96_5057_aff6_957bint;
    let k = 0xce_9650_590fint;
    lemma_mul_mod_noop_left(x * p, v, m);
    assert(p * v == 1 + k * m);
    assert((x * p) * v == m * (x * k) + x) by (nonlinear_arith)
        requires
            p * v == 1 + k * m,
    ;
    lemma_mod_multiples_vanish(x * k, x as int, m);
    lemma_small_mod(x as nat, m as nat);
}

/// One step keeps two hashes apart.
proof fn lemma_step_keeps_apart(a: u64, b: u64, byte: u8)
    requires
        a != b,
    ensures
        fnv_step(a, byte) != fnv_step(b, byte),
{
    let w = byte as u64;
    assert(a != b ==> a ^ w != b ^ w) by (bit_vector);
    lemma_prime_undone(a ^ w);
    lemma_prime_undone(b ^ w);
}

/// Two bytes take one hash to two.
proof fn lemma_step_forks(hash: u64, x: u8, y: u8)
    requires
        x != y,
    ensures
        fnv_step(hash, x) != fnv_step(hash, y),
{
    let v = x as u64;
    let w = y as u64;
    assert(v != w ==> hash ^ v != hash ^ w) by (bit_vector);
    lemma_prime_undone(hash ^ v);
    lemma_prime_undone(hash ^ w);
}

/// Two hashes stay apart, whatever is folded into both.
pub proof fn law_hashes_stay_apart(a: u64, b: u64, s: Seq<u8>)
    requires
        a != b,
    ensures
        fnv_fold(a, s) != fnv_fold(b, s),
    decreases s.len(),
{
    if s.len() > 0 {
        law_hashes_stay_apart(a, b, s.drop_last());
        lemma_step_keeps_apart(fnv_fold(a, s.drop_last()), fnv_fold(b, s.drop_last()), s.last());
    }
}

/// Runs of bytes that differ in one byte have different hashes.
pub proof fn law_one_byte_forks(hash: u64, before: Seq<u8>, x: u8, y: u8, after: Seq<u8>)
    requires
        x != y,
    ensures
        fnv_fold(hash, before + seq![x] + after) != fnv_fold(hash, before + seq![y] + after),
{
    let h = fnv_fold(hash, before);
    lemma_fnv_fold_concat(hash, before, seq![x]);
    lemma_fnv_fold_concat(hash, before, seq![y]);
    lemma_fnv_fold_one(h, x);
    lemma_fnv_fold_one(h, y);
    lemma_step_forks(h, x, y);
    lemma_fnv_fold_concat(hash, before + seq![x], after);
    lemma_fnv_fold_concat(hash, before + seq![y], after);
    law_hashes_stay_apart(fnv_step(h, x), fnv_step(h, y), after);
}

/// Events that differ only in their phase have different ids.
pub proof fn law_phase_forks_id(name: Seq<char>, a: Phase, b: Phase, fields: Seq<FieldView>)
    requires
        a != b,
    ensures
        content_id(name, a, fields) != content_id(name, b, fields),
{
    law_one_byte_forks(FNV_OFFSET, str_bytes(name), a.tag(), b.tag(), fields_stream(fields));
}

/// What is hashed of a run of fields is that of the fields before one, of that one, and of those
/// after it.
proof fn lemma_fields_split(fields: Seq<FieldView>, k: int)
    requires
        0 <= k < fields.len(),
    ensures
        fields_stream(fields) == fields_stream(fields.take(k)) + field_stream(fields[k])
            + fields_stream(fields.skip(k + 1)),
    decreases fields.len(),
{
    let rest = fields.drop_last();
    if k == fields.len() - 1 {
        assert(rest =~= fields.take(k));
        assert(fields.skip(k + 1) =~= Seq::<FieldView>::empty());
        assert(fields_stream(fields) =~= fields_stream(fields.take(k)) + field_stream(fields[k])
            + fields_stream(fields.skip(k + 1)));
    } else {
        lemma_fields_split(rest, k);
        assert(rest.take(k) =~= fields.take(k));
        assert(fields.skip(k + 1).drop_last() =~= rest.skip(k + 1));
        assert(fields.skip(k + 1).last() == fields.last());
        assert(fields_stream(fields) =~= fields_stream(fields.take(k)) + field_stream(fields[k])
            + fields_stream(fields.skip(k + 1)));
    }
}

/// What is hashed of a field before its role.
spec fn before_role(f: FieldView) -> Seq<u8> {
    str_bytes(f.name) + opt_str_bytes(f.description) + f.ty.wire_bytes() + le_bytes(
        f.offset as nat,
        2,
    ) + le_bytes(f.width as nat, 2)
}

/// What is hashed of a field after its role.
spec fn after_role(f: FieldView) -> Seq<u8> {
    opt_str_bytes(f.unit) + sentinel_stream(f.sentinel) + labels_stream(f.labels)
}

/// The role stands in the midst of what is hashed of a field.
proof fn lemma_role_within(f: FieldView)
    ensures
        field_stream(f) == before_role(f) + seq![f.role.tag()] + after_role(f),
{
    lemma_regroup(
        before_role(f) + seq![f.role.tag()],
        opt_str_bytes(f.unit),
        sentinel_stream(f.sentinel),
        labels_stream(f.labels),
    );
}

/// Runs of bytes can be grouped from either side.
proof fn lemma_regroup(a: Seq<u8>, b: Seq<u8>, c: Seq<u8>, d: Seq<u8>)
    ensures
        a + b + c + d == a + (b + c + d),
{
    assert(a + b + c + d =~= a + (b + c + d));
}

/// A run of bytes within a run within a run.
proof fn lemma_within(n: Seq<u8>, x: Seq<u8>, h: Seq<u8>, r: Seq<u8>, t: Seq<u8>, y: Seq<u8>)
    ensures
        n + (x + (h + r + t) + y) == (n + x + h) + r + (t + y),
{
    assert(n + (x + (h + r + t) + y) =~= (n + x + h) + r + (t + y));
}

/// Events that differ only in the role of one field have different ids.
pub proof fn law_role_forks_id(
    name: Seq<char>,
    phase: Phase,
    fields: Seq<FieldView>,
    k: int,
    role: FieldRole,
)
    requires
        0 <= k < fields.len(),
        fields[k].role != role,
    ensures
        content_id(name, phase, fields) != content_id(
            name,
            phase,
            fields.update(k, (FieldView { role, ..fields[k] })),
        ),
{
    let f = fields[k];
    let g = FieldView { role, ..f };
    let changed = fields.update(k, g);
    lemma_fields_split(fields, k);
    lemma_fields_split(changed, k);
    assert(changed.take(k) =~= fields.take(k));
    assert(changed.skip(k + 1) =~= fields.skip(k + 1));
    lemma_role_within(f);
    lemma_role_within(g);
    let n = str_bytes(name) + seq![phase.tag()];
    let x = fields_stream(fields.take(k));
    let h = before_role(f);
    let t = after_role(f);
    let y = fields_stream(fields.skip(k + 1));
    lemma_within(n, x, h, seq![f.role.tag()], t, y);
    lemma_within(n, x, h, seq![g.role.tag()], t, y);
    law_one_byte_forks(FNV_OFFSET, n + x + h, f.role.tag(), g.role.tag(), t + y);
}

// ---------------------------------------------------------------------------
// Everything that defines an event is hashed.
// ---------------------------------------------------------------------------

/// What stands between the same two runs of bytes can be told.
proof fn lemma_cancel(a: Seq<u8>, x: Seq<u8>, y: Seq<u8>, b: Seq<u8>)
    requires
        a + x + b == a + y + b,
    ensures
        x == y,
{
    let s = a + x + b;
    let t = a + y + b;
    assert(s.len() == a.len() + x.len() + b.len());
    assert(t.len() == a.len() + y.len() + b.len());
    assert forall|i: int| 0 <= i < x.len() implies x[i] == y[i] by {
        assert(s[a.len() + i] == x[i]);
        assert(t[a.len() + i] == y[i]);
    }
    assert(x =~= y);
}

/// A framed string tells the string.
proof fn lemma_str_told(a: Seq<char>, b: Seq<char>)
    requires
        str_bytes(a) == str_bytes(b),
    ensures
        a == b,
{
    lemma_le_bytes_len(encode_utf8(a).len(), 2);
    lemma_le_bytes_len(encode_utf8(b).len(), 2);
    assert(str_bytes(a).skip(2) =~= encode_utf8(a));
    assert(str_bytes(b).skip(2) =~= encode_utf8(b));
    vstd::utf8::encode_utf8_decode_utf8(a);
    vstd::utf8::encode_utf8_decode_utf8(b);
}

/// A framed optional string tells the string.
proof fn lemma_opt_told(a: Option<Seq<char>>, b: Option<Seq<char>>)
    requires
        opt_str_bytes(a) == opt_str_bytes(b),
    ensures
        a == b,
{
    assert(opt_str_bytes(a)[0] == if a is Some { 1u8 } else { 0u8 });
    assert(opt_str_bytes(b)[0] == if b is Some { 1u8 } else { 0u8 });
    if let (Some(x), Some(y)) = (a, b) {
        assert(opt_str_bytes(a).skip(1) =~= str_bytes(x));
        assert(opt_str_bytes(b).skip(1) =~= str_bytes(y));
        lemma_str_told(x, y);
    }
}

/// A framed type tells the type.
proof fn lemma_type_told(a: FieldType, b: FieldType)
    requires
        a.wire_bytes() == b.wire_bytes(),
    ensures
        a == b,
{
    let x = a.wire_bytes();
    let y = b.wire_bytes();
    assert(x.len() == y.len() && x[0] == y[0]);
    if x.len() > 1 {
        assert(x[1] == y[1]);
    }
}

/// A framed number tells the number.
proof fn lemma_number_told(a: nat, b: nat, n: nat)
    requires
        le_bytes(a, n) == le_bytes(b, n),
        a < pow256(n),
        b < pow256(n),
    ensures
        a == b,
{
    lemma_le_round_trip(a, n);
    lemma_le_round_trip(b, n);
}

/// A framed sentinel tells the sentinel.
proof fn lemma_sentinel_told(a: Option<u64>, b: Option<u64>)
    requires
        sentinel_stream(a) == sentinel_stream(b),
    ensures
        a == b,
{
    lemma_pow256_values();
    if let Some(x) = a {
        lemma_le_bytes_len(x as nat, 8);
        assert(sentinel_stream(a).skip(1) =~= le_bytes(x as nat, 8));
    }
    if let Some(y) = b {
        lemma_le_bytes_len(y as nat, 8);
        assert(sentinel_stream(b).skip(1) =~= le_bytes(y as nat, 8));
    }
    if let (Some(x), Some(y)) = (a, b) {
        lemma_number_told(x as nat, y as nat, 8);
    }
}

/// What is hashed of labels is that of those before one, of that one, and of those after it.
proof fn lemma_labels_split(labels: Seq<LabelView>, k: int)
    requires
        0 <= k < labels.len(),
    ensures
        labels_stream(labels) == labels_stream(labels.take(k)) + (le_bytes(
            labels[k].value as nat,
            8,
        ) + str_bytes(labels[k].label)) + labels_stream(labels.skip(k + 1)),
    decreases labels.len(),
{
    let rest = labels.drop_last();
    let one = le_bytes(labels[k].value as nat, 8) + str_bytes(labels[k].label);
    if k == labels.len() - 1 {
        assert(rest =~= labels.take(k));
        assert(labels.skip(k + 1) =~= Seq::<LabelView>::empty());
        assert(labels_stream(labels.skip(k + 1)) =~= Seq::<u8>::empty());
        assert(labels_stream(labels) =~= labels_stream(labels.take(k)) + one + labels_stream(
            labels.skip(k + 1),
        ));
    } else {
        lemma_labels_split(rest, k);
        assert(rest.take(k) =~= labels.take(k));
        assert(labels.skip(k + 1).drop_last() =~= rest.skip(k + 1));
        assert(labels.skip(k + 1).last() == labels.last());
        assert(labels_stream(labels) =~= labels_stream(labels.take(k)) + one + labels_stream(
            labels.skip(k + 1),
        ));
    }
}

/// Two fields are the same but for one thing: the name, the description, the type, the offset, the
/// width, the unit, the sentinel, or one label.
pub open spec fn differ_in_one(f: FieldView, g: FieldView) -> bool {
    f != g && {
        ||| g == (FieldView { name: g.name, ..f })
        ||| g == (FieldView { description: g.description, ..f })
        ||| g == (FieldView { ty: g.ty, ..f })
        ||| g == (FieldView { offset: g.offset, ..f })
        ||| g == (FieldView { width: g.width, ..f })
        ||| g == (FieldView { unit: g.unit, ..f })
        ||| g == (FieldView { sentinel: g.sentinel, ..f })
        ||| exists|k: int, l: LabelView|
            0 <= k < f.labels.len() && f.labels[k] != l && g == (FieldView {
                labels: #[trigger] f.labels.update(k, l),
                ..f
            })
    }
}

/// The pieces of what is hashed of a field.
proof fn lemma_field_pieces(f: FieldView)
    ensures
        ({
            let a = str_bytes(f.name);
            let b = opt_str_bytes(f.description);
            let c = f.ty.wire_bytes();
            let d = le_bytes(f.offset as nat, 2);
            let e = le_bytes(f.width as nat, 2);
            let r = seq![f.role.tag()];
            let u = opt_str_bytes(f.unit);
            let s = sentinel_stream(f.sentinel);
            let l = labels_stream(f.labels);
            let none = Seq::<u8>::empty();
            &&& field_stream(f) == a + b + c + d + e + r + u + s + l
            &&& field_stream(f) == none + a + (b + c + d + e + r + u + s + l)
            &&& field_stream(f) == a + b + (c + d + e + r + u + s + l)
            &&& field_stream(f) == a + b + c + (d + e + r + u + s + l)
            &&& field_stream(f) == a + b + c + d + (e + r + u + s + l)
            &&& field_stream(f) == a + b + c + d + e + (r + u + s + l)
            &&& field_stream(f) == a + b + c + d + e + r + u + (s + l)
        }),
{
    let a = str_bytes(f.name);
    let b = opt_str_bytes(f.description);
    let c = f.ty.wire_bytes();
    let d = le_bytes(f.offset as nat, 2);
    let e = le_bytes(f.width as nat, 2);
    let r = seq![f.role.tag()];
    let u = opt_str_bytes(f.unit);
    let s = sentinel_stream(f.sentinel);
    let l = labels_stream(f.labels);
    let none = Seq::<u8>::empty();
    let x5 = a + b + c + d + e;
    lemma_three(a + b + c + d + e + r + u, s, l);
    lemma_three(x5 + r, u, s + l);
    lemma_three(x5, r, u + (s + l));
    lemma_three(r, u, s + l);
    lemma_three(r + u, s, l);
    let t4 = r + u + s + l;
    assert(field_stream(f) == x5 + t4);
    lemma_three(a + b + c + d, e, t4);
    lemma_front(e, r, u, s, l);
    let t3 = e + r + u + s + l;
    lemma_three(a + b + c, d, t3);
    lemma_group6(d, e, r, u, s, l);
    let t2 = d + e + r + u + s + l;
    lemma_three(a + b, c, t2);
    lemma_group7(c, d, e, r, u, s, l);
    let t1 = c + d + e + r + u + s + l;
    lemma_three(a, b, t1);
    lemma_group8(b, c, d, e, r, u, s, l);
    assert(none + a =~= a);
}

/// Grouping.
proof fn lemma_three(a: Seq<u8>, b: Seq<u8>, c: Seq<u8>)
    ensures
        a + b + c == a + (b + c),
{
    assert(a + b + c =~= a + (b + c));
}

/// Grouping.
proof fn lemma_front(a: Seq<u8>, b: Seq<u8>, c: Seq<u8>, d: Seq<u8>, e: Seq<u8>)
    ensures
        a + b + c + d + e == a + (b + c + d + e),
{
    lemma_three(a + b + c, d, e);
    lemma_three(a + b, c, d + e);
    lemma_three(a, b, c + (d + e));
    lemma_three(b + c, d, e);
    lemma_three(b, c, d + e);
}

/// Grouping.
proof fn lemma_group6(a: Seq<u8>, b: Seq<u8>, c: Seq<u8>, d: Seq<u8>, e: Seq<u8>, f: Seq<u8>)
    ensures
        a + b + c + d + e + f == a + (b + c + d + e + f),
{
    lemma_front(a, b, c, d, e);
    lemma_three(a, b + c + d + e, f);
}

/// Grouping.
proof fn lemma_group7(
    a: Seq<u8>,
    b: Seq<u8>,
    c: Seq<u8>,
    d: Seq<u8>,
    e: Seq<u8>,
    f: Seq<u8>,
    g: Seq<u8>,
)
    ensures
        a + b + c + d + e + f + g == a + (b + c + d + e + f + g),
{
    lemma_group6(a, b, c, d, e, f);
    lemma_three(a, b + c + d + e + f, g);
}

/// Grouping.
proof fn lemma_group8(
    a: Seq<u8>,
    b: Seq<u8>,
    c: Seq<u8>,
    d: Seq<u8>,
    e: Seq<u8>,
    f: Seq<u8>,
    g: Seq<u8>,
    h: Seq<u8>,
)
    ensures
        a + b + c + d + e + f + g + h == a + (b + c + d + e + f + g + h),
{
    lemma_group7(a, b, c, d, e, f, g);
    lemma_three(a, b + c + d + e + f + g, h);
}

/// What is hashed of two fields that differ in one thing differs.
proof fn lemma_field_told(f: FieldView, g: FieldView)
    requires
        differ_in_one(f, g),
    ensures
        field_stream(f) != field_stream(g),
{
    let a = str_bytes(f.name);
    let b = opt_str_bytes(f.description);
    let c = f.ty.wire_bytes();
    let d = le_bytes(f.offset as nat, 2);
    let e = le_bytes(f.width as nat, 2);
    let r = seq![f.role.tag()];
    let u = opt_str_bytes(f.unit);
    let s = sentinel_stream(f.sentinel);
    let l = labels_stream(f.labels);
    let none = Seq::<u8>::empty();
    lemma_field_pieces(f);
    lemma_field_pieces(g);
    lemma_pow256_values();
    if field_stream(f) == field_stream(g) {
        if g == (FieldView { name: g.name, ..f }) {
            lemma_cancel(none, a, str_bytes(g.name), b + c + d + e + r + u + s + l);
            lemma_str_told(f.name, g.name);
        } else if g == (FieldView { description: g.description, ..f }) {
            lemma_cancel(a, b, opt_str_bytes(g.description), c + d + e + r + u + s + l);
            lemma_opt_told(f.description, g.description);
        } else if g == (FieldView { ty: g.ty, ..f }) {
            lemma_cancel(a + b, c, g.ty.wire_bytes(), d + e + r + u + s + l);
            lemma_type_told(f.ty, g.ty);
        } else if g == (FieldView { offset: g.offset, ..f }) {
            lemma_cancel(a + b + c, d, le_bytes(g.offset as nat, 2), e + r + u + s + l);
            lemma_number_told(f.offset as nat, g.offset as nat, 2);
        } else if g == (FieldView { width: g.width, ..f }) {
            lemma_cancel(a + b + c + d, e, le_bytes(g.width as nat, 2), r + u + s + l);
            lemma_number_told(f.width as nat, g.width as nat, 2);
        } else if g == (FieldView { unit: g.unit, ..f }) {
            lemma_cancel(a + b + c + d + e + r, u, opt_str_bytes(g.unit), s + l);
            lemma_opt_told(f.unit, g.unit);
        } else if g == (FieldView { sentinel: g.sentinel, ..f }) {
            lemma_cancel(a + b + c + d + e + r + u, s, sentinel_stream(g.sentinel), l);
            lemma_sentinel_told(f.sentinel, g.sentinel);
        } else {
            let (k, x) = choose|k: int, x: LabelView|
                0 <= k < f.labels.len() && f.labels[k] != x && g == (FieldView {
                    labels: #[trigger] f.labels.update(k, x),
                    ..f
                });
            lemma_labels_told(f.labels, k, x);
            let front = a + b + c + d + e + r + u + s;
            let more = labels_stream(g.labels);
            assert(front + l + none =~= front + l);
            assert(front + more + none =~= front + more);
            lemma_cancel(front, l, more, none);
        }
    }
}

/// What is hashed of labels tells each of them.
proof fn lemma_labels_told(labels: Seq<LabelView>, k: int, x: LabelView)
    requires
        0 <= k < labels.len(),
        labels[k] != x,
    ensures
        labels_stream(labels) != labels_stream(labels.update(k, x)),
{
    let other = labels.update(k, x);
    lemma_labels_split(labels, k);
    lemma_labels_split(other, k);
    assert(other.take(k) =~= labels.take(k));
    assert(other.skip(k + 1) =~= labels.skip(k + 1));
    let y = labels[k];
    let p = le_bytes(y.value as nat, 8);
    let q = le_bytes(x.value as nat, 8);
    lemma_pow256_values();
    lemma_le_bytes_len(y.value as nat, 8);
    lemma_le_bytes_len(x.value as nat, 8);
    if labels_stream(labels) == labels_stream(other) {
        lemma_cancel(
            labels_stream(labels.take(k)),
            p + str_bytes(y.label),
            q + str_bytes(x.label),
            labels_stream(labels.skip(k + 1)),
        );
        assert((p + str_bytes(y.label)).take(8) =~= p);
        assert((q + str_bytes(x.label)).take(8) =~= q);
        assert((p + str_bytes(y.label)).skip(8) =~= str_bytes(y.label));
        assert((q + str_bytes(x.label)).skip(8) =~= str_bytes(x.label));
        lemma_number_told(y.value as nat, x.value as nat, 8);
        lemma_str_told(y.label, x.label);
    }
}

/// An id is the hash of bytes in which nothing that defines the event is left out: where two events
/// differ in one thing, be it the name, or the name, description, type, offset, width, unit, sentinel
/// or a label of one field, the bytes that are hashed differ.
pub proof fn law_everything_is_hashed(
    name: Seq<char>,
    other: Seq<char>,
    phase: Phase,
    fields: Seq<FieldView>,
    k: int,
    g: FieldView,
)
    requires
        0 <= k < fields.len(),
        differ_in_one(fields[k], g),
        name != other,
    ensures
        content_id(name, phase, fields) == fnv_fold(
            FNV_OFFSET,
            id_stream(name, phase, fields),
        ),
        id_stream(name, phase, fields) != id_stream(other, phase, fields),
        id_stream(name, phase, fields) != id_stream(name, phase, fields.update(k, g)),
{
    let changed = fields.update(k, g);
    let n = str_bytes(name) + seq![phase.tag()];
    let tag = seq![phase.tag()];
    let none = Seq::<u8>::empty();
    lemma_fields_split(fields, k);
    lemma_fields_split(changed, k);
    assert(changed.take(k) =~= fields.take(k));
    assert(changed.skip(k + 1) =~= fields.skip(k + 1));
    let x = fields_stream(fields.take(k));
    let y = fields_stream(fields.skip(k + 1));
    let p = field_stream(fields[k]);
    let q = field_stream(g);
    lemma_field_told(fields[k], g);
    if id_stream(name, phase, fields) == id_stream(name, phase, changed) {
        lemma_three(n, x + p, y);
        lemma_three(n, x, p);
        lemma_three(n, x + q, y);
        lemma_three(n, x, q);
        lemma_cancel(n + x, p, q, y);
    }
    if id_stream(name, phase, fields) == id_stream(other, phase, fields) {
        let all = fields_stream(fields);
        lemma_three(str_bytes(name), tag, all);
        lemma_three(str_bytes(other), tag, all);
        assert(none + str_bytes(name) =~= str_bytes(name));
        assert(none + str_bytes(other) =~= str_bytes(other));
        lemma_cancel(none, str_bytes(name), str_bytes(other), tag + all);
        lemma_str_told(name, other);
    }
}

} // verus!
