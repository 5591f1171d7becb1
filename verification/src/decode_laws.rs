//! What a stored field decodes to, in the table and in the trace.

use crate::decode::{
    decode_field, decoded, field_slice, label_of, opt_value, signed, Value, ValueView,
};
use crate::intern::InternTable;
use crate::le::{le_bytes, lemma_le_bytes_len, lemma_le_round_trip, lemma_pow256_values, pow256};
use crate::schema::{FieldType, FieldView, LabelView};
use crate::text::{dec_text, digit, hex_bytes, hex_text, law_number_round_trip, number_of};
use crate::trace::{decode_json, Json, JsonView};
use crate::wire::OwnedField;
use vstd::prelude::*;

verus! {

/// A record's field bytes hold the given ones where the field stands.
pub open spec fn stores(f: FieldView, bytes: Seq<u8>, image: Seq<u8>) -> bool {
    &&& image.len() == f.width
    &&& f.offset + f.width <= bytes.len()
    &&& forall|k: int| 0 <= k < image.len() ==> bytes[f.offset + k] == #[trigger] image[k]
}

/// The bytes of the field are these.
proof fn lemma_stores(f: FieldView, bytes: Seq<u8>, image: Seq<u8>)
    requires
        stores(f, bytes, image),
    ensures
        field_slice(f, bytes) == Some(image),
{
    assert(bytes.subrange(f.offset as int, f.offset + f.width) =~= image);
}

/// The number of bytes of an unsigned type.
pub open spec fn unsigned_width(ty: FieldType) -> nat {
    match ty {
        FieldType::U8 => 1,
        FieldType::U16 => 2,
        FieldType::U32 => 4,
        FieldType::U64 => 8,
        _ => 0,
    }
}

/// The number of bytes of a signed type.
pub open spec fn signed_width(ty: FieldType) -> nat {
    match ty {
        FieldType::I8 => 1,
        FieldType::I16 => 2,
        FieldType::I32 => 4,
        FieldType::I64 => 8,
        _ => 0,
    }
}

/// An unsigned field that stores a number decodes to the number, or to nothing where the number is
/// the field's sentinel; a trace shows the number.
pub proof fn law_unsigned_decodes(
    field: &OwnedField,
    bytes: &[u8],
    intern: &InternTable,
    r: Option<Value>,
    j: Json,
    v: u64,
)
    requires
        call_ensures(decode_field, (field, bytes, intern), r),
        call_ensures(decode_json, (field, bytes, intern), j),
        unsigned_width(field.ty) > 0,
        v < pow256(unsigned_width(field.ty)),
        stores(field@, bytes@, le_bytes(v as nat, unsigned_width(field.ty))),
    ensures
        r == if field.sentinel == Some(v) {
            None::<Value>
        } else {
            Some(Value::U64(v))
        },
        j == Json::U64(v),
{
    let n = unsigned_width(field.ty);
    let image = le_bytes(v as nat, n);
    lemma_stores(field@, bytes@, image);
    lemma_le_bytes_len(v as nat, n);
    lemma_le_round_trip(v as nat, n);
    lemma_pow256_values();
    assert(image.take(n as int) =~= image);
    if n == 1 {
        reveal_with_fuel(le_bytes, 2);
        assert(image[0] == v % 256);
    }
    assert(opt_value(r) == decoded(field@, bytes@, intern@));
    match r {
        Some(Value::U64(_)) => {},
        _ => {},
    }
}

/// The bytes of a number in two's complement.
pub open spec fn signed_image(v: i64, n: nat) -> nat {
    if v >= 0 {
        v as nat
    } else {
        (v + pow256(n)) as nat
    }
}

/// A signed field that stores a number in two's complement decodes to the number, or to nothing
/// where its bytes are the field's sentinel; a trace shows the number.
pub proof fn law_signed_decodes(
    field: &OwnedField,
    bytes: &[u8],
    intern: &InternTable,
    r: Option<Value>,
    j: Json,
    v: i64,
)
    requires
        call_ensures(decode_field, (field, bytes, intern), r),
        call_ensures(decode_json, (field, bytes, intern), j),
        signed_width(field.ty) > 0,
        -(pow256(signed_width(field.ty)) / 2) <= v < pow256(signed_width(field.ty)) / 2,
        stores(
            field@,
            bytes@,
            le_bytes(signed_image(v, signed_width(field.ty)), signed_width(field.ty)),
        ),
    ensures
        r == if field.sentinel is Some && field.sentinel->0 == signed_image(
            v,
            signed_width(field.ty),
        ) {
            None::<Value>
        } else {
            Some(Value::I64(v))
        },
        j == Json::I64(v),
{
    let n = signed_width(field.ty);
    lemma_pow256_values();
    let raw = signed_image(v, n);
    let image = le_bytes(raw, n);
    lemma_stores(field@, bytes@, image);
    lemma_le_bytes_len(raw, n);
    lemma_le_round_trip(raw, n);
    assert(image.take(n as int) =~= image);
    assert(signed(image) == v);
    assert(opt_value(r) == decoded(field@, bytes@, intern@));
    match r {
        Some(Value::I64(_)) => {},
        _ => {},
    }
}

/// A truth value is false where its byte is 0, and true otherwise, in the table and in a trace.
pub proof fn law_bool_decodes(
    field: &OwnedField,
    bytes: &[u8],
    intern: &InternTable,
    r: Option<Value>,
    j: Json,
    b: u8,
)
    requires
        call_ensures(decode_field, (field, bytes, intern), r),
        call_ensures(decode_json, (field, bytes, intern), j),
        field.ty == FieldType::Bool,
        stores(field@, bytes@, seq![b]),
    ensures
        r == Some(Value::Bool(b != 0)),
        j == Json::Bool(b != 0),
{
    lemma_stores(field@, bytes@, seq![b]);
    assert(opt_value(r) == decoded(field@, bytes@, intern@));
}

/// The number that a hexadecimal digit stands for.
pub open spec fn digit_value(c: char) -> int {
    if '0' as int <= c as int <= '9' as int {
        c as int - '0' as int
    } else {
        c as int - 'a' as int + 10
    }
}

/// A text writes bytes, two hexadecimal digits for each, the high one first.
pub open spec fn writes_bytes(text: Seq<char>, bytes: Seq<u8>) -> bool {
    &&& text.len() == 2 * bytes.len()
    &&& forall|k: int|
        #![trigger bytes[k]]
        0 <= k < bytes.len() ==> 0 <= digit_value(text[2 * k]) < 16 && 0 <= digit_value(
            text[2 * k + 1],
        ) < 16 && bytes[k] == 16 * digit_value(text[2 * k]) + digit_value(text[2 * k + 1])
}

/// Two digits write a byte.
proof fn lemma_hex_byte(b: u8)
    ensures
        writes_bytes(hex_text(b as nat, 2), seq![b]),
{
    reveal_with_fuel(hex_text, 3);
    let t = hex_text(b as nat, 2);
    assert(t =~= seq![digit((b / 16) as nat % 16), digit((b % 16) as nat)]);
    assert forall|k: int| #![trigger seq![b][k]] 0 <= k < 1 implies 0 <= digit_value(t[2 * k]) < 16
        && 0 <= digit_value(t[2 * k + 1]) < 16 && seq![b][k] == 16 * digit_value(t[2 * k])
        + digit_value(t[2 * k + 1]) by {
        assert(k == 0);
    }
}

/// The digits of bytes write the bytes.
pub proof fn lemma_hex_bytes(bytes: Seq<u8>)
    ensures
        writes_bytes(hex_bytes(bytes), bytes),
    decreases bytes.len(),
{
    if bytes.len() > 0 {
        let init = bytes.drop_last();
        let n = bytes.len() - 1;
        lemma_hex_bytes(init);
        lemma_hex_byte(bytes[n]);
        let before = hex_bytes(init);
        let last = hex_text(bytes[n] as nat, 2);
        let text = hex_bytes(bytes);
        assert(seq![bytes[n]][0] == bytes[n]);
        assert(last.len() == 2);
        assert(text == before + last);
        assert(text.len() == 2 * bytes.len());
        assert forall|k: int| #![trigger bytes[k]] 0 <= k < bytes.len() implies 0 <= digit_value(
            text[2 * k],
        ) < 16 && 0 <= digit_value(text[2 * k + 1]) < 16 && bytes[k] == 16 * digit_value(
            text[2 * k],
        ) + digit_value(text[2 * k + 1]) by {
            if k < n {
                assert(init[k] == bytes[k]);
                assert(text[2 * k] == before[2 * k] && text[2 * k + 1] == before[2 * k + 1]);
            } else {
                assert(text[2 * n] == last[0] && text[2 * n + 1] == last[1]);
                assert(2 * 0 + 1 == 1int);
            }
        }
        assert(writes_bytes(text, bytes));
    } else {
        assert(hex_bytes(bytes).len() == 0);
        assert(writes_bytes(hex_bytes(bytes), bytes));
    }
}

/// Opaque bytes are shown as hexadecimal digits, the same in the table and in a trace.
pub proof fn law_bytes_decode(
    field: &OwnedField,
    bytes: &[u8],
    intern: &InternTable,
    r: Option<Value>,
    j: Json,
    image: Seq<u8>,
)
    requires
        call_ensures(decode_field, (field, bytes, intern), r),
        call_ensures(decode_json, (field, bytes, intern), j),
        field.ty == FieldType::Bytes,
        stores(field@, bytes@, image),
    ensures
        opt_value(r) matches Some(ValueView::Str(t)) && writes_bytes(t, image) && j@
            == JsonView::Str(t),
{
    lemma_stores(field@, bytes@, image);
    lemma_hex_bytes(image);
    assert(opt_value(r) == decoded(field@, bytes@, intern@));
}

/// A label is the first of a value.
pub open spec fn labelled(labels: Seq<LabelView>, v: u64, l: int) -> bool {
    &&& 0 <= l < labels.len()
    &&& labels[l].value == v
    &&& forall|m: int| 0 <= m < l ==> (#[trigger] labels[m]).value != v
}

/// Looking up a label.
proof fn lemma_label(labels: Seq<LabelView>, v: u64)
    ensures
        label_of(labels, v) matches Some(t) ==> exists|l: int| #[trigger]
            labelled(labels, v, l) && labels[l].label == t,
        forall|l: int| #[trigger]
            labelled(labels, v, l) ==> label_of(labels, v) == Some(labels[l].label),
        (forall|m: int| 0 <= m < labels.len() ==> (#[trigger] labels[m]).value != v) ==> label_of(
            labels,
            v,
        ) is None,
    decreases labels.len(),
{
    if labels.len() > 0 {
        let tail = labels.skip(1);
        lemma_label(tail, v);
        if labels[0].value == v {
            assert(labelled(labels, v, 0));
            assert forall|l: int| #[trigger] labelled(labels, v, l) implies label_of(labels, v)
                == Some(labels[l].label) by {
                if l > 0 {
                    assert(labels[0].value != v);
                }
            }
        } else {
            if let Some(t) = label_of(tail, v) {
                let l = choose|l: int| #[trigger] labelled(tail, v, l) && tail[l].label == t;
                assert forall|m: int| 0 <= m < l + 1 implies (#[trigger] labels[m]).value != v by {
                    if m > 0 {
                        assert(tail[m - 1] == labels[m]);
                    }
                }
                assert(labelled(labels, v, l + 1));
            }
            assert forall|l: int| #[trigger] labelled(labels, v, l) implies label_of(labels, v)
                == Some(labels[l].label) by {
                assert forall|m: int| 0 <= m < l - 1 implies (#[trigger] tail[m]).value != v by {
                    assert(tail[m] == labels[m + 1]);
                }
                assert(labelled(tail, v, l - 1));
            }
            if forall|m: int| 0 <= m < labels.len() ==> (#[trigger] labels[m]).value != v {
                assert forall|m: int| 0 <= m < tail.len() implies (#[trigger] tail[m]).value
                    != v by {
                    assert(tail[m] == labels[m + 1]);
                }
            }
        }
    }
}

/// An enum field is shown by the label of its value, the first one if there are several, the same in
/// the table and in a trace. A value without a label is shown as its number.
pub proof fn law_enum_decodes(
    field: &OwnedField,
    bytes: &[u8],
    intern: &InternTable,
    r: Option<Value>,
    j: Json,
    v: u64,
    repr: u8,
)
    requires
        call_ensures(decode_field, (field, bytes, intern), r),
        call_ensures(decode_json, (field, bytes, intern), j),
        field.ty == (FieldType::Enum { repr }),
        repr <= 8,
        v < pow256(repr as nat),
        stores(field@, bytes@, le_bytes(v as nat, repr as nat)),
    ensures
        field.sentinel == Some(v) ==> r is None,
        field.sentinel != Some(v) ==> opt_value(r) matches Some(ValueView::Str(_)),
        forall|l: int| #[trigger]
            labelled(field@.labels, v, l) ==> j@ == JsonView::Str(field@.labels[l].label) && (
            field.sentinel != Some(v) ==> opt_value(r) == Some(
                ValueView::Str(field@.labels[l].label),
            )),
        (forall|m: int| 0 <= m < field@.labels.len() ==> (#[trigger] field@.labels[m]).value != v)
            ==> j == Json::U64(v) && (opt_value(r) matches Some(ValueView::Str(t)) ==> number_of(t)
            == Some(v as nat)),
{
    let n = repr as nat;
    let image = le_bytes(v as nat, n);
    lemma_stores(field@, bytes@, image);
    lemma_le_bytes_len(v as nat, n);
    lemma_le_round_trip(v as nat, n);
    lemma_label(field@.labels, v);
    law_number_round_trip(v as nat);
    assert(image.take(n as int) =~= image);
    assert(opt_value(r) == decoded(field@, bytes@, intern@));
}

/// An interned field is shown by the text of its id, the same in the table and in a trace. An id
/// without a text is shown as `#` and its number.
pub proof fn law_interned_decodes(
    field: &OwnedField,
    bytes: &[u8],
    intern: &InternTable,
    r: Option<Value>,
    j: Json,
    id: u32,
    dynamic: bool,
)
    requires
        call_ensures(decode_field, (field, bytes, intern), r),
        call_ensures(decode_json, (field, bytes, intern), j),
        field.ty == (FieldType::Interned { dynamic }),
        stores(field@, bytes@, le_bytes(id as nat, 4)),
    ensures
        opt_value(r) matches Some(ValueView::Str(t)) && j@ == JsonView::Str(t) && (
        intern@.dom().contains(id) ==> t == intern@[id]) && (!intern@.dom().contains(id) ==> t.len()
            > 0 && t[0] == '#' && number_of(t.skip(1)) == Some(id as nat)),
{
    let image = le_bytes(id as nat, 4);
    lemma_pow256_values();
    lemma_stores(field@, bytes@, image);
    lemma_le_bytes_len(id as nat, 4);
    lemma_le_round_trip(id as nat, 4);
    law_number_round_trip(id as nat);
    reveal_strlit("#");
    assert(image.take(4) =~= image);
    assert(("#"@ + dec_text(id as nat)).skip(1) =~= dec_text(id as nat));
    assert(opt_value(r) == decoded(field@, bytes@, intern@));
}

/// A field whose bytes are not all there is absent, and null in a trace.
pub proof fn law_short_records_decode_to_nothing(
    field: &OwnedField,
    bytes: &[u8],
    intern: &InternTable,
    r: Option<Value>,
    j: Json,
)
    requires
        call_ensures(decode_field, (field, bytes, intern), r),
        call_ensures(decode_json, (field, bytes, intern), j),
        field.offset + field.width > bytes@.len(),
    ensures
        r is None,
        j == Json::Null,
{
    assert(opt_value(r) == decoded(field@, bytes@, intern@));
}

} // verus!
