//! Decoding a field's raw bytes by its schema.

use crate::intern::InternTable;
use crate::le::{get_le, le_value, lemma_le_value_bound, lemma_pow256_increases, lemma_pow256_values, pow256};
use crate::schema::{FieldType, FieldView, LabelView};
use crate::text::{dec, dec_text, hex, hex_bytes, push_dec};
use crate::wire::{owned_labels_view, OwnedEnumLabel, OwnedField};
use vstd::prelude::*;
use vstd::slice::slice_subrange;

verus! {

/// A decoded field value, mapped onto one of the table's four column kinds.
#[derive(Clone, Debug, PartialEq, Eq)]
pub enum Value {
    U64(u64),
    I64(i64),
    Bool(bool),
    Str(String),
}

/// The value of a decoded field.
#[verifier::ext_equal]
pub enum ValueView {
    U64(u64),
    I64(i64),
    Bool(bool),
    Str(Seq<char>),
}

impl View for Value {
    type V = ValueView;

    open spec fn view(&self) -> ValueView {
        match self {
            Value::U64(v) => ValueView::U64(*v),
            Value::I64(v) => ValueView::I64(*v),
            Value::Bool(v) => ValueView::Bool(*v),
            Value::Str(v) => ValueView::Str(v@),
        }
    }
}

/// The value of an optional decoded field.
pub open spec fn opt_value(v: Option<Value>) -> Option<ValueView> {
    match v {
        Some(v) => Some(v@),
        None => None,
    }
}

/// The bytes of a field within a record's field bytes, if they are all there.
pub open spec fn field_slice(f: FieldView, bytes: Seq<u8>) -> Option<Seq<u8>> {
    if f.offset + f.width <= bytes.len() {
        Some(bytes.subrange(f.offset as int, f.offset + f.width))
    } else {
        None
    }
}

/// The number that `n` little-endian bytes hold in two's complement.
pub open spec fn signed(s: Seq<u8>) -> int {
    if le_value(s) < pow256(s.len()) / 2 {
        le_value(s) as int
    } else {
        le_value(s) - pow256(s.len())
    }
}

/// The first label of a value.
pub open spec fn label_of(labels: Seq<LabelView>, value: u64) -> Option<Seq<char>>
    decreases labels.len(),
{
    if labels.len() == 0 {
        None
    } else if labels[0].value == value {
        Some(labels[0].label)
    } else {
        label_of(labels.skip(1), value)
    }
}

/// What an interned id reads as: its text, or `#` and the id where there is none.
pub open spec fn interned_text(intern: Map<u32, Seq<char>>, id: u32) -> Seq<char> {
    if intern.dom().contains(id) {
        intern[id]
    } else {
        "#"@ + dec_text(id as nat)
    }
}

/// The first label of a value.
pub(crate) fn find_label(labels: &Vec<OwnedEnumLabel>, value: u64) -> (r: Option<&String>)
    ensures
        match r {
            Some(t) => label_of(owned_labels_view(labels@), value) == Some(t@),
            None => label_of(owned_labels_view(labels@), value) is None,
        },
{
    let ghost view = owned_labels_view(labels@);
    let mut i: usize = 0;
    assert(view.skip(0) =~= view);
    while i < labels.len()
        invariant
            i <= labels@.len(),
            view == owned_labels_view(labels@),
            label_of(view, value) == label_of(view.skip(i as int), value),
        decreases labels@.len() - i,
    {
        assert(view.skip(i as int)[0] == labels@[i as int]@);
        if labels[i].value == value {
            return Some(&labels[i].label);
        }
        assert(view.skip(i as int).skip(1) =~= view.skip(i + 1));
        i = i + 1;
    }
    None
}

/// What an interned id reads as.
pub(crate) fn resolve(intern: &InternTable, id: u32) -> (s: String)
    ensures
        s@ == interned_text(intern@, id),
{
    match intern.get(id) {
        Some(t) => t.clone(),
        None => {
            let mut s = String::new();
            s.append("#");
            push_dec(&mut s, id as u64);
            assert(s@ =~= "#"@ + dec_text(id as nat));
            s
        },
    }
}

/// The bytes of a field within a record's field bytes, if they are all there.
pub(crate) fn slice_of<'a>(field: &OwnedField, bytes: &'a [u8]) -> (r: Option<&'a [u8]>)
    ensures
        match r {
            Some(s) => field_slice(field@, bytes@) == Some(s@),
            None => field_slice(field@, bytes@) is None,
        },
{
    let start: usize = field.offset as usize;
    let end: usize = start + field.width as usize;
    if end <= bytes.len() {
        Some(slice_subrange(bytes, start, end))
    } else {
        None
    }
}

/// The number that one, two, four or eight little-endian bytes hold in two's complement.
pub(crate) fn get_signed(s: &[u8]) -> (v: i64)
    requires
        s@.len() == 1 || s@.len() == 2 || s@.len() == 4 || s@.len() == 8,
    ensures
        v == signed(s@),
{
    let raw: u64 = get_le(s);
    proof {
        lemma_pow256_values();
        lemma_le_value_bound(s@);
    }
    if s.len() == 1 {
        if raw < 0x80 {
            raw as i64
        } else {
            raw as i64 - 0x100
        }
    } else if s.len() == 2 {
        if raw < 0x8000 {
            raw as i64
        } else {
            raw as i64 - 0x1_0000
        }
    } else if s.len() == 4 {
        if raw < 0x8000_0000 {
            raw as i64
        } else {
            raw as i64 - 0x1_0000_0000
        }
    } else {
        if raw < 0x8000_0000_0000_0000 {
            raw as i64
        } else {
            (raw - 0x8000_0000_0000_0000) as i64 + i64::MIN
        }
    }
}

/// Reads a little-endian unsigned integer of `width` bytes at the front of `slice`. There is none
/// where the slice is shorter or the width exceeds eight bytes.
pub(crate) fn read_uint(slice: &[u8], width: usize) -> (r: Option<u64>)
    ensures
        match r {
            Some(v) => width <= 8 && width <= slice@.len() && v == le_value(
                slice@.take(width as int),
            ),
            None => width > 8 || width > slice@.len(),
        },
{
    if width > 8 || width > slice.len() {
        return None;
    }
    let part = slice_subrange(slice, 0, width);
    assert(part@ =~= slice@.take(width as int));
    Some(get_le(part))
}

/// A field type that holds a bare number.
pub open spec fn is_number(ty: FieldType) -> bool {
    match ty {
        FieldType::Bool | FieldType::Bytes | FieldType::Interned { .. } => false,
        _ => true,
    }
}

/// The bytes of a field hold its "absent" marker.
pub open spec fn is_absent(f: FieldView, slice: Seq<u8>) -> bool {
    match f.sentinel {
        Some(v) => is_number(f.ty) && slice.len() <= 8 && le_value(slice) == v,
        None => false,
    }
}

/// What the bytes of a field decode to, its "absent" marker aside.
pub open spec fn slice_value(
    f: FieldView,
    slice: Seq<u8>,
    intern: Map<u32, Seq<char>>,
) -> Option<ValueView> {
    match f.ty {
        FieldType::U8 => if slice.len() >= 1 {
            Some(ValueView::U64(slice[0] as u64))
        } else {
            None
        },
        FieldType::U16 => if slice.len() == 2 {
            Some(ValueView::U64(le_value(slice) as u64))
        } else {
            None
        },
        FieldType::U32 => if slice.len() == 4 {
            Some(ValueView::U64(le_value(slice) as u64))
        } else {
            None
        },
        FieldType::U64 => if slice.len() == 8 {
            Some(ValueView::U64(le_value(slice) as u64))
        } else {
            None
        },
        FieldType::I8 => if slice.len() >= 1 {
            Some(ValueView::I64(signed(slice.take(1)) as i64))
        } else {
            None
        },
        FieldType::I16 => if slice.len() == 2 {
            Some(ValueView::I64(signed(slice) as i64))
        } else {
            None
        },
        FieldType::I32 => if slice.len() == 4 {
            Some(ValueView::I64(signed(slice) as i64))
        } else {
            None
        },
        FieldType::I64 => if slice.len() == 8 {
            Some(ValueView::I64(signed(slice) as i64))
        } else {
            None
        },
        FieldType::Bool => if slice.len() >= 1 {
            Some(ValueView::Bool(slice[0] != 0))
        } else {
            None
        },
        FieldType::Bytes => Some(ValueView::Str(hex_bytes(slice))),
        FieldType::Enum { repr } => if repr <= 8 && repr <= slice.len() {
            let raw = le_value(slice.take(repr as int)) as u64;
            Some(
                ValueView::Str(
                    match label_of(f.labels, raw) {
                        Some(t) => t,
                        None => dec_text(raw as nat),
                    },
                ),
            )
        } else {
            None
        },
        FieldType::Interned { .. } => if slice.len() >= 4 {
            Some(ValueView::Str(interned_text(intern, le_value(slice.take(4)) as u32)))
        } else {
            None
        },
    }
}

/// What a field decodes to: nothing where its bytes are not all there, do not fit its type, or hold
/// its "absent" marker.
pub open spec fn decoded(
    f: FieldView,
    bytes: Seq<u8>,
    intern: Map<u32, Seq<char>>,
) -> Option<ValueView> {
    match field_slice(f, bytes) {
        Some(slice) => if is_absent(f, slice) {
            None
        } else {
            slice_value(f, slice, intern)
        },
        None => None,
    }
}

/// Whether the bytes of a field hold its "absent" marker.
fn holds_sentinel(field: &OwnedField, slice: &[u8]) -> (r: bool)
    ensures
        r == is_absent(field@, slice@),
{
    match field.sentinel {
        Some(v) => {
            let number = match field.ty {
                FieldType::Bool | FieldType::Bytes | FieldType::Interned { .. } => false,
                _ => true,
            };
            number && slice.len() <= 8 && get_le(slice) == v
        },
        None => false,
    }
}

/// Decodes a field from a record's field bytes: `None` if the bytes are too short or do not fit the
/// type, or where they hold the field's sentinel.
pub fn decode_field(field: &OwnedField, bytes: &[u8], intern: &InternTable) -> (r: Option<Value>)
    ensures
        opt_value(r) == decoded(field@, bytes@, intern@),
{
    let slice = match slice_of(field, bytes) {
        Some(s) => s,
        None => return None,
    };
    if holds_sentinel(field, slice) {
        return None;
    }
    proof {
        lemma_pow256_values();
        lemma_le_value_bound(slice@);
    }
    match field.ty {
        FieldType::U8 => if slice.len() >= 1 {
            Some(Value::U64(slice[0] as u64))
        } else {
            None
        },
        FieldType::U16 => if slice.len() == 2 {
            Some(Value::U64(get_le(slice)))
        } else {
            None
        },
        FieldType::U32 => if slice.len() == 4 {
            Some(Value::U64(get_le(slice)))
        } else {
            None
        },
        FieldType::U64 => if slice.len() == 8 {
            Some(Value::U64(get_le(slice)))
        } else {
            None
        },
        FieldType::I8 => if slice.len() >= 1 {
            let first = slice_subrange(slice, 0, 1);
            assert(first@ =~= slice@.take(1));
            Some(Value::I64(get_signed(first)))
        } else {
            None
        },
        FieldType::I16 => if slice.len() == 2 {
            Some(Value::I64(get_signed(slice)))
        } else {
            None
        },
        FieldType::I32 => if slice.len() == 4 {
            Some(Value::I64(get_signed(slice)))
        } else {
            None
        },
        FieldType::I64 => if slice.len() == 8 {
            Some(Value::I64(get_signed(slice)))
        } else {
            None
        },
        FieldType::Bool => if slice.len() >= 1 {
            Some(Value::Bool(slice[0] != 0))
        } else {
            None
        },
        FieldType::Bytes => Some(Value::Str(hex(slice))),
        FieldType::Enum { repr } => match read_uint(slice, repr as usize) {
            Some(raw) => match find_label(&field.enum_labels, raw) {
                Some(label) => Some(Value::Str(label.clone())),
                None => Some(Value::Str(dec(raw))),
            },
            None => None,
        },
        FieldType::Interned { .. } => match read_uint(slice, 4) {
            Some(id) => {
                proof {
                    lemma_le_value_bound(slice@.take(4));
                }
                Some(Value::Str(resolve(intern, id as u32)))
            },
            None => None,
        },
    }
}

/// A field whose bytes hold its "absent" marker decodes to nothing, whatever its type would make of
/// them.
pub proof fn law_sentinel_is_null(f: FieldView, bytes: Seq<u8>, intern: Map<u32, Seq<char>>)
    requires
        is_number(f.ty),
        f.width <= 8,
        f.offset + f.width <= bytes.len(),
        f.sentinel == Some(
            le_value(bytes.subrange(f.offset as int, f.offset + f.width)) as u64,
        ),
    ensures
        decoded(f, bytes, intern) is None,
{
    let slice = bytes.subrange(f.offset as int, f.offset + f.width);
    lemma_pow256_values();
    lemma_le_value_bound(slice);
    lemma_pow256_increases(slice.len(), 8);
}

} // verus!
