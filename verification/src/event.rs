//! The [`Event`] trait tying a struct to its schema and its bytes.

use crate::id::EventId;
use crate::schema::{EnumLabel, EventSchema, FieldType};
use vstd::prelude::*;

verus! {

/// A type that can be recorded: one described by an [`EventSchema`], whose values are captured by
/// copying their bytes.
pub trait Event {
    /// The self-describing layout of this event.
    fn schema() -> EventSchema;

    /// The event's stable id, a hash over its full schema. It is the `event_id` that the recorder
    /// writes ahead of the field bytes.
    fn id() -> EventId;

    /// The fully-qualified event name, `"namespace::TypeName"`.
    fn qualified_name() -> &'static str;

    /// The bytes of the value's fields, as the schema lays them out.
    fn as_bytes(&self) -> &[u8];
}

/// A fieldless enum usable as an event field.
pub trait EventEnum {
    /// Width of the discriminant in bytes (1, 2, 4, or 8).
    fn repr() -> u8;

    /// The value-to-label map for every variant, in declaration order.
    fn enum_labels() -> &'static [EnumLabel];
}

/// How a Rust type appears as an event field.
pub trait FieldTy {
    /// How the reader should interpret this field's bytes.
    fn field_type() -> FieldType;

    /// The enum value-to-label map, or empty for non-enum types.
    fn labels() -> &'static [EnumLabel];
}

/// Every `EventEnum` is usable as a field: an [`Enum`](FieldType::Enum) of its repr width carrying
/// its labels.
impl<T: EventEnum> FieldTy for T {
    fn field_type() -> (ty: FieldType)
        ensures
            exists|r: u8| call_ensures(T::repr, (), r) && ty == (FieldType::Enum { repr: r }),
    {
        FieldType::Enum { repr: T::repr() }
    }

    fn labels() -> (l: &'static [EnumLabel])
        ensures
            call_ensures(T::enum_labels, (), l),
    {
        T::enum_labels()
    }
}

impl FieldTy for u8 {
    fn field_type() -> (ty: FieldType)
        ensures
            ty == FieldType::U8,
    {
        FieldType::U8
    }

    fn labels() -> (l: &'static [EnumLabel])
        ensures
            l@.len() == 0,
    {
        &[]
    }
}

impl FieldTy for u16 {
    fn field_type() -> (ty: FieldType)
        ensures
            ty == FieldType::U16,
    {
        FieldType::U16
    }

    fn labels() -> (l: &'static [EnumLabel])
        ensures
            l@.len() == 0,
    {
        &[]
    }
}

impl FieldTy for u32 {
    fn field_type() -> (ty: FieldType)
        ensures
            ty == FieldType::U32,
    {
        FieldType::U32
    }

    fn labels() -> (l: &'static [EnumLabel])
        ensures
            l@.len() == 0,
    {
        &[]
    }
}

impl FieldTy for u64 {
    fn field_type() -> (ty: FieldType)
        ensures
            ty == FieldType::U64,
    {
        FieldType::U64
    }

    fn labels() -> (l: &'static [EnumLabel])
        ensures
            l@.len() == 0,
    {
        &[]
    }
}

impl FieldTy for i8 {
    fn field_type() -> (ty: FieldType)
        ensures
            ty == FieldType::I8,
    {
        FieldType::I8
    }

    fn labels() -> (l: &'static [EnumLabel])
        ensures
            l@.len() == 0,
    {
        &[]
    }
}

impl FieldTy for i16 {
    fn field_type() -> (ty: FieldType)
        ensures
            ty == FieldType::I16,
    {
        FieldType::I16
    }

    fn labels() -> (l: &'static [EnumLabel])
        ensures
            l@.len() == 0,
    {
        &[]
    }
}

impl FieldTy for i32 {
    fn field_type() -> (ty: FieldType)
        ensures
            ty == FieldType::I32,
    {
        FieldType::I32
    }

    fn labels() -> (l: &'static [EnumLabel])
        ensures
            l@.len() == 0,
    {
        &[]
    }
}

impl FieldTy for i64 {
    fn field_type() -> (ty: FieldType)
        ensures
            ty == FieldType::I64,
    {
        FieldType::I64
    }

    fn labels() -> (l: &'static [EnumLabel])
        ensures
            l@.len() == 0,
    {
        &[]
    }
}

impl FieldTy for bool {
    fn field_type() -> (ty: FieldType)
        ensures
            ty == FieldType::Bool,
    {
        FieldType::Bool
    }

    fn labels() -> (l: &'static [EnumLabel])
        ensures
            l@.len() == 0,
    {
        &[]
    }
}

/// A fixed-width byte array field, rendered as hex.
impl<const N: usize> FieldTy for [u8; N] {
    fn field_type() -> (ty: FieldType)
        ensures
            ty == FieldType::Bytes,
    {
        FieldType::Bytes
    }

    fn labels() -> (l: &'static [EnumLabel])
        ensures
            l@.len() == 0,
    {
        &[]
    }
}

} // verus!
