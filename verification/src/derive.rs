//! What deriving an event or an event enum from a declaration gives.
//!
//! A declaration is held as plain values: its name, its attributes in order, and its fields or
//! variants. [`expand`] checks it and plans the event's schema; [`expand_event_enum`] does so for an
//! enum that is used as a field. Expressions, types and paths are carried through as text.

use crate::le::{le_bytes, le_value, lemma_le_bytes_len, lemma_pow256_values, pow256};
use crate::schema::{FieldRole, Phase};
use crate::text::{same_text, trim, trimmed};
use crate::wire::opt_string;
use vstd::prelude::*;

verus! {

// ---------------------------------------------------------------------------
// Declarations.
// ---------------------------------------------------------------------------

/// One entry of an `event` attribute.
pub enum Meta {
    Key,
    SpanId,
    ParentSpanId,
    /// `unit = "…"`.
    Unit(String),
    /// `sentinel = <expr>`.
    Sentinel(String),
    /// `interned`, with the names in its brackets.
    Interned(Vec<String>),
    /// `namespace = "…"`.
    Namespace(String),
    /// `crate = <path>`.
    Crate(String),
    /// `span = <name>`.
    Span(String),
    /// An entry that cannot be read, with the number under which its reader keeps the fault.
    Malformed(usize),
    /// Anything else.
    Other,
}

/// Where an attribute stands.
#[derive(Clone, Copy, Debug, PartialEq, Eq, Structural)]
pub enum Place {
    /// On an event.
    Event,
    /// On a field of an event.
    Field,
    /// On an event enum.
    EventEnum,
}

/// Which attribute it is.
#[derive(Clone, Copy, Debug, PartialEq, Eq, Structural)]
pub enum AttrKind {
    Doc,
    Repr,
    Event,
    Other,
}

/// Which entry of an `event` attribute it is, and so what is to be read behind its name.
#[derive(Clone, Copy, Debug, PartialEq, Eq, Structural)]
pub enum EntryKind {
    Key,
    SpanId,
    ParentSpanId,
    Unit,
    Sentinel,
    Interned,
    Namespace,
    Crate,
    Span,
    /// One that does not belong at the place; nothing behind its name matters.
    Other,
}

/// The attribute of the given name. The representation matters of an event enum only.
pub open spec fn attr_named(place: Place, name: Seq<char>) -> AttrKind {
    if name == "event"@ {
        AttrKind::Event
    } else if name == "doc"@ {
        AttrKind::Doc
    } else if name == "repr"@ && place == Place::EventEnum {
        AttrKind::Repr
    } else {
        AttrKind::Other
    }
}

/// Tells attributes apart by their names.
pub fn attr_kind(place: Place, name: &str) -> (k: AttrKind)
    ensures
        k == attr_named(place, name@),
{
    if same_text(name, "event") {
        AttrKind::Event
    } else if same_text(name, "doc") {
        AttrKind::Doc
    } else if same_text(name, "repr") && place == Place::EventEnum {
        AttrKind::Repr
    } else {
        AttrKind::Other
    }
}

/// The entry of the given name, at the places where it belongs.
pub open spec fn entry_named(place: Place, name: Seq<char>) -> EntryKind {
    match place {
        Place::Event => if name == "namespace"@ {
            EntryKind::Namespace
        } else if name == "crate"@ {
            EntryKind::Crate
        } else if name == "span"@ {
            EntryKind::Span
        } else {
            EntryKind::Other
        },
        Place::Field => if name == "key"@ {
            EntryKind::Key
        } else if name == "span_id"@ {
            EntryKind::SpanId
        } else if name == "parent_span_id"@ {
            EntryKind::ParentSpanId
        } else if name == "unit"@ {
            EntryKind::Unit
        } else if name == "sentinel"@ {
            EntryKind::Sentinel
        } else if name == "interned"@ {
            EntryKind::Interned
        } else {
            EntryKind::Other
        },
        Place::EventEnum => if name == "crate"@ {
            EntryKind::Crate
        } else {
            EntryKind::Other
        },
    }
}

/// Tells the entries of an `event` attribute apart by their names.
pub fn entry_kind(place: Place, name: &str) -> (k: EntryKind)
    ensures
        k == entry_named(place, name@),
{
    match place {
        Place::Event => if same_text(name, "namespace") {
            EntryKind::Namespace
        } else if same_text(name, "crate") {
            EntryKind::Crate
        } else if same_text(name, "span") {
            EntryKind::Span
        } else {
            EntryKind::Other
        },
        Place::Field => if same_text(name, "key") {
            EntryKind::Key
        } else if same_text(name, "span_id") {
            EntryKind::SpanId
        } else if same_text(name, "parent_span_id") {
            EntryKind::ParentSpanId
        } else if same_text(name, "unit") {
            EntryKind::Unit
        } else if same_text(name, "sentinel") {
            EntryKind::Sentinel
        } else if same_text(name, "interned") {
            EntryKind::Interned
        } else {
            EntryKind::Other
        },
        Place::EventEnum => if same_text(name, "crate") {
            EntryKind::Crate
        } else {
            EntryKind::Other
        },
    }
}

/// An attribute of a declaration, a field or a variant.
pub enum Attr {
    /// A line of a doc comment.
    Doc(String),
    /// The names in a `repr` attribute.
    Repr(Vec<String>),
    /// The entries of an `event` attribute.
    Event(Vec<Meta>),
    /// A `repr` attribute that cannot be read, with the number under which its reader keeps the
    /// fault.
    Malformed(usize),
    /// Any other attribute.
    Other,
}

/// What matters of a field's type.
#[derive(Clone, Copy, Debug, PartialEq, Eq, Structural)]
pub enum TypeKind {
    /// The bare `u64`.
    U64,
    /// The bare `bool`.
    Bool,
    /// An array.
    Array,
    /// Any other type.
    Other,
}

/// A field of a declaration.
pub struct FieldItem {
    pub name: String,
    pub attrs: Vec<Attr>,
    /// The type as it is written.
    pub ty: String,
    pub kind: TypeKind,
}

/// A variant of a declaration.
pub struct VariantItem {
    pub name: String,
    /// Whether the variant has no fields.
    pub unit: bool,
    /// The explicit discriminant as it is written.
    pub discriminant: Option<String>,
}

/// The body of a declaration.
pub enum Body {
    /// A struct with named fields; a unit struct has none.
    Struct(Vec<FieldItem>),
    /// A tuple struct.
    Tuple,
    /// An enum.
    Enum(Vec<VariantItem>),
    /// A union.
    Union,
}

/// A declaration.
pub struct Item {
    pub name: String,
    pub attrs: Vec<Attr>,
    pub body: Body,
}

/// Why a declaration cannot be derived from.
#[derive(Clone, Copy, Debug, PartialEq, Eq, Structural)]
pub enum DeriveError {
    UnknownContainerAttribute,
    DuplicateCrate,
    SpanNotEnterOrExit,
    MissingNamespace,
    NotAStruct,
    UnnamedFields,
    UnknownFieldAttribute,
    SecondRole,
    ExpectedDynamic,
    SpanIdNotU64,
    ParentSpanIdNotU64,
    SentinelOnInterned,
    SentinelNotInteger,
    SecondSpanId,
    SecondParentSpanId,
    SpanWithoutSpanId,
    SpanIdWithoutSpan,
    UnknownEnumAttribute,
    NotAnEnum,
    MissingRepr,
    VariantWithFields,
    MissingDiscriminant,
    /// An attribute cannot be read; its reader keeps the fault under this number.
    Malformed(usize),
}

impl DeriveError {
    /// What to tell the author of the declaration.
    pub open spec fn text(self) -> Seq<char> {
        match self {
            DeriveError::UnknownContainerAttribute => "unknown container-level `#[event(...)]` attribute"@,
            DeriveError::DuplicateCrate => "duplicate `crate` in `#[event(...)]`"@,
            DeriveError::SpanNotEnterOrExit => "`span` must be `enter` or `exit`"@,
            DeriveError::MissingNamespace => "`#[derive(Event)]` requires `#[event(namespace = \"...\")]`"@,
            DeriveError::NotAStruct => "`#[derive(Event)]` can only be applied to a struct"@,
            DeriveError::UnnamedFields => "`#[derive(Event)]` requires named fields (tuple structs have no field names to use as column names)"@,
            DeriveError::UnknownFieldAttribute => "unknown `#[event(...)]` field attribute"@,
            DeriveError::SecondRole => "a field may have at most one role (`key` / `span_id` / `parent_span_id` are mutually exclusive)"@,
            DeriveError::ExpectedDynamic => "expected `dynamic`"@,
            DeriveError::SpanIdNotU64 => "`#[event(span_id)]` fields must be `u64` (span ids are compared for equality across the enter/exit events, so they need a uniform width)"@,
            DeriveError::ParentSpanIdNotU64 => "`#[event(parent_span_id)]` fields must be `u64` (span ids are compared for equality across the enter/exit events, so they need a uniform width)"@,
            DeriveError::SentinelOnInterned => "`#[event(sentinel = …)]` is not valid on an interned field (it marks an absent *integer*, compared against the raw value)"@,
            DeriveError::SentinelNotInteger => "`#[event(sentinel = …)]` is only valid on an integer field (the sentinel is an in-band absent marker compared against the raw integer value)"@,
            DeriveError::SecondSpanId => "an event may declare at most one `#[event(span_id)]` field"@,
            DeriveError::SecondParentSpanId => "an event may declare at most one `#[event(parent_span_id)]` field"@,
            DeriveError::SpanWithoutSpanId => "`#[event(span = enter|exit)]` requires exactly one `#[event(span_id)]` field"@,
            DeriveError::SpanIdWithoutSpan => "`#[event(span_id)]` requires the event to be a span (`#[event(span = enter)]` or `#[event(span = exit)]`)"@,
            DeriveError::UnknownEnumAttribute => "unknown `#[event(...)]` attribute (`#[derive(EventEnum)]` only accepts `crate = <path>`)"@,
            DeriveError::NotAnEnum => "`#[derive(EventEnum)]` can only be applied to an enum"@,
            DeriveError::MissingRepr => "`#[derive(EventEnum)]` requires an explicit `#[repr(u8|u16|u32|u64)]`"@,
            DeriveError::VariantWithFields => "`#[derive(EventEnum)]` requires fieldless variants"@,
            DeriveError::MissingDiscriminant => "`#[derive(EventEnum)]` requires an explicit discriminant, e.g. `Variant = 0` (the value is part of the event's on-disk identity)"@,
            DeriveError::Malformed(_) => "malformed attribute"@,
        }
    }

    /// What to tell the author of the declaration.
    pub fn message(self) -> (s: &'static str)
        ensures
            s@ == self.text(),
    {
        match self {
            DeriveError::UnknownContainerAttribute => "unknown container-level `#[event(...)]` attribute",
            DeriveError::DuplicateCrate => "duplicate `crate` in `#[event(...)]`",
            DeriveError::SpanNotEnterOrExit => "`span` must be `enter` or `exit`",
            DeriveError::MissingNamespace => "`#[derive(Event)]` requires `#[event(namespace = \"...\")]`",
            DeriveError::NotAStruct => "`#[derive(Event)]` can only be applied to a struct",
            DeriveError::UnnamedFields => "`#[derive(Event)]` requires named fields (tuple structs have no field names to use as column names)",
            DeriveError::UnknownFieldAttribute => "unknown `#[event(...)]` field attribute",
            DeriveError::SecondRole => "a field may have at most one role (`key` / `span_id` / `parent_span_id` are mutually exclusive)",
            DeriveError::ExpectedDynamic => "expected `dynamic`",
            DeriveError::SpanIdNotU64 => "`#[event(span_id)]` fields must be `u64` (span ids are compared for equality across the enter/exit events, so they need a uniform width)",
            DeriveError::ParentSpanIdNotU64 => "`#[event(parent_span_id)]` fields must be `u64` (span ids are compared for equality across the enter/exit events, so they need a uniform width)",
            DeriveError::SentinelOnInterned => "`#[event(sentinel = …)]` is not valid on an interned field (it marks an absent *integer*, compared against the raw value)",
            DeriveError::SentinelNotInteger => "`#[event(sentinel = …)]` is only valid on an integer field (the sentinel is an in-band absent marker compared against the raw integer value)",
            DeriveError::SecondSpanId => "an event may declare at most one `#[event(span_id)]` field",
            DeriveError::SecondParentSpanId => "an event may declare at most one `#[event(parent_span_id)]` field",
            DeriveError::SpanWithoutSpanId => "`#[event(span = enter|exit)]` requires exactly one `#[event(span_id)]` field",
            DeriveError::SpanIdWithoutSpan => "`#[event(span_id)]` requires the event to be a span (`#[event(span = enter)]` or `#[event(span = exit)]`)",
            DeriveError::UnknownEnumAttribute => "unknown `#[event(...)]` attribute (`#[derive(EventEnum)]` only accepts `crate = <path>`)",
            DeriveError::NotAnEnum => "`#[derive(EventEnum)]` can only be applied to an enum",
            DeriveError::MissingRepr => "`#[derive(EventEnum)]` requires an explicit `#[repr(u8|u16|u32|u64)]`",
            DeriveError::VariantWithFields => "`#[derive(EventEnum)]` requires fieldless variants",
            DeriveError::MissingDiscriminant => "`#[derive(EventEnum)]` requires an explicit discriminant, e.g. `Variant = 0` (the value is part of the event's on-disk identity)",
            DeriveError::Malformed(_) => "malformed attribute",
        }
    }
}

// ---------------------------------------------------------------------------
// Plans.
// ---------------------------------------------------------------------------

/// What a field contributes to the event's schema. Its offset and width come from the layout of its
/// type.
pub struct FieldPlan {
    pub name: String,
    pub description: Option<String>,
    pub ty: String,
    /// `Some(dynamic)` if the field is an intern id.
    pub interned: Option<bool>,
    pub role: FieldRole,
    pub unit: Option<String>,
    /// The expression of the "absent" marker.
    pub sentinel: Option<String>,
}

/// The schema of an event, as far as the declaration gives it.
pub struct EventPlan {
    /// The path that the library is found at.
    pub krate: String,
    /// `namespace::Name`.
    pub qualified_name: String,
    pub description: Option<String>,
    pub phase: Phase,
    pub fields: Vec<FieldPlan>,
}

/// The labels of an event enum.
pub struct EnumPlan {
    /// The path that the library is found at.
    pub krate: String,
    /// The width of the discriminant in bytes.
    pub repr: u8,
    /// The discriminant expression and the label of each variant.
    pub labels: Vec<(String, String)>,
}

/// The value of a field's plan.
#[verifier::ext_equal]
pub struct FieldPlanView {
    pub name: Seq<char>,
    pub description: Option<Seq<char>>,
    pub ty: Seq<char>,
    pub interned: Option<bool>,
    pub role: FieldRole,
    pub unit: Option<Seq<char>>,
    pub sentinel: Option<Seq<char>>,
}

/// The value of an event's plan.
#[verifier::ext_equal]
pub struct EventPlanView {
    pub krate: Seq<char>,
    pub qualified_name: Seq<char>,
    pub description: Option<Seq<char>>,
    pub phase: Phase,
    pub fields: Seq<FieldPlanView>,
}

/// The value of an enum's plan.
#[verifier::ext_equal]
pub struct EnumPlanView {
    pub krate: Seq<char>,
    pub repr: u8,
    pub labels: Seq<(Seq<char>, Seq<char>)>,
}

impl View for FieldPlan {
    type V = FieldPlanView;

    open spec fn view(&self) -> FieldPlanView {
        FieldPlanView {
            name: self.name@,
            description: opt_string(self.description),
            ty: self.ty@,
            interned: self.interned,
            role: self.role,
            unit: opt_string(self.unit),
            sentinel: opt_string(self.sentinel),
        }
    }
}

/// The values of a run of field plans.
pub open spec fn plans_view(v: Seq<FieldPlan>) -> Seq<FieldPlanView> {
    v.map_values(|f: FieldPlan| f@)
}

impl View for EventPlan {
    type V = EventPlanView;

    open spec fn view(&self) -> EventPlanView {
        EventPlanView {
            krate: self.krate@,
            qualified_name: self.qualified_name@,
            description: opt_string(self.description),
            phase: self.phase,
            fields: plans_view(self.fields@),
        }
    }
}

/// The values of a run of labels.
pub open spec fn pairs_view(v: Seq<(String, String)>) -> Seq<(Seq<char>, Seq<char>)> {
    v.map_values(|p: (String, String)| (p.0@, p.1@))
}

impl View for EnumPlan {
    type V = EnumPlanView;

    open spec fn view(&self) -> EnumPlanView {
        EnumPlanView { krate: self.krate@, repr: self.repr, labels: pairs_view(self.labels@) }
    }
}

// ---------------------------------------------------------------------------
// What deriving gives.
// ---------------------------------------------------------------------------

/// The entries of all `event` attributes, in order.
pub open spec fn event_metas(attrs: Seq<Attr>) -> Seq<Meta>
    decreases attrs.len(),
{
    if attrs.len() == 0 {
        Seq::empty()
    } else {
        match attrs.last() {
            Attr::Event(metas) => event_metas(attrs.drop_last()) + metas@,
            _ => event_metas(attrs.drop_last()),
        }
    }
}

/// The trimmed lines of the doc comment, joined by line breaks; `None` where there is none.
pub open spec fn doc_text(attrs: Seq<Attr>) -> Option<Seq<char>>
    decreases attrs.len(),
{
    if attrs.len() == 0 {
        None
    } else {
        match attrs.last() {
            Attr::Doc(line) => Some(
                match doc_text(attrs.drop_last()) {
                    Some(before) => before + "\n"@ + trimmed(line@),
                    None => trimmed(line@),
                },
            ),
            _ => doc_text(attrs.drop_last()),
        }
    }
}

/// The container-level settings read so far.
#[verifier::ext_equal]
pub struct ContainerView {
    pub namespace: Option<Seq<char>>,
    pub phase: Phase,
    pub krate: Option<Seq<char>>,
}

/// The settings after one more container-level entry.
pub open spec fn container_step(c: ContainerView, m: Meta) -> Result<ContainerView, DeriveError> {
    match m {
        Meta::Namespace(n) => Ok(ContainerView { namespace: Some(n@), ..c }),
        Meta::Crate(p) => if c.krate is Some {
            Err(DeriveError::DuplicateCrate)
        } else {
            Ok(ContainerView { krate: Some(p@), ..c })
        },
        Meta::Span(s) => if s@ == "enter"@ {
            Ok(ContainerView { phase: Phase::Enter, ..c })
        } else if s@ == "exit"@ {
            Ok(ContainerView { phase: Phase::Exit, ..c })
        } else {
            Err(DeriveError::SpanNotEnterOrExit)
        },
        Meta::Malformed(n) => Err(DeriveError::Malformed(n)),
        _ => Err(DeriveError::UnknownContainerAttribute),
    }
}

/// The container-level settings of a run of entries, or the first error.
pub open spec fn container_of(metas: Seq<Meta>) -> Result<ContainerView, DeriveError>
    decreases metas.len(),
{
    if metas.len() == 0 {
        Ok(ContainerView { namespace: None, phase: Phase::Instant, krate: None })
    } else {
        match container_of(metas.drop_last()) {
            Ok(c) => container_step(c, metas.last()),
            Err(e) => Err(e),
        }
    }
}

/// The field-level settings read so far.
#[verifier::ext_equal]
pub struct FieldAttrsView {
    pub role: FieldRole,
    pub unit: Option<Seq<char>>,
    pub interned: Option<bool>,
    pub sentinel: Option<Seq<char>>,
}

/// The settings with a role, unless there is one.
pub open spec fn with_role(a: FieldAttrsView, role: FieldRole) -> Result<
    FieldAttrsView,
    DeriveError,
> {
    if a.role == FieldRole::Plain {
        Ok(FieldAttrsView { role, ..a })
    } else {
        Err(DeriveError::SecondRole)
    }
}

/// Every name is `dynamic`.
pub open spec fn all_dynamic(names: Seq<String>) -> bool {
    forall|i: int| 0 <= i < names.len() ==> (#[trigger] names[i])@ == "dynamic"@
}

/// The settings after one more field-level entry.
pub open spec fn field_step(a: FieldAttrsView, m: Meta) -> Result<FieldAttrsView, DeriveError> {
    match m {
        Meta::Key => with_role(a, FieldRole::Key),
        Meta::SpanId => with_role(a, FieldRole::SpanId),
        Meta::ParentSpanId => with_role(a, FieldRole::ParentSpanId),
        Meta::Unit(u) => Ok(FieldAttrsView { unit: Some(u@), ..a }),
        Meta::Sentinel(e) => Ok(FieldAttrsView { sentinel: Some(e@), ..a }),
        Meta::Interned(names) => if all_dynamic(names@) {
            Ok(FieldAttrsView { interned: Some(names@.len() > 0), ..a })
        } else {
            Err(DeriveError::ExpectedDynamic)
        },
        Meta::Malformed(n) => Err(DeriveError::Malformed(n)),
        _ => Err(DeriveError::UnknownFieldAttribute),
    }
}

/// The field-level settings of a run of entries, or the first error.
pub open spec fn field_attrs_of(metas: Seq<Meta>) -> Result<FieldAttrsView, DeriveError>
    decreases metas.len(),
{
    if metas.len() == 0 {
        Ok(FieldAttrsView { role: FieldRole::Plain, unit: None, interned: None, sentinel: None })
    } else {
        match field_attrs_of(metas.drop_last()) {
            Ok(a) => field_step(a, metas.last()),
            Err(e) => Err(e),
        }
    }
}

/// What is wrong with the settings of a field of the given type: a span id must be a `u64`, and an
/// "absent" marker only goes with an integer.
pub open spec fn field_fault(a: FieldAttrsView, kind: TypeKind) -> Option<DeriveError> {
    if a.role == FieldRole::SpanId && kind != TypeKind::U64 {
        Some(DeriveError::SpanIdNotU64)
    } else if a.role == FieldRole::ParentSpanId && kind != TypeKind::U64 {
        Some(DeriveError::ParentSpanIdNotU64)
    } else if a.sentinel is Some && a.interned is Some {
        Some(DeriveError::SentinelOnInterned)
    } else if a.sentinel is Some && (kind == TypeKind::Bool || kind == TypeKind::Array) {
        Some(DeriveError::SentinelNotInteger)
    } else {
        None
    }
}

/// The plan of a field.
pub open spec fn field_plan_of(f: FieldItem) -> Result<FieldPlanView, DeriveError> {
    match field_attrs_of(event_metas(f.attrs@)) {
        Ok(a) => match field_fault(a, f.kind) {
            Some(e) => Err(e),
            None => Ok(
                FieldPlanView {
                    name: f.name@,
                    description: doc_text(f.attrs@),
                    ty: f.ty@,
                    interned: a.interned,
                    role: a.role,
                    unit: a.unit,
                    sentinel: a.sentinel,
                },
            ),
        },
        Err(e) => Err(e),
    }
}

/// The plans of a run of fields, or the first error.
pub open spec fn field_plans_of(fields: Seq<FieldItem>) -> Result<Seq<FieldPlanView>, DeriveError>
    decreases fields.len(),
{
    if fields.len() == 0 {
        Ok(Seq::empty())
    } else {
        match field_plans_of(fields.drop_last()) {
            Ok(plans) => match field_plan_of(fields.last()) {
                Ok(p) => Ok(plans.push(p)),
                Err(e) => Err(e),
            },
            Err(e) => Err(e),
        }
    }
}

/// The number of fields with a role.
pub open spec fn role_count(plans: Seq<FieldPlanView>, role: FieldRole) -> nat
    decreases plans.len(),
{
    if plans.len() == 0 {
        0
    } else {
        role_count(plans.drop_last(), role) + if plans.last().role == role {
            1nat
        } else {
            0nat
        }
    }
}

/// What is wrong with the span roles of an event's fields: there is at most one span id and one
/// parent, and there is a span id if and only if the event is one half of a span.
pub open spec fn span_fault(plans: Seq<FieldPlanView>, phase: Phase) -> Option<DeriveError> {
    let ids = role_count(plans, FieldRole::SpanId);
    if ids > 1 {
        Some(DeriveError::SecondSpanId)
    } else if role_count(plans, FieldRole::ParentSpanId) > 1 {
        Some(DeriveError::SecondParentSpanId)
    } else if phase != Phase::Instant && ids == 0 {
        Some(DeriveError::SpanWithoutSpanId)
    } else if phase == Phase::Instant && ids > 0 {
        Some(DeriveError::SpanIdWithoutSpan)
    } else {
        None
    }
}

/// The path of the library where none is given.
pub open spec fn krate_or_default(krate: Option<Seq<char>>) -> Seq<char> {
    match krate {
        Some(p) => p,
        None => "::backbeat"@,
    }
}

/// The plan of an event, or the first thing that is wrong with its declaration.
pub open spec fn event_plan_of(item: Item) -> Result<EventPlanView, DeriveError> {
    match container_of(event_metas(item.attrs@)) {
        Err(e) => Err(e),
        Ok(c) => match c.namespace {
            None => Err(DeriveError::MissingNamespace),
            Some(namespace) => match item.body {
                Body::Struct(fields) => match field_plans_of(fields@) {
                    Err(e) => Err(e),
                    Ok(plans) => match span_fault(plans, c.phase) {
                        Some(e) => Err(e),
                        None => Ok(
                            EventPlanView {
                                krate: krate_or_default(c.krate),
                                qualified_name: namespace + "::"@ + item.name@,
                                description: doc_text(item.attrs@),
                                phase: c.phase,
                                fields: plans,
                            },
                        ),
                    },
                },
                Body::Tuple => Err(DeriveError::UnnamedFields),
                _ => Err(DeriveError::NotAStruct),
            },
        },
    }
}

/// The path of the library that the entries on an enum give, which may hold nothing else.
pub open spec fn enum_krate_of(metas: Seq<Meta>) -> Result<Option<Seq<char>>, DeriveError>
    decreases metas.len(),
{
    if metas.len() == 0 {
        Ok(None)
    } else {
        match enum_krate_of(metas.drop_last()) {
            Ok(k) => match metas.last() {
                Meta::Crate(p) => if k is Some {
                    Err(DeriveError::DuplicateCrate)
                } else {
                    Ok(Some(p@))
                },
                Meta::Malformed(n) => Err(DeriveError::Malformed(n)),
                _ => Err(DeriveError::UnknownEnumAttribute),
            },
            Err(e) => Err(e),
        }
    }
}

/// The width that a representation names.
pub open spec fn width_of(name: Seq<char>) -> Option<u8> {
    if name == "u8"@ {
        Some(1u8)
    } else if name == "u16"@ {
        Some(2u8)
    } else if name == "u32"@ {
        Some(4u8)
    } else if name == "u64"@ {
        Some(8u8)
    } else {
        None
    }
}

/// The width of an enum's discriminant: that of the last name of the first `repr` attribute whose
/// last name is an unsigned integer. Attributes are read up to that one.
pub open spec fn repr_of(attrs: Seq<Attr>) -> Result<u8, DeriveError>
    decreases attrs.len(),
{
    if attrs.len() == 0 {
        Err(DeriveError::MissingRepr)
    } else {
        match attrs[0] {
            Attr::Repr(names) => if names@.len() > 0 && width_of(names@.last()@) is Some {
                Ok(width_of(names@.last()@)->0)
            } else {
                repr_of(attrs.skip(1))
            },
            Attr::Malformed(n) => Err(DeriveError::Malformed(n)),
            _ => repr_of(attrs.skip(1)),
        }
    }
}

/// The discriminants and labels of a run of variants, or the first error.
pub open spec fn labels_of(variants: Seq<VariantItem>) -> Result<
    Seq<(Seq<char>, Seq<char>)>,
    DeriveError,
>
    decreases variants.len(),
{
    if variants.len() == 0 {
        Ok(Seq::empty())
    } else {
        match labels_of(variants.drop_last()) {
            Ok(labels) => {
                let v = variants.last();
                if !v.unit {
                    Err(DeriveError::VariantWithFields)
                } else {
                    match v.discriminant {
                        Some(d) => Ok(labels.push((d@, v.name@))),
                        None => Err(DeriveError::MissingDiscriminant),
                    }
                }
            },
            Err(e) => Err(e),
        }
    }
}

/// The plan of an event enum, or the first thing that is wrong with its declaration.
pub open spec fn enum_plan_of(item: Item) -> Result<EnumPlanView, DeriveError> {
    match enum_krate_of(event_metas(item.attrs@)) {
        Err(e) => Err(e),
        Ok(k) => match item.body {
            Body::Enum(variants) => match repr_of(item.attrs@) {
                Err(e) => Err(e),
                Ok(repr) => match labels_of(variants@) {
                    Err(e) => Err(e),
                    Ok(labels) => Ok(EnumPlanView { krate: krate_or_default(k), repr, labels }),
                },
            },
            _ => Err(DeriveError::NotAnEnum),
        },
    }
}

// ---------------------------------------------------------------------------
// Deriving.
// ---------------------------------------------------------------------------

/// The entries of all `event` attributes, in order.
fn metas_of(attrs: &Vec<Attr>) -> (v: Vec<&Meta>)
    ensures
        v@.map_values(|m: &Meta| *m) == event_metas(attrs@),
{
    let mut v: Vec<&Meta> = Vec::new();
    let ghost f = |m: &Meta| *m;
    assert(v@.map_values(f) =~= event_metas(attrs@.take(0)));
    let mut i: usize = 0;
    while i < attrs.len()
        invariant
            i <= attrs@.len(),
            f == (|m: &Meta| *m),
            v@.map_values(f) == event_metas(attrs@.take(i as int)),
        decreases attrs@.len() - i,
    {
        proof {
            assert(attrs@.take(i + 1).drop_last() =~= attrs@.take(i as int));
            assert(attrs@.take(i + 1).last() == attrs@[i as int]);
        }
        if let Attr::Event(metas) = &attrs[i] {
            let ghost before = event_metas(attrs@.take(i as int));
            assert(v@.map_values(f) =~= before + metas@.take(0));
            let mut j: usize = 0;
            while j < metas.len()
                invariant
                    j <= metas@.len(),
                    f == (|m: &Meta| *m),
                    v@.map_values(f) == before + metas@.take(j as int),
                decreases metas@.len() - j,
            {
                let ghost prev = v@;
                v.push(&metas[j]);
                proof {
                    assert(v@.map_values(f) =~= prev.map_values(f).push(metas@[j as int]));
                    assert(metas@.take(j + 1) =~= metas@.take(j as int).push(metas@[j as int]));
                    assert(v@.map_values(f) =~= before + metas@.take(j + 1));
                }
                j = j + 1;
            }
            assert(metas@.take(j as int) =~= metas@);
        }
        i = i + 1;
    }
    assert(attrs@.take(i as int) =~= attrs@);
    v
}

/// Joins the lines of the doc comment into one text, each trimmed; `None` where there are none.
pub fn doc_of(attrs: &Vec<Attr>) -> (d: Option<String>)
    ensures
        opt_string(d) == doc_text(attrs@),
{
    let mut doc: Option<String> = None;
    assert(attrs@.take(0) =~= Seq::<Attr>::empty());
    let mut i: usize = 0;
    while i < attrs.len()
        invariant
            i <= attrs@.len(),
            opt_string(doc) == doc_text(attrs@.take(i as int)),
        decreases attrs@.len() - i,
    {
        proof {
            assert(attrs@.take(i + 1).drop_last() =~= attrs@.take(i as int));
            assert(attrs@.take(i + 1).last() == attrs@[i as int]);
        }
        if let Attr::Doc(line) = &attrs[i] {
            let t = trim(line.as_str());
            doc = match doc {
                Some(before) => {
                    let mut joined = before;
                    joined.append("\n");
                    joined.append(t.as_str());
                    Some(joined)
                },
                None => Some(t),
            };
        }
        i = i + 1;
    }
    assert(attrs@.take(i as int) =~= attrs@);
    doc
}

/// Container-level settings: the namespace, the span phase and the path of the library.
struct ContainerAttrs {
    namespace: Option<String>,
    phase: Phase,
    krate: Option<String>,
}

impl View for ContainerAttrs {
    type V = ContainerView;

    closed spec fn view(&self) -> ContainerView {
        ContainerView {
            namespace: opt_string(self.namespace),
            phase: self.phase,
            krate: opt_string(self.krate),
        }
    }
}

/// An entry that fails stands for all entries from it on.
proof fn lemma_container_error(metas: Seq<Meta>, i: int)
    requires
        0 <= i <= metas.len(),
        container_of(metas.take(i)) is Err,
    ensures
        container_of(metas) == container_of(metas.take(i)),
    decreases metas.len(),
{
    if i < metas.len() {
        assert(metas.drop_last().take(i) =~= metas.take(i));
        lemma_container_error(metas.drop_last(), i);
    } else {
        assert(metas.take(i) =~= metas);
    }
}

/// Reads the container-level settings.
fn parse_container(attrs: &Vec<Attr>) -> (r: Result<ContainerAttrs, DeriveError>)
    ensures
        match container_of(event_metas(attrs@)) {
            Ok(c) => r matches Ok(got) && got@ == c,
            Err(e) => r matches Err(got) && got == e,
        },
{
    let metas = metas_of(attrs);
    let ghost mv = event_metas(attrs@);
    let ghost f = |m: &Meta| *m;
    let mut c = ContainerAttrs { namespace: None, phase: Phase::Instant, krate: None };
    assert(mv.take(0) =~= Seq::<Meta>::empty());
    let mut i: usize = 0;
    while i < metas.len()
        invariant
            i <= metas@.len(),
            f == (|m: &Meta| *m),
            mv == metas@.map_values(f),
            mv == event_metas(attrs@),
            container_of(mv.take(i as int)) == Ok::<ContainerView, DeriveError>(c@),
        decreases metas@.len() - i,
    {
        proof {
            assert(mv.take(i + 1).drop_last() =~= mv.take(i as int));
            assert(mv.take(i + 1).last() == *metas@[i as int]);
            if container_of(mv.take(i + 1)) is Err {
                lemma_container_error(mv, i + 1);
            }
        }
        match metas[i] {
            Meta::Namespace(n) => {
                c.namespace = Some(n.clone());
            },
            Meta::Crate(p) => {
                if c.krate.is_some() {
                    return Err(DeriveError::DuplicateCrate);
                }
                c.krate = Some(p.clone());
            },
            Meta::Span(s) => {
                if same_text(s.as_str(), "enter") {
                    c.phase = Phase::Enter;
                } else if same_text(s.as_str(), "exit") {
                    c.phase = Phase::Exit;
                } else {
                    return Err(DeriveError::SpanNotEnterOrExit);
                }
            },
            Meta::Malformed(n) => return Err(DeriveError::Malformed(*n)),
            _ => return Err(DeriveError::UnknownContainerAttribute),
        }
        i = i + 1;
    }
    assert(mv.take(i as int) =~= mv);
    Ok(c)
}

/// Field-level settings.
struct FieldAttrs {
    role: FieldRole,
    unit: Option<String>,
    interned: Option<bool>,
    sentinel: Option<String>,
}

impl View for FieldAttrs {
    type V = FieldAttrsView;

    closed spec fn view(&self) -> FieldAttrsView {
        FieldAttrsView {
            role: self.role,
            unit: opt_string(self.unit),
            interned: self.interned,
            sentinel: opt_string(self.sentinel),
        }
    }
}

impl FieldAttrs {
    /// Sets the field's role, unless one was set: roles are mutually exclusive.
    fn set_role(&mut self, role: FieldRole) -> (r: Result<(), DeriveError>)
        ensures
            match with_role(old(self)@, role) {
                Ok(a) => r is Ok && final(self)@ == a,
                Err(e) => r matches Err(got) && got == e,
            },
    {
        match self.role {
            FieldRole::Plain => {
                self.role = role;
                Ok(())
            },
            _ => Err(DeriveError::SecondRole),
        }
    }
}

/// An entry that fails stands for all entries from it on.
proof fn lemma_field_error(metas: Seq<Meta>, i: int)
    requires
        0 <= i <= metas.len(),
        field_attrs_of(metas.take(i)) is Err,
    ensures
        field_attrs_of(metas) == field_attrs_of(metas.take(i)),
    decreases metas.len(),
{
    if i < metas.len() {
        assert(metas.drop_last().take(i) =~= metas.take(i));
        lemma_field_error(metas.drop_last(), i);
    } else {
        assert(metas.take(i) =~= metas);
    }
}

/// Whether every name is `dynamic`.
fn names_dynamic(names: &Vec<String>) -> (r: bool)
    ensures
        r == all_dynamic(names@),
{
    let mut i: usize = 0;
    while i < names.len()
        invariant
            i <= names@.len(),
            forall|k: int| 0 <= k < i ==> (#[trigger] names@[k])@ == "dynamic"@,
        decreases names@.len() - i,
    {
        if !same_text(names[i].as_str(), "dynamic") {
            assert(names@[i as int]@ != "dynamic"@);
            return false;
        }
        i = i + 1;
    }
    true
}

/// Reads the field-level settings.
fn parse_field(attrs: &Vec<Attr>) -> (r: Result<FieldAttrs, DeriveError>)
    ensures
        match field_attrs_of(event_metas(attrs@)) {
            Ok(a) => r matches Ok(got) && got@ == a,
            Err(e) => r matches Err(got) && got == e,
        },
{
    let metas = metas_of(attrs);
    let ghost mv = event_metas(attrs@);
    let ghost f = |m: &Meta| *m;
    let mut a = FieldAttrs { role: FieldRole::Plain, unit: None, interned: None, sentinel: None };
    assert(mv.take(0) =~= Seq::<Meta>::empty());
    let mut i: usize = 0;
    while i < metas.len()
        invariant
            i <= metas@.len(),
            f == (|m: &Meta| *m),
            mv == metas@.map_values(f),
            mv == event_metas(attrs@),
            field_attrs_of(mv.take(i as int)) == Ok::<FieldAttrsView, DeriveError>(a@),
        decreases metas@.len() - i,
    {
        proof {
            assert(mv.take(i + 1).drop_last() =~= mv.take(i as int));
            assert(mv.take(i + 1).last() == *metas@[i as int]);
            if field_attrs_of(mv.take(i + 1)) is Err {
                lemma_field_error(mv, i + 1);
            }
        }
        let set = match metas[i] {
            Meta::Key => a.set_role(FieldRole::Key),
            Meta::SpanId => a.set_role(FieldRole::SpanId),
            Meta::ParentSpanId => a.set_role(FieldRole::ParentSpanId),
            Meta::Unit(u) => {
                a.unit = Some(u.clone());
                Ok(())
            },
            Meta::Sentinel(e) => {
                a.sentinel = Some(e.clone());
                Ok(())
            },
            Meta::Interned(names) => if names_dynamic(names) {
                a.interned = Some(names.len() > 0);
                Ok(())
            } else {
                Err(DeriveError::ExpectedDynamic)
            },
            Meta::Malformed(n) => Err(DeriveError::Malformed(*n)),
            _ => Err(DeriveError::UnknownFieldAttribute),
        };
        match set {
            Ok(()) => {},
            Err(e) => return Err(e),
        }
        i = i + 1;
    }
    assert(mv.take(i as int) =~= mv);
    Ok(a)
}

/// A copy of an optional text.
fn copy_opt(s: &Option<String>) -> (r: Option<String>)
    ensures
        opt_string(r) == opt_string(*s),
{
    match s {
        Some(t) => Some(t.clone()),
        None => None,
    }
}

/// Plans one field.
fn plan_field(f: &FieldItem) -> (r: Result<FieldPlan, DeriveError>)
    ensures
        match field_plan_of(*f) {
            Ok(p) => r matches Ok(got) && got@ == p,
            Err(e) => r matches Err(got) && got == e,
        },
{
    let a = match parse_field(&f.attrs) {
        Ok(a) => a,
        Err(e) => return Err(e),
    };
    match a.role {
        FieldRole::SpanId => if f.kind != TypeKind::U64 {
            return Err(DeriveError::SpanIdNotU64);
        },
        FieldRole::ParentSpanId => if f.kind != TypeKind::U64 {
            return Err(DeriveError::ParentSpanIdNotU64);
        },
        _ => {},
    }
    if a.sentinel.is_some() {
        if a.interned.is_some() {
            return Err(DeriveError::SentinelOnInterned);
        }
        if f.kind == TypeKind::Bool || f.kind == TypeKind::Array {
            return Err(DeriveError::SentinelNotInteger);
        }
    }
    Ok(
        FieldPlan {
            name: f.name.clone(),
            description: doc_of(&f.attrs),
            ty: f.ty.clone(),
            interned: a.interned,
            role: a.role,
            unit: copy_opt(&a.unit),
            sentinel: copy_opt(&a.sentinel),
        },
    )
}

/// A field that fails stands for all fields from it on.
proof fn lemma_plans_error(fields: Seq<FieldItem>, i: int)
    requires
        0 <= i <= fields.len(),
        field_plans_of(fields.take(i)) is Err,
    ensures
        field_plans_of(fields) == field_plans_of(fields.take(i)),
    decreases fields.len(),
{
    if i < fields.len() {
        assert(fields.drop_last().take(i) =~= fields.take(i));
        lemma_plans_error(fields.drop_last(), i);
    } else {
        assert(fields.take(i) =~= fields);
    }
}

/// The number of fields with a role.
fn count_role(plans: &Vec<FieldPlan>, role: FieldRole) -> (n: usize)
    ensures
        n == role_count(plans_view(plans@), role),
{
    let ghost view = plans_view(plans@);
    let mut n: usize = 0;
    let mut i: usize = 0;
    while i < plans.len()
        invariant
            i <= plans@.len(),
            view == plans_view(plans@),
            n == role_count(view.take(i as int), role),
            n <= i,
        decreases plans@.len() - i,
    {
        proof {
            assert(view.take(i + 1).drop_last() =~= view.take(i as int));
            assert(view.take(i + 1).last() == plans@[i as int]@);
        }
        if plans[i].role == role {
            n = n + 1;
        }
        i = i + 1;
    }
    assert(view.take(i as int) =~= view);
    n
}

/// The path of the library where none is given.
fn krate_of(krate: Option<String>) -> (k: String)
    ensures
        k@ == krate_or_default(opt_string(krate)),
{
    match krate {
        Some(p) => p,
        None => "::backbeat".to_string(),
    }
}

/// Plans an event from its declaration.
pub fn expand(item: &Item) -> (r: Result<EventPlan, DeriveError>)
    ensures
        match event_plan_of(*item) {
            Ok(p) => r matches Ok(got) && got@ == p,
            Err(e) => r matches Err(got) && got == e,
        },
{
    let c = match parse_container(&item.attrs) {
        Ok(c) => c,
        Err(e) => return Err(e),
    };
    let namespace = match c.namespace {
        Some(n) => n,
        None => return Err(DeriveError::MissingNamespace),
    };
    let fields = match &item.body {
        Body::Struct(fields) => fields,
        Body::Tuple => return Err(DeriveError::UnnamedFields),
        _ => return Err(DeriveError::NotAStruct),
    };
    let mut plans: Vec<FieldPlan> = Vec::new();
    proof {
        assert(fields@.take(0) =~= Seq::<FieldItem>::empty());
        assert(plans_view(plans@) =~= Seq::<FieldPlanView>::empty());
    }
    let mut i: usize = 0;
    while i < fields.len()
        invariant
            i <= fields@.len(),
            field_plans_of(fields@.take(i as int)) == Ok::<Seq<FieldPlanView>, DeriveError>(
                plans_view(plans@),
            ),
            container_of(event_metas(item.attrs@)) matches Ok(cv) && cv.namespace is Some,
            item.body == Body::Struct(*fields),
        decreases fields@.len() - i,
    {
        let ghost before = plans_view(plans@);
        proof {
            assert(fields@.take(i + 1).drop_last() =~= fields@.take(i as int));
            assert(fields@.take(i + 1).last() == fields@[i as int]);
            if field_plans_of(fields@.take(i + 1)) is Err {
                lemma_plans_error(fields@, i + 1);
            }
        }
        match plan_field(&fields[i]) {
            Ok(p) => {
                plans.push(p);
                assert(plans_view(plans@) =~= before.push(p@));
            },
            Err(e) => return Err(e),
        }
        i = i + 1;
    }
    assert(fields@.take(i as int) =~= fields@);
    let ids: usize = count_role(&plans, FieldRole::SpanId);
    if ids > 1 {
        return Err(DeriveError::SecondSpanId);
    }
    if count_role(&plans, FieldRole::ParentSpanId) > 1 {
        return Err(DeriveError::SecondParentSpanId);
    }
    match c.phase {
        Phase::Instant => if ids > 0 {
            return Err(DeriveError::SpanIdWithoutSpan);
        },
        _ => if ids == 0 {
            return Err(DeriveError::SpanWithoutSpanId);
        },
    }
    let mut qualified_name = namespace;
    qualified_name.append("::");
    qualified_name.append(item.name.as_str());
    Ok(
        EventPlan {
            krate: krate_of(c.krate),
            qualified_name,
            description: doc_of(&item.attrs),
            phase: c.phase,
            fields: plans,
        },
    )
}

/// An entry that fails stands for all entries from it on.
proof fn lemma_enum_krate_error(metas: Seq<Meta>, i: int)
    requires
        0 <= i <= metas.len(),
        enum_krate_of(metas.take(i)) is Err,
    ensures
        enum_krate_of(metas) == enum_krate_of(metas.take(i)),
    decreases metas.len(),
{
    if i < metas.len() {
        assert(metas.drop_last().take(i) =~= metas.take(i));
        lemma_enum_krate_error(metas.drop_last(), i);
    } else {
        assert(metas.take(i) =~= metas);
    }
}

/// Reads the path of the library from the entries on an enum.
fn crate_path(attrs: &Vec<Attr>) -> (r: Result<Option<String>, DeriveError>)
    ensures
        match enum_krate_of(event_metas(attrs@)) {
            Ok(k) => r matches Ok(got) && opt_string(got) == k,
            Err(e) => r matches Err(got) && got == e,
        },
{
    let metas = metas_of(attrs);
    let ghost mv = event_metas(attrs@);
    let ghost f = |m: &Meta| *m;
    let mut k: Option<String> = None;
    assert(mv.take(0) =~= Seq::<Meta>::empty());
    let mut i: usize = 0;
    while i < metas.len()
        invariant
            i <= metas@.len(),
            f == (|m: &Meta| *m),
            mv == metas@.map_values(f),
            mv == event_metas(attrs@),
            enum_krate_of(mv.take(i as int)) == Ok::<Option<Seq<char>>, DeriveError>(
                opt_string(k),
            ),
        decreases metas@.len() - i,
    {
        proof {
            assert(mv.take(i + 1).drop_last() =~= mv.take(i as int));
            assert(mv.take(i + 1).last() == *metas@[i as int]);
            if enum_krate_of(mv.take(i + 1)) is Err {
                lemma_enum_krate_error(mv, i + 1);
            }
        }
        match metas[i] {
            Meta::Crate(p) => {
                if k.is_some() {
                    return Err(DeriveError::DuplicateCrate);
                }
                k = Some(p.clone());
            },
            Meta::Malformed(n) => return Err(DeriveError::Malformed(*n)),
            _ => return Err(DeriveError::UnknownEnumAttribute),
        }
        i = i + 1;
    }
    assert(mv.take(i as int) =~= mv);
    Ok(k)
}

/// The width that a representation names.
fn repr_width(name: &str) -> (w: Option<u8>)
    ensures
        w == width_of(name@),
{
    if same_text(name, "u8") {
        Some(1)
    } else if same_text(name, "u16") {
        Some(2)
    } else if same_text(name, "u32") {
        Some(4)
    } else if same_text(name, "u64") {
        Some(8)
    } else {
        None
    }
}

/// Reads the width of an enum's discriminant.
pub fn enum_repr_width(attrs: &Vec<Attr>) -> (w: Result<u8, DeriveError>)
    ensures
        w == repr_of(attrs@),
{
    let mut i: usize = 0;
    assert(attrs@.skip(0) =~= attrs@);
    while i < attrs.len()
        invariant
            i <= attrs@.len(),
            repr_of(attrs@) == repr_of(attrs@.skip(i as int)),
        decreases attrs@.len() - i,
    {
        proof {
            assert(attrs@.skip(i as int)[0] == attrs@[i as int]);
            assert(attrs@.skip(i as int).skip(1) =~= attrs@.skip(i + 1));
        }
        match &attrs[i] {
            Attr::Repr(names) => {
                if names.len() > 0 {
                    if let Some(w) = repr_width(names[names.len() - 1].as_str()) {
                        return Ok(w);
                    }
                }
            },
            Attr::Malformed(n) => return Err(DeriveError::Malformed(*n)),
            _ => {},
        }
        i = i + 1;
    }
    Err(DeriveError::MissingRepr)
}

/// A variant that fails stands for all variants from it on.
proof fn lemma_labels_error(variants: Seq<VariantItem>, i: int)
    requires
        0 <= i <= variants.len(),
        labels_of(variants.take(i)) is Err,
    ensures
        labels_of(variants) == labels_of(variants.take(i)),
    decreases variants.len(),
{
    if i < variants.len() {
        assert(variants.drop_last().take(i) =~= variants.take(i));
        lemma_labels_error(variants.drop_last(), i);
    } else {
        assert(variants.take(i) =~= variants);
    }
}

/// Plans an event enum from its declaration.
pub fn expand_event_enum(item: &Item) -> (r: Result<EnumPlan, DeriveError>)
    ensures
        match enum_plan_of(*item) {
            Ok(p) => r matches Ok(got) && got@ == p,
            Err(e) => r matches Err(got) && got == e,
        },
{
    let krate = match crate_path(&item.attrs) {
        Ok(k) => k,
        Err(e) => return Err(e),
    };
    let variants = match &item.body {
        Body::Enum(variants) => variants,
        _ => return Err(DeriveError::NotAnEnum),
    };
    let repr: u8 = match enum_repr_width(&item.attrs) {
        Ok(w) => w,
        Err(e) => return Err(e),
    };
    let mut labels: Vec<(String, String)> = Vec::new();
    proof {
        assert(variants@.take(0) =~= Seq::<VariantItem>::empty());
        assert(pairs_view(labels@) =~= Seq::<(Seq<char>, Seq<char>)>::empty());
    }
    let mut i: usize = 0;
    while i < variants.len()
        invariant
            i <= variants@.len(),
            labels_of(variants@.take(i as int)) == Ok::<Seq<(Seq<char>, Seq<char>)>, DeriveError>(
                pairs_view(labels@),
            ),
            enum_krate_of(event_metas(item.attrs@)) is Ok,
            item.body == Body::Enum(*variants),
            repr_of(item.attrs@) is Ok,
        decreases variants@.len() - i,
    {
        let ghost before = pairs_view(labels@);
        let v = &variants[i];
        proof {
            assert(variants@.take(i + 1).drop_last() =~= variants@.take(i as int));
            assert(variants@.take(i + 1).last() == *v);
            if labels_of(variants@.take(i + 1)) is Err {
                lemma_labels_error(variants@, i + 1);
            }
        }
        if !v.unit {
            return Err(DeriveError::VariantWithFields);
        }
        match &v.discriminant {
            Some(d) => {
                labels.push((d.clone(), v.name.clone()));
                assert(pairs_view(labels@) =~= before.push((d@, v.name@)));
            },
            None => return Err(DeriveError::MissingDiscriminant),
        }
        i = i + 1;
    }
    assert(variants@.take(i as int) =~= variants@);
    Ok(EnumPlan { krate: krate_of(krate), repr, labels })
}

/// A planned event is one half of a span if and only if it has a span id, and then it has exactly
/// one; it has at most one parent; and no field that is an intern id has a sentinel.
pub proof fn law_planned_spans(item: Item)
    requires
        event_plan_of(item) is Ok,
    ensures
        ({
            let p = event_plan_of(item)->Ok_0;
            &&& role_count(p.fields, FieldRole::SpanId) == if p.phase == Phase::Instant {
                0nat
            } else {
                1nat
            }
            &&& role_count(p.fields, FieldRole::ParentSpanId) <= 1
            &&& forall|i: int|
                0 <= i < p.fields.len() ==> !((#[trigger] p.fields[i]).sentinel is Some
                    && p.fields[i].interned is Some)
        }),
{
    let fields = item.body->Struct_0@;
    lemma_planned_sentinels(fields);
}

/// No planned field that is an intern id has a sentinel.
proof fn lemma_planned_sentinels(fields: Seq<FieldItem>)
    requires
        field_plans_of(fields) is Ok,
    ensures
        forall|i: int|
            0 <= i < field_plans_of(fields)->Ok_0.len() ==> !((#[trigger] field_plans_of(
                fields,
            )->Ok_0[i]).sentinel is Some && field_plans_of(fields)->Ok_0[i].interned is Some),
    decreases fields.len(),
{
    if fields.len() > 0 {
        lemma_planned_sentinels(fields.drop_last());
    }
}

// ---------------------------------------------------------------------------
// Sentinels.
// ---------------------------------------------------------------------------

/// The number that the low `width` bytes of `value` hold.
pub open spec fn low_bytes(value: u64, width: nat) -> nat {
    if width >= 8 {
        value as nat
    } else {
        value as nat % pow256(width)
    }
}

/// The image of a sentinel that the reader sees: the value's low `width` bytes, zero-extended. A
/// negative value is passed sign-extended to 64 bits.
pub fn sentinel_image(value: u64, width: usize) -> (image: u64)
    ensures
        image == low_bytes(value, width as nat),
{
    proof {
        lemma_pow256_values();
        reveal_with_fuel(pow256, 8);
    }
    if width >= 8 {
        value
    } else if width == 7 {
        value % 0x100_0000_0000_0000
    } else if width == 6 {
        value % 0x1_0000_0000_0000
    } else if width == 5 {
        value % 0x100_0000_0000
    } else if width == 4 {
        value % 0x1_0000_0000
    } else if width == 3 {
        value % 0x100_0000
    } else if width == 2 {
        value % 0x1_0000
    } else if width == 1 {
        value % 0x100
    } else {
        0
    }
}

/// The image of a sentinel is the number that the field's bytes hold when the value is stored.
pub proof fn law_sentinel_image(value: u64, width: nat)
    requires
        width <= 8,
    ensures
        le_value(le_bytes(value as nat, width)) == low_bytes(value, width),
{
    lemma_pow256_values();
    lemma_low(value as nat, width);
    if width == 8 {
        vstd::arithmetic::div_mod::lemma_small_mod(value as nat, pow256(8));
    }
}

/// Writing the low bytes of a number keeps its remainder.
proof fn lemma_low(v: nat, n: nat)
    ensures
        le_value(le_bytes(v, n)) == v % pow256(n),
        pow256(n) > 0,
    decreases n,
{
    if n > 0 {
        let m = (n - 1) as nat;
        lemma_low(v / 256, m);
        lemma_le_bytes_len(v / 256, m);
        assert(le_bytes(v, n).skip(1) =~= le_bytes(v / 256, m));
        assert(le_value(le_bytes(v, n)) == v % 256 + 256 * ((v / 256) % pow256(m)));
        vstd::arithmetic::div_mod::lemma_mod_breakdown(v as int, 256, pow256(m) as int);
    }
}

} // verus!
