//! What a plan takes from a declaration, and which declarations can be planned.

use crate::derive::{
    all_dynamic, attr_kind, container_of, doc_of, doc_text, entry_kind, enum_krate_of, enum_plan_of,
    enum_repr_width, event_metas, event_plan_of, expand, expand_event_enum, field_attrs_of,
    field_fault, field_plan_of, field_plans_of, labels_of, pairs_view, plans_view, repr_of,
    role_count, span_fault, width_of, Attr, AttrKind, Body, ContainerView, DeriveError, EntryKind,
    EnumPlan, EventPlan, FieldAttrsView, FieldItem, FieldPlanView, Item, Meta, Place, TypeKind,
    VariantItem,
};
use crate::schema::{FieldRole, Phase};
use crate::text::trimmed;
use crate::wire::opt_string;
use vstd::prelude::*;

verus! {

// ---------------------------------------------------------------------------
// Attributes.
// ---------------------------------------------------------------------------

/// The entries of two runs of attributes.
proof fn lemma_entries_concat(a: Seq<Attr>, b: Seq<Attr>)
    ensures
        event_metas(a + b) == event_metas(a) + event_metas(b),
    decreases b.len(),
{
    if b.len() == 0 {
        assert(a + b =~= a);
        assert(event_metas(a) + event_metas(b) =~= event_metas(a));
    } else {
        let init = b.drop_last();
        assert((a + b).drop_last() =~= a + init);
        assert((a + b).last() == b.last());
        lemma_entries_concat(a, init);
        if let Attr::Event(metas) = b.last() {
            assert(event_metas(a) + event_metas(init) + metas@ =~= event_metas(a) + event_metas(b));
        }
    }
}

/// The entries of a declaration are those of its `event` attributes, in order, and of no others.
pub proof fn law_entries_in_order(before: Seq<Attr>, attr: Attr, after: Seq<Attr>)
    ensures
        event_metas(before + seq![attr] + after) == event_metas(before) + (match attr {
            Attr::Event(metas) => metas@,
            _ => Seq::empty(),
        }) + event_metas(after),
        event_metas(Seq::empty()) == Seq::<Meta>::empty(),
{
    let one = seq![attr];
    lemma_entries_concat(before + one, after);
    lemma_entries_concat(before, one);
    assert(one.drop_last() =~= Seq::<Attr>::empty());
    assert(event_metas(one.drop_last()) == Seq::<Meta>::empty());
    assert(one.last() == attr);
    assert(event_metas(one) =~= match attr {
        Attr::Event(metas) => metas@,
        _ => Seq::empty(),
    });
}

/// The names of entries.
proof fn lemma_names_differ()
    ensures
        "namespace"@.len() == 9,
        "crate"@.len() == 5,
        "span"@.len() == 4,
        "key"@.len() == 3,
        "span_id"@.len() == 7,
        "parent_span_id"@.len() == 14,
        "unit"@.len() == 4,
        "sentinel"@.len() == 8,
        "interned"@.len() == 8,
        "sentinel"@[0] == 's',
        "interned"@[0] == 'i',
        "event"@.len() == 5,
        "doc"@.len() == 3,
        "repr"@.len() == 4,
{
    reveal_strlit("namespace");
    reveal_strlit("crate");
    reveal_strlit("span");
    reveal_strlit("key");
    reveal_strlit("span_id");
    reveal_strlit("parent_span_id");
    reveal_strlit("unit");
    reveal_strlit("sentinel");
    reveal_strlit("interned");
    reveal_strlit("event");
    reveal_strlit("doc");
    reveal_strlit("repr");
}

/// An entry is what its name says, where it belongs, and nothing else.
pub proof fn law_entries_named(place: Place, name: &str, k: EntryKind)
    requires
        call_ensures(entry_kind, (place, name), k),
    ensures
        k == EntryKind::Namespace <==> place == Place::Event && name@ == "namespace"@,
        k == EntryKind::Span <==> place == Place::Event && name@ == "span"@,
        k == EntryKind::Crate <==> (place == Place::Event || place == Place::EventEnum) && name@
            == "crate"@,
        k == EntryKind::Key <==> place == Place::Field && name@ == "key"@,
        k == EntryKind::SpanId <==> place == Place::Field && name@ == "span_id"@,
        k == EntryKind::ParentSpanId <==> place == Place::Field && name@ == "parent_span_id"@,
        k == EntryKind::Unit <==> place == Place::Field && name@ == "unit"@,
        k == EntryKind::Sentinel <==> place == Place::Field && name@ == "sentinel"@,
        k == EntryKind::Interned <==> place == Place::Field && name@ == "interned"@,
{
    lemma_names_differ();
}

/// An attribute is what its name says; a representation counts on an event enum only.
pub proof fn law_attributes_named(place: Place, name: &str, k: AttrKind)
    requires
        call_ensures(attr_kind, (place, name), k),
    ensures
        k == AttrKind::Event <==> name@ == "event"@,
        k == AttrKind::Doc <==> name@ == "doc"@,
        k == AttrKind::Repr <==> place == Place::EventEnum && name@ == "repr"@,
{
    lemma_names_differ();
}

/// The lines of the doc comment, without the white space around them.
pub open spec fn doc_lines(attrs: Seq<Attr>) -> Seq<Seq<char>>
    decreases attrs.len(),
{
    if attrs.len() == 0 {
        Seq::empty()
    } else {
        (match attrs[0] {
            Attr::Doc(line) => seq![trimmed(line@)],
            _ => Seq::empty(),
        }) + doc_lines(attrs.skip(1))
    }
}

/// Lines with line breaks between them.
pub open spec fn on_lines(lines: Seq<Seq<char>>) -> Seq<char>
    decreases lines.len(),
{
    if lines.len() == 0 {
        Seq::empty()
    } else if lines.len() == 1 {
        lines[0]
    } else {
        lines[0] + seq!['\n'] + on_lines(lines.skip(1))
    }
}

/// One more line.
proof fn lemma_on_lines(lines: Seq<Seq<char>>, line: Seq<char>)
    ensures
        on_lines(lines.push(line)) == if lines.len() == 0 {
            line
        } else {
            on_lines(lines) + seq!['\n'] + line
        },
    decreases lines.len(),
{
    let all = lines.push(line);
    if lines.len() > 0 {
        let rest = lines.skip(1);
        assert(all.skip(1) =~= rest.push(line));
        assert(all[0] == lines[0]);
        lemma_on_lines(rest, line);
        if lines.len() > 1 {
            assert(on_lines(all) =~= on_lines(lines) + seq!['\n'] + line);
        }
    }
}

/// The lines of one more attribute.
proof fn lemma_doc_lines(attrs: Seq<Attr>)
    requires
        attrs.len() > 0,
    ensures
        doc_lines(attrs) == doc_lines(attrs.drop_last()) + (match attrs.last() {
            Attr::Doc(line) => seq![trimmed(line@)],
            _ => Seq::empty(),
        }),
    decreases attrs.len(),
{
    let init = attrs.drop_last();
    if attrs.len() > 1 {
        let rest = attrs.skip(1);
        lemma_doc_lines(rest);
        assert(rest.drop_last() =~= init.skip(1));
        assert(init[0] == attrs[0]);
        assert(rest.last() == attrs.last());
        assert(doc_lines(attrs) =~= doc_lines(init) + (match attrs.last() {
            Attr::Doc(line) => seq![trimmed(line@)],
            _ => Seq::empty(),
        }));
    } else {
        assert(attrs.skip(1) =~= Seq::<Attr>::empty());
        assert(init =~= Seq::<Attr>::empty());
        assert(doc_lines(attrs) =~= doc_lines(init) + (match attrs.last() {
            Attr::Doc(line) => seq![trimmed(line@)],
            _ => Seq::empty(),
        }));
    }
}

/// A doc comment is its lines, each without the white space around it, with line breaks between them;
/// a declaration without one has no description.
proof fn lemma_doc_text(attrs: Seq<Attr>)
    ensures
        doc_text(attrs) == if doc_lines(attrs).len() == 0 {
            None
        } else {
            Some(on_lines(doc_lines(attrs)))
        },
    decreases attrs.len(),
{
    if attrs.len() > 0 {
        let init = attrs.drop_last();
        lemma_doc_text(init);
        lemma_doc_lines(attrs);
        if let Attr::Doc(line) = attrs.last() {
            reveal_strlit("\n");
            assert("\n"@ =~= seq!['\n']);
            assert(doc_lines(attrs) =~= doc_lines(init).push(trimmed(line@)));
            lemma_on_lines(doc_lines(init), trimmed(line@));
        } else {
            assert(doc_lines(attrs) =~= doc_lines(init));
        }
    }
}

/// A doc comment is its lines, each without the white space around it, with line breaks between them;
/// a declaration without one has no description.
pub proof fn law_docs_are_lines(attrs: &Vec<Attr>, d: Option<String>)
    requires
        call_ensures(doc_of, (attrs,), d),
    ensures
        d is None <==> doc_lines(attrs@).len() == 0,
        d matches Some(text) ==> text@ == on_lines(doc_lines(attrs@)),
{
    lemma_doc_text(attrs@);
}

// ---------------------------------------------------------------------------
// Entries.
// ---------------------------------------------------------------------------

/// What the entries say is what the last says that says anything.
pub open spec fn last_says<T>(
    metas: Seq<Meta>,
    says: spec_fn(Meta) -> Option<T>,
    v: Option<T>,
) -> bool {
    match v {
        Some(x) => exists|i: int|
            0 <= i < metas.len() && says(#[trigger] metas[i]) == Some(x) && is_last_saying(
                metas,
                says,
                i,
            ),
        None => forall|i: int| 0 <= i < metas.len() ==> says(#[trigger] metas[i]) is None,
    }
}

/// No entry behind the given one says anything.
pub open spec fn is_last_saying<T>(
    metas: Seq<Meta>,
    says: spec_fn(Meta) -> Option<T>,
    i: int,
) -> bool {
    forall|j: int| i < j < metas.len() ==> says(#[trigger] metas[j]) is None
}

/// No two entries say something.
pub open spec fn says_once<T>(metas: Seq<Meta>, says: spec_fn(Meta) -> Option<T>) -> bool {
    forall|i: int, j: int|
        #![trigger metas[i], metas[j]]
        0 <= i < j < metas.len() ==> says(metas[i]) is None || says(metas[j]) is None
}

/// What one more entry says.
proof fn lemma_last_says<T>(
    metas: Seq<Meta>,
    says: spec_fn(Meta) -> Option<T>,
    before: Option<T>,
    now: Option<T>,
)
    requires
        metas.len() > 0,
        last_says(metas.drop_last(), says, before),
        now == if says(metas.last()) is Some {
            says(metas.last())
        } else {
            before
        },
    ensures
        last_says(metas, says, now),
{
    let init = metas.drop_last();
    let n = metas.len() - 1;
    assert forall|i: int| 0 <= i < n implies #[trigger] init[i] == metas[i] by {}
    if says(metas[n]) is Some {
        assert(is_last_saying(metas, says, n));
    } else if let Some(x) = before {
        let i = choose|i: int|
            0 <= i < init.len() && says(#[trigger] init[i]) == Some(x) && is_last_saying(
                init,
                says,
                i,
            );
        assert(says(metas[i]) == Some(x));
        assert forall|j: int| i < j < metas.len() implies says(#[trigger] metas[j]) is None by {
            if j < n {
                assert(init[j] == metas[j]);
            }
        }
        assert(is_last_saying(metas, says, i));
    } else {
        assert forall|i: int| 0 <= i < metas.len() implies says(#[trigger] metas[i]) is None by {
            if i < n {
                assert(init[i] == metas[i]);
            }
        }
    }
}

/// What no two entries say, no two of fewer say.
proof fn lemma_says_once<T>(
    metas: Seq<Meta>,
    says: spec_fn(Meta) -> Option<T>,
    before: Option<T>,
)
    requires
        metas.len() > 0,
        last_says(metas.drop_last(), says, before),
    ensures
        says_once(metas, says) <==> says_once(metas.drop_last(), says) && (before is None || says(
            metas.last(),
        ) is None),
{
    let init = metas.drop_last();
    let n = metas.len() - 1;
    assert forall|i: int| 0 <= i < n implies #[trigger] init[i] == metas[i] by {}
    if says_once(metas, says) {
        assert forall|i: int, j: int|
            #![trigger init[i], init[j]]
            0 <= i < j < init.len() implies says(init[i]) is None || says(init[j]) is None by {
            assert(init[i] == metas[i] && init[j] == metas[j]);
        }
        if let Some(x) = before {
            let i = choose|i: int|
                0 <= i < init.len() && says(#[trigger] init[i]) == Some(x) && is_last_saying(
                    init,
                    says,
                    i,
                );
            assert(says(metas[i]) is Some && metas[n] == metas.last());
        }
    }
    if says_once(init, says) && (before is None || says(metas.last()) is None) {
        assert forall|i: int, j: int|
            #![trigger metas[i], metas[j]]
            0 <= i < j < metas.len() implies says(metas[i]) is None || says(metas[j]) is None by {
            assert(init[i] == metas[i]);
            if j < n {
                assert(init[j] == metas[j]);
            }
        }
    }
}

/// The namespace that an entry gives.
pub open spec fn namespace_in() -> spec_fn(Meta) -> Option<Seq<char>> {
    |m: Meta|
        match m {
            Meta::Namespace(n) => Some(n@),
            _ => None,
        }
}

/// The path of the library that an entry gives.
pub open spec fn crate_in() -> spec_fn(Meta) -> Option<Seq<char>> {
    |m: Meta|
        match m {
            Meta::Crate(p) => Some(p@),
            _ => None,
        }
}

/// The half of a span that an entry makes an event.
pub open spec fn phase_in() -> spec_fn(Meta) -> Option<Phase> {
    |m: Meta|
        match m {
            Meta::Span(s) => if s@ == "enter"@ {
                Some(Phase::Enter)
            } else {
                Some(Phase::Exit)
            },
            _ => None,
        }
}

/// The role that an entry gives a field.
pub open spec fn role_in() -> spec_fn(Meta) -> Option<FieldRole> {
    |m: Meta|
        match m {
            Meta::Key => Some(FieldRole::Key),
            Meta::SpanId => Some(FieldRole::SpanId),
            Meta::ParentSpanId => Some(FieldRole::ParentSpanId),
            _ => None,
        }
}

/// The unit that an entry gives a field.
pub open spec fn unit_in() -> spec_fn(Meta) -> Option<Seq<char>> {
    |m: Meta|
        match m {
            Meta::Unit(u) => Some(u@),
            _ => None,
        }
}

/// The "absent" marker that an entry gives a field.
pub open spec fn sentinel_in() -> spec_fn(Meta) -> Option<Seq<char>> {
    |m: Meta|
        match m {
            Meta::Sentinel(e) => Some(e@),
            _ => None,
        }
}

/// Whether an entry makes a field an intern id, and a dynamic one.
pub open spec fn interned_in() -> spec_fn(Meta) -> Option<bool> {
    |m: Meta|
        match m {
            Meta::Interned(names) => Some(names@.len() > 0),
            _ => None,
        }
}

/// The entry may stand on an event.
pub open spec fn goes_on_event(m: Meta) -> bool {
    ||| m is Namespace
    ||| m is Crate
    ||| (m matches Meta::Span(s) && (s@ == "enter"@ || s@ == "exit"@))
}

/// The entry may stand on a field.
pub open spec fn goes_on_field(m: Meta) -> bool {
    ||| m is Key
    ||| m is SpanId
    ||| m is ParentSpanId
    ||| m is Unit
    ||| m is Sentinel
    ||| (m matches Meta::Interned(names) && all_dynamic(names@))
}

/// The entries of an event can be read: each may stand there, and the library's path is given once at
/// most.
pub open spec fn good_on_event(metas: Seq<Meta>) -> bool {
    &&& forall|i: int| 0 <= i < metas.len() ==> goes_on_event(#[trigger] metas[i])
    &&& says_once(metas, crate_in())
}

/// The entries of a field can be read: each may stand there, and there is one role at most.
pub open spec fn good_on_field(metas: Seq<Meta>) -> bool {
    &&& forall|i: int| 0 <= i < metas.len() ==> goes_on_field(#[trigger] metas[i])
    &&& says_once(metas, role_in())
}

/// What the entries of an event say.
pub open spec fn event_says(metas: Seq<Meta>, c: ContainerView) -> bool {
    &&& last_says(metas, namespace_in(), c.namespace)
    &&& last_says(metas, crate_in(), c.krate)
    &&& last_says(
        metas,
        phase_in(),
        if c.phase == Phase::Instant {
            None
        } else {
            Some(c.phase)
        },
    )
}

/// What the entries of a field say.
pub open spec fn field_says(metas: Seq<Meta>, a: FieldAttrsView) -> bool {
    &&& last_says(
        metas,
        role_in(),
        if a.role == FieldRole::Plain {
            None
        } else {
            Some(a.role)
        },
    )
    &&& last_says(metas, unit_in(), a.unit)
    &&& last_says(metas, sentinel_in(), a.sentinel)
    &&& last_says(metas, interned_in(), a.interned)
}

/// The phase as an entry says it.
spec fn phase_said(c: ContainerView) -> Option<Phase> {
    if c.phase == Phase::Instant {
        None
    } else {
        Some(c.phase)
    }
}

/// The role as an entry says it.
spec fn role_said(a: FieldAttrsView) -> Option<FieldRole> {
    if a.role == FieldRole::Plain {
        None
    } else {
        Some(a.role)
    }
}

/// The entries of an event.
proof fn lemma_event_says(metas: Seq<Meta>)
    ensures
        container_of(metas) is Ok <==> good_on_event(metas),
        container_of(metas) matches Ok(c) ==> event_says(metas, c),
    decreases metas.len(),
{
    if metas.len() > 0 {
        let init = metas.drop_last();
        let m = metas.last();
        let n = metas.len() - 1;
        lemma_event_says(init);
        assert forall|i: int| 0 <= i < n implies #[trigger] init[i] == metas[i] by {}
        if let Ok(c) = container_of(init) {
            lemma_says_once(metas, crate_in(), c.krate);
            if let Ok(now) = container_of(metas) {
                lemma_last_says(metas, namespace_in(), c.namespace, now.namespace);
                lemma_last_says(metas, crate_in(), c.krate, now.krate);
                assert("enter"@ != "exit"@) by {
                    reveal_strlit("enter");
                    reveal_strlit("exit");
                    assert("enter"@.len() != "exit"@.len());
                }
                lemma_last_says(metas, phase_in(), phase_said(c), phase_said(now));
                assert forall|i: int| 0 <= i < metas.len() implies goes_on_event(
                    #[trigger] metas[i],
                ) by {
                    if i < n {
                        assert(goes_on_event(init[i]));
                    }
                }
            } else {
                assert(metas[n] == m);
            }
            if good_on_event(metas) {
                assert(goes_on_event(metas[n]));
            }
        } else if good_on_event(metas) {
            assert forall|i: int| 0 <= i < init.len() implies goes_on_event(#[trigger] init[i]) by {
                assert(goes_on_event(metas[i]));
            }
            assert forall|i: int, j: int|
                #![trigger init[i], init[j]]
                0 <= i < j < init.len() implies crate_in()(init[i]) is None || crate_in()(
                init[j],
            ) is None by {
                assert(init[i] == metas[i] && init[j] == metas[j]);
            }
            assert(good_on_event(init));
        }
    }
}

/// The entries of a field.
proof fn lemma_field_says(metas: Seq<Meta>)
    ensures
        field_attrs_of(metas) is Ok <==> good_on_field(metas),
        field_attrs_of(metas) matches Ok(a) ==> field_says(metas, a),
    decreases metas.len(),
{
    if metas.len() > 0 {
        let init = metas.drop_last();
        let m = metas.last();
        let n = metas.len() - 1;
        lemma_field_says(init);
        assert forall|i: int| 0 <= i < n implies #[trigger] init[i] == metas[i] by {}
        if let Ok(a) = field_attrs_of(init) {
            lemma_says_once(metas, role_in(), role_said(a));
            if let Ok(now) = field_attrs_of(metas) {
                lemma_last_says(metas, role_in(), role_said(a), role_said(now));
                lemma_last_says(metas, unit_in(), a.unit, now.unit);
                lemma_last_says(metas, sentinel_in(), a.sentinel, now.sentinel);
                lemma_last_says(metas, interned_in(), a.interned, now.interned);
                assert forall|i: int| 0 <= i < metas.len() implies goes_on_field(
                    #[trigger] metas[i],
                ) by {
                    if i < n {
                        assert(goes_on_field(init[i]));
                    }
                }
            } else {
                assert(metas[n] == m);
            }
            if good_on_field(metas) {
                assert(goes_on_field(metas[n]));
            }
        } else if good_on_field(metas) {
            assert forall|i: int| 0 <= i < init.len() implies goes_on_field(#[trigger] init[i]) by {
                assert(goes_on_field(metas[i]));
            }
            assert forall|i: int, j: int|
                #![trigger init[i], init[j]]
                0 <= i < j < init.len() implies role_in()(init[i]) is None || role_in()(
                init[j],
            ) is None by {
                assert(init[i] == metas[i] && init[j] == metas[j]);
            }
            assert(good_on_field(init));
        }
    }
}

// ---------------------------------------------------------------------------
// Plans.
// ---------------------------------------------------------------------------

/// What a field's plan takes from the field.
pub open spec fn field_planned(f: FieldItem, p: FieldPlanView) -> bool {
    &&& p.name == f.name@
    &&& p.ty == f.ty@
    &&& p.description == doc_text(f.attrs@)
    &&& field_says(
        event_metas(f.attrs@),
        FieldAttrsView { role: p.role, unit: p.unit, interned: p.interned, sentinel: p.sentinel },
    )
}

/// Some entry says something.
pub open spec fn some_says<T>(metas: Seq<Meta>, says: spec_fn(Meta) -> Option<T>) -> bool {
    exists|i: int| 0 <= i < metas.len() && says(#[trigger] metas[i]) is Some
}

/// A field can be planned: its entries can be read; a span id or a parent is a `u64`; and an "absent"
/// marker stands on no intern id, no `bool` and no array.
pub open spec fn good_field(f: FieldItem) -> bool {
    let metas = event_metas(f.attrs@);
    &&& good_on_field(metas)
    &&& forall|i: int|
        0 <= i < metas.len() && ((#[trigger] metas[i]) is SpanId || metas[i] is ParentSpanId)
            ==> f.kind == TypeKind::U64
    &&& some_says(metas, sentinel_in()) ==> !some_says(metas, interned_in()) && f.kind
        != TypeKind::Bool && f.kind != TypeKind::Array
}

/// What entries say, some entry says.
proof fn lemma_some_says<T>(metas: Seq<Meta>, says: spec_fn(Meta) -> Option<T>, v: Option<T>)
    requires
        last_says(metas, says, v),
    ensures
        v is Some <==> some_says(metas, says),
{
}

/// The plan of a field.
proof fn lemma_field_planned(f: FieldItem)
    ensures
        field_plan_of(f) is Ok <==> good_field(f),
        field_plan_of(f) matches Ok(p) ==> field_planned(f, p),
{
    let metas = event_metas(f.attrs@);
    lemma_field_says(metas);
    if let Ok(a) = field_attrs_of(metas) {
        lemma_some_says(metas, sentinel_in(), a.sentinel);
        lemma_some_says(metas, interned_in(), a.interned);
        let said = role_said(a);
        assert(last_says(metas, role_in(), said));
        if let Some(role) = said {
            let k = choose|k: int|
                0 <= k < metas.len() && role_in()(#[trigger] metas[k]) == Some(role)
                    && is_last_saying(metas, role_in(), k);
            assert(role_in()(metas[k]) == Some(role));
            assert forall|i: int| 0 <= i < metas.len() && role_in()(#[trigger] metas[i]) is Some
                implies i == k by {
                if i < k {
                    assert(role_in()(metas[i]) is None || role_in()(metas[k]) is None);
                } else if i > k {
                    assert(role_in()(metas[i]) is None);
                }
            }
            assert(field_fault(a, f.kind) is None <==> good_field(f));
        } else {
            assert forall|i: int| 0 <= i < metas.len() implies !((#[trigger] metas[i]) is SpanId)
                && !(metas[i] is ParentSpanId) by {
                assert(role_in()(metas[i]) is None);
            }
            assert(field_fault(a, f.kind) is None <==> good_field(f));
        }
        if let Ok(p) = field_plan_of(f) {
            assert(a == FieldAttrsView {
                role: p.role,
                unit: p.unit,
                interned: p.interned,
                sentinel: p.sentinel,
            });
        }
    }
}

/// The plans of fields.
proof fn lemma_fields_planned(fields: Seq<FieldItem>)
    ensures
        field_plans_of(fields) is Ok <==> forall|i: int|
            0 <= i < fields.len() ==> good_field(#[trigger] fields[i]),
        field_plans_of(fields) matches Ok(plans) ==> plans.len() == fields.len() && forall|i: int|
            #![trigger fields[i]]
            #![trigger plans[i]]
            0 <= i < fields.len() ==> field_planned(fields[i], plans[i]),
    decreases fields.len(),
{
    if fields.len() > 0 {
        let init = fields.drop_last();
        let n = fields.len() - 1;
        lemma_fields_planned(init);
        lemma_field_planned(fields[n]);
        assert forall|i: int| 0 <= i < n implies #[trigger] init[i] == fields[i] by {}
        if forall|i: int| 0 <= i < fields.len() ==> good_field(#[trigger] fields[i]) {
            assert forall|i: int| 0 <= i < init.len() implies good_field(#[trigger] init[i]) by {
                assert(good_field(fields[i]));
            }
            assert(good_field(fields[n]));
        }
        if let Ok(plans) = field_plans_of(fields) {
            let before = field_plans_of(init)->Ok_0;
            assert forall|i: int| 0 <= i < fields.len() implies good_field(#[trigger] fields[i]) by {
                if i < n {
                    assert(good_field(init[i]));
                }
            }
            assert forall|i: int|
                #![trigger fields[i]]
                #![trigger plans[i]]
                0 <= i < fields.len() implies field_planned(fields[i], plans[i]) by {
                if i < n {
                    assert(plans[i] == before[i]);
                    assert(field_planned(init[i], before[i]));
                }
            }
        }
    }
}

/// The plan of an event takes from the declaration: the last namespace, which stands before the name;
/// the half of a span that the last `span` entry says; the path of the library, where one is given;
/// and the doc comment. It has one field for each of the declaration, in order, with the field's name,
/// type, doc comment, role, unit, "absent" marker and interning.
pub proof fn law_event_planned(item: &Item, p: EventPlan, fields: Vec<FieldItem>)
    requires
        call_ensures(expand, (item,), Ok::<EventPlan, DeriveError>(p)),
        item.body == Body::Struct(fields),
    ensures
        exists|c: ContainerView| #[trigger]
            event_says(event_metas(item.attrs@), c) && c.phase == p.phase && (c.namespace matches Some(
                namespace,
            ) && p.qualified_name@ == namespace + seq![':', ':'] + item.name@) && p.krate@ == (
            match c.krate {
                Some(path) => path,
                None => "::backbeat"@,
            }),
        opt_string(p.description) == doc_text(item.attrs@),
        p.fields@.len() == fields@.len(),
        forall|i: int|
            0 <= i < fields@.len() ==> field_planned(fields@[i], (#[trigger] p.fields@[i])@),
{
    let metas = event_metas(item.attrs@);
    lemma_event_says(metas);
    lemma_fields_planned(fields@);
    let c = container_of(metas)->Ok_0;
    reveal_strlit("::");
    assert("::"@ =~= seq![':', ':']);
    assert(event_says(metas, c));
    let plans = plans_view(p.fields@);
    assert(event_plan_of(*item) matches Ok(q) && q == p@);
    assert forall|i: int| 0 <= i < fields@.len() implies field_planned(
        fields@[i],
        (#[trigger] p.fields@[i])@,
    ) by {
        assert(plans[i] == p.fields@[i]@);
    }
}

/// Of the fields one at most is a parent, and exactly one is a span id where the event is one half of
/// a span, and none otherwise.
pub open spec fn spans_fit(plans: Seq<FieldPlanView>, span: bool) -> bool {
    &&& forall|i: int, j: int|
        #![trigger plans[i], plans[j]]
        0 <= i < j < plans.len() ==> !(plans[i].role == FieldRole::ParentSpanId && plans[j].role
            == FieldRole::ParentSpanId) && !(plans[i].role == FieldRole::SpanId && plans[j].role
            == FieldRole::SpanId)
    &&& span <==> exists|i: int|
        0 <= i < plans.len() && (#[trigger] plans[i]).role == FieldRole::SpanId
}

/// A count of fields with a role.
proof fn lemma_role_count(plans: Seq<FieldPlanView>, role: FieldRole)
    ensures
        role_count(plans, role) > 0 <==> exists|i: int|
            0 <= i < plans.len() && (#[trigger] plans[i]).role == role,
        role_count(plans, role) > 1 <==> exists|i: int, j: int|
            #![trigger plans[i], plans[j]]
            0 <= i < j < plans.len() && plans[i].role == role && plans[j].role == role,
    decreases plans.len(),
{
    if plans.len() > 0 {
        let init = plans.drop_last();
        let n = plans.len() - 1;
        lemma_role_count(init, role);
        assert forall|i: int| 0 <= i < n implies #[trigger] init[i] == plans[i] by {}
        if role_count(init, role) > 0 {
            let i = choose|i: int| 0 <= i < init.len() && (#[trigger] init[i]).role == role;
            assert(plans[i].role == role);
            if plans[n].role == role {
                assert(0 <= i < n && plans[i].role == role && plans[n].role == role);
            }
        }
        if role_count(init, role) > 1 {
            let (i, j) = choose|i: int, j: int|
                #![trigger init[i], init[j]]
                0 <= i < j < init.len() && init[i].role == role && init[j].role == role;
            assert(plans[i].role == role && plans[j].role == role);
        }
        if exists|i: int| 0 <= i < plans.len() && (#[trigger] plans[i]).role == role {
            let i = choose|i: int| 0 <= i < plans.len() && (#[trigger] plans[i]).role == role;
            if i < n {
                assert(init[i].role == role);
            }
        }
        if exists|i: int, j: int|
            #![trigger plans[i], plans[j]]
            0 <= i < j < plans.len() && plans[i].role == role && plans[j].role == role {
            let (i, j) = choose|i: int, j: int|
                #![trigger plans[i], plans[j]]
                0 <= i < j < plans.len() && plans[i].role == role && plans[j].role == role;
            assert(init[i].role == role);
            if j < n {
                assert(init[j].role == role);
            }
        }
    }
}

/// The span roles that are right.
proof fn lemma_spans_fit(plans: Seq<FieldPlanView>, phase: Phase)
    ensures
        span_fault(plans, phase) is None <==> spans_fit(plans, phase != Phase::Instant),
{
    lemma_role_count(plans, FieldRole::SpanId);
    lemma_role_count(plans, FieldRole::ParentSpanId);
}

/// An event can be planned exactly if it is a struct with named fields or none, its entries can be
/// read, one of them gives a namespace, each field can be planned, and of the fields one at most is a
/// parent, and exactly one is a span id where the event is one half of a span, and none otherwise.
pub proof fn law_event_plannable(
    item: &Item,
    r: Result<EventPlan, DeriveError>,
    fields: Vec<FieldItem>,
    plans: Seq<FieldPlanView>,
)
    requires
        call_ensures(expand, (item,), r),
    ensures
        r is Ok ==> item.body is Struct,
        r is Ok ==> good_on_event(event_metas(item.attrs@)),
        r is Ok ==> some_says(event_metas(item.attrs@), namespace_in()),
        r is Ok && item.body == Body::Struct(fields) ==> forall|i: int|
            0 <= i < fields@.len() ==> good_field(#[trigger] fields@[i]),
        item.body == Body::Struct(fields) && good_on_event(event_metas(item.attrs@)) && some_says(
            event_metas(item.attrs@),
            namespace_in(),
        ) && (forall|i: int| 0 <= i < fields@.len() ==> good_field(#[trigger] fields@[i])) && plans.len()
            == fields@.len() && (forall|i: int|
            0 <= i < plans.len() ==> field_plan_of(fields@[i]) == Ok::<FieldPlanView, DeriveError>(
                #[trigger] plans[i],
            )) ==> (r is Ok <==> spans_fit(
            plans,
            some_says(event_metas(item.attrs@), phase_in()),
        )),
{
    let metas = event_metas(item.attrs@);
    lemma_event_says(metas);
    if let Ok(c) = container_of(metas) {
        lemma_some_says(metas, namespace_in(), c.namespace);
        lemma_some_says(metas, phase_in(), phase_said(c));
        lemma_spans_fit(plans, c.phase);
    }
    if item.body == Body::Struct(fields) {
        lemma_fields_planned(fields@);
        if plans.len() == fields@.len() && (forall|i: int|
            0 <= i < plans.len() ==> field_plan_of(fields@[i]) == Ok::<FieldPlanView, DeriveError>(
                #[trigger] plans[i],
            )) {
            lemma_plans_are(fields@, plans);
        }
    }
}

/// The plans of fields are those of each.
proof fn lemma_plans_are(fields: Seq<FieldItem>, plans: Seq<FieldPlanView>)
    requires
        plans.len() == fields.len(),
        forall|i: int|
            0 <= i < plans.len() ==> field_plan_of(fields[i]) == Ok::<FieldPlanView, DeriveError>(
                #[trigger] plans[i],
            ),
    ensures
        field_plans_of(fields) == Ok::<Seq<FieldPlanView>, DeriveError>(plans),
    decreases fields.len(),
{
    if fields.len() == 0 {
        assert(plans =~= Seq::<FieldPlanView>::empty());
    } else {
        let n = plans.len() - 1;
        let init = plans.drop_last();
        assert forall|i: int| 0 <= i < init.len() implies field_plan_of(fields.drop_last()[i]) == Ok::<
            FieldPlanView,
            DeriveError,
        >(#[trigger] init[i]) by {
            assert(plans[i] == init[i]);
        }
        lemma_plans_are(fields.drop_last(), init);
        assert(field_plan_of(fields[n]) == Ok::<FieldPlanView, DeriveError>(plans[n]));
        assert(plans =~= init.push(plans[n]));
    }
}

// ---------------------------------------------------------------------------
// Enums.
// ---------------------------------------------------------------------------

/// The entries of an enum can be read: there is one at most, the path of the library.
pub open spec fn good_on_enum(metas: Seq<Meta>) -> bool {
    metas.len() == 0 || (metas.len() == 1 && metas[0] is Crate)
}

/// The path of the library on an enum.
proof fn lemma_enum_crate(metas: Seq<Meta>)
    ensures
        enum_krate_of(metas) is Ok <==> good_on_enum(metas),
        enum_krate_of(metas) matches Ok(k) ==> (metas.len() == 0 ==> k is None) && (metas.len() == 1
            ==> k == Some(metas[0]->Crate_0@)),
    decreases metas.len(),
{
    if metas.len() > 0 {
        lemma_enum_crate(metas.drop_last());
        if metas.len() > 1 {
            assert(metas.drop_last()[0] == metas[0]);
        }
    }
}

/// The width in bytes of the integer that a name stands for.
pub open spec fn names_width(name: Seq<char>, width: u8) -> bool {
    ||| name == seq!['u', '8'] && width == 1
    ||| name == seq!['u', '1', '6'] && width == 2
    ||| name == seq!['u', '3', '2'] && width == 4
    ||| name == seq!['u', '6', '4'] && width == 8
}

/// The widths of names.
proof fn lemma_names_width(name: Seq<char>, width: u8)
    ensures
        names_width(name, width) <==> width_of(name) == Some(width),
{
    reveal_strlit("u8");
    reveal_strlit("u16");
    reveal_strlit("u32");
    reveal_strlit("u64");
    assert("u8"@ =~= seq!['u', '8']);
    assert("u16"@ =~= seq!['u', '1', '6']);
    assert("u32"@ =~= seq!['u', '3', '2']);
    assert("u64"@ =~= seq!['u', '6', '4']);
    let a = seq!['u', '8'];
    let b = seq!['u', '1', '6'];
    let c = seq!['u', '3', '2'];
    let d = seq!['u', '6', '4'];
    assert(a.len() == 2 && b.len() == 3 && c.len() == 3 && d.len() == 3);
    assert(b[1] == '1' && c[1] == '3' && d[1] == '6');
}

/// Attribute `i` gives the width: it is a `repr` that ends with an unsigned integer.
pub open spec fn gives_width(attr: Attr, width: u8) -> bool {
    attr matches Attr::Repr(names) && names@.len() > 0 && names_width(names@.last()@, width)
}

/// The attribute gives some width, or cannot be read.
pub open spec fn ends_search(attr: Attr) -> bool {
    attr is Malformed || exists|w: u8| #[trigger] gives_width(attr, w)
}

/// The width of an enum's discriminant is that of the first attribute that gives one, as long as none
/// before it cannot be read; without such an attribute there is none.
pub proof fn law_width_read(attrs: &Vec<Attr>, w: Result<u8, DeriveError>, i: int, width: u8)
    requires
        call_ensures(enum_repr_width, (attrs,), w),
    ensures
        0 <= i < attrs@.len() && gives_width(attrs@[i], width) && (forall|j: int|
            0 <= j < i ==> !ends_search(#[trigger] attrs@[j])) ==> w == Ok::<u8, DeriveError>(width),
        (forall|j: int| 0 <= j < attrs@.len() ==> !ends_search(#[trigger] attrs@[j])) ==> w == Err::<
            u8,
            DeriveError,
        >(DeriveError::MissingRepr),
{
    if 0 <= i < attrs@.len() && gives_width(attrs@[i], width) && (forall|j: int|
        0 <= j < i ==> !ends_search(#[trigger] attrs@[j])) {
        lemma_width_found(attrs@, i, width);
    }
    if forall|j: int| 0 <= j < attrs@.len() ==> !ends_search(#[trigger] attrs@[j]) {
        lemma_width_missing(attrs@);
    }
}

/// An attribute that does not end the search is passed over.
proof fn lemma_passed_over(attrs: Seq<Attr>)
    requires
        attrs.len() > 0,
        !ends_search(attrs[0]),
    ensures
        repr_of(attrs) == repr_of(attrs.skip(1)),
{
    if let Attr::Repr(names) = attrs[0] {
        if names@.len() > 0 {
            if let Some(w) = width_of(names@.last()@) {
                lemma_names_width(names@.last()@, w);
                assert(gives_width(attrs[0], w));
            }
        }
    }
}

/// The first width.
proof fn lemma_width_found(attrs: Seq<Attr>, i: int, width: u8)
    requires
        0 <= i < attrs.len(),
        gives_width(attrs[i], width),
        forall|j: int| 0 <= j < i ==> !ends_search(#[trigger] attrs[j]),
    ensures
        repr_of(attrs) == Ok::<u8, DeriveError>(width),
    decreases attrs.len(),
{
    if i == 0 {
        lemma_names_width(attrs[0]->Repr_0@.last()@, width);
    } else {
        let rest = attrs.skip(1);
        assert(!ends_search(attrs[0]));
        lemma_passed_over(attrs);
        assert forall|j: int| 0 <= j < i - 1 implies !ends_search(#[trigger] rest[j]) by {
            assert(rest[j] == attrs[j + 1]);
        }
        lemma_width_found(rest, i - 1, width);
    }
}

/// No width.
proof fn lemma_width_missing(attrs: Seq<Attr>)
    requires
        forall|j: int| 0 <= j < attrs.len() ==> !ends_search(#[trigger] attrs[j]),
    ensures
        repr_of(attrs) == Err::<u8, DeriveError>(DeriveError::MissingRepr),
    decreases attrs.len(),
{
    if attrs.len() > 0 {
        let rest = attrs.skip(1);
        assert(!ends_search(attrs[0]));
        lemma_passed_over(attrs);
        assert forall|j: int| 0 <= j < rest.len() implies !ends_search(#[trigger] rest[j]) by {
            assert(rest[j] == attrs[j + 1]);
        }
        lemma_width_missing(rest);
    }
}

/// The labels of variants.
proof fn lemma_labels(variants: Seq<VariantItem>)
    ensures
        labels_of(variants) is Ok <==> forall|i: int|
            0 <= i < variants.len() ==> (#[trigger] variants[i]).unit && variants[i].discriminant
                is Some,
        labels_of(variants) matches Ok(labels) ==> labels.len() == variants.len() && forall|i: int|
            0 <= i < variants.len() ==> #[trigger] labels[i] == (
                variants[i].discriminant->0@,
                variants[i].name@,
            ),
    decreases variants.len(),
{
    if variants.len() > 0 {
        let init = variants.drop_last();
        let n = variants.len() - 1;
        lemma_labels(init);
        assert forall|i: int| 0 <= i < n implies #[trigger] init[i] == variants[i] by {}
        if forall|i: int|
            0 <= i < variants.len() ==> (#[trigger] variants[i]).unit && variants[i].discriminant
                is Some {
            assert forall|i: int| 0 <= i < init.len() implies (#[trigger] init[i]).unit
                && init[i].discriminant is Some by {
                assert(variants[i].unit);
            }
            assert(variants[n].unit);
        }
        if let Ok(labels) = labels_of(variants) {
            assert forall|i: int| 0 <= i < variants.len() implies (#[trigger] variants[i]).unit
                && variants[i].discriminant is Some by {
                if i < n {
                    assert(init[i].unit);
                }
            }
            let before = labels_of(init)->Ok_0;
            assert forall|i: int| 0 <= i < variants.len() implies #[trigger] labels[i] == (
                variants[i].discriminant->0@,
                variants[i].name@,
            ) by {
                if i < n {
                    assert(labels[i] == before[i]);
                    assert(init[i] == variants[i]);
                }
            }
        }
    }
}

/// An event enum can be planned exactly if it is an enum whose entries can be read, that has a width,
/// and whose variants have no fields and an explicit discriminant each. The plan has that width, the
/// path of the library where one is given, and one label for each variant, in order: the variant's
/// discriminant with its name.
pub proof fn law_enum_planned(
    item: &Item,
    r: Result<EnumPlan, DeriveError>,
    w: Result<u8, DeriveError>,
)
    requires
        call_ensures(expand_event_enum, (item,), r),
        call_ensures(enum_repr_width, (&item.attrs,), w),
    ensures
        r is Ok <==> good_on_enum(event_metas(item.attrs@)) && w is Ok && (
        item.body matches Body::Enum(variants) && forall|i: int|
            0 <= i < variants@.len() ==> (#[trigger] variants@[i]).unit && variants@[i].discriminant
                is Some),
        r matches Ok(p) ==> {
            let variants = item.body->Enum_0@;
            let metas = event_metas(item.attrs@);
            &&& w == Ok::<u8, DeriveError>(p.repr)
            &&& metas.len() == 0 ==> p.krate@ == "::backbeat"@
            &&& metas.len() == 1 ==> p.krate@ == metas[0]->Crate_0@
            &&& p.labels@.len() == variants.len()
            &&& forall|i: int|
                0 <= i < variants.len() ==> (#[trigger] p.labels@[i]).0@
                    == variants[i].discriminant->0@ && p.labels@[i].1@ == variants[i].name@
        },
{
    lemma_enum_crate(event_metas(item.attrs@));
    if let Body::Enum(variants) = item.body {
        lemma_labels(variants@);
    }
    if let Ok(p) = r {
        let variants = item.body->Enum_0@;
        let labels = pairs_view(p.labels@);
        assert(enum_plan_of(*item) matches Ok(q) && q == p@);
        assert(labels_of(variants) == Ok::<Seq<(Seq<char>, Seq<char>)>, DeriveError>(labels));
        assert forall|i: int| 0 <= i < variants.len() implies (#[trigger] p.labels@[i]).0@
            == variants[i].discriminant->0@ && p.labels@[i].1@ == variants[i].name@ by {
            assert(labels[i] == (p.labels@[i].0@, p.labels@[i].1@));
        }
    }
}

} // verus!
