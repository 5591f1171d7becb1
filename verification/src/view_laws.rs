//! What the generated query DDL says of a registry.

use crate::schema::{FieldRole, FieldView, SchemaView};
use crate::text::{
    dec_text, doubled, has_part, hex_text, lemma_part_of, lemma_part_within, stands_at,
};
use crate::views::{
    assemble, display_name, event_view, event_views, field_rows, generate_tier1, join_rows,
    key_rows, keys_view, promoted, quoted, role_text, tier1_text, view_set_text, view_sets_text,
    EVENTS_HEAD, KEYS_HEAD, TIER1_HEAD,
};
use crate::wire::{owned_schemas_view, strings_view, OwnedSchema};
use vstd::prelude::*;

verus! {

// ---------------------------------------------------------------------------
// Quoting.
// ---------------------------------------------------------------------------

/// What SQL reads behind an opening quote: the text up to the closing one, in which two quotes stand
/// for one, and what follows.
pub open spec fn sql_read(t: Seq<char>, q: char) -> Option<(Seq<char>, Seq<char>)>
    decreases t.len(),
{
    if t.len() == 0 {
        None
    } else if t[0] != q {
        match sql_read(t.skip(1), q) {
            Some((s, rest)) => Some((seq![t[0]] + s, rest)),
            None => None,
        }
    } else if t.len() > 1 && t[1] == q {
        match sql_read(t.skip(2), q) {
            Some((s, rest)) => Some((seq![q] + s, rest)),
            None => None,
        }
    } else {
        Some((Seq::empty(), t.skip(1)))
    }
}

/// Doubling goes character by character.
proof fn lemma_doubled_front(s: Seq<char>, q: char)
    requires
        s.len() > 0,
    ensures
        doubled(s, q) == (if s[0] == q {
            seq![q, q]
        } else {
            seq![s[0]]
        }) + doubled(s.skip(1), q),
    decreases s.len(),
{
    let head = if s[0] == q {
        seq![q, q]
    } else {
        seq![s[0]]
    };
    if s.len() == 1 {
        assert(s.drop_last() =~= Seq::<char>::empty());
        assert(s.skip(1) =~= Seq::<char>::empty());
        assert(doubled(s.drop_last(), q) =~= Seq::<char>::empty());
        assert(doubled(s, q) =~= head + doubled(s.skip(1), q));
    } else {
        let init = s.drop_last();
        lemma_doubled_front(init, q);
        assert(init.skip(1) =~= s.skip(1).drop_last());
        assert(s.skip(1).last() == s.last());
        assert(doubled(s, q) =~= head + doubled(s.skip(1), q));
    }
}

/// A quoted name or string reads back as it was, whatever quotes it holds and whatever stands behind
/// it that is not a quote.
pub proof fn law_quoted_reads_back(s: Seq<char>, q: char, rest: Seq<char>)
    requires
        rest.len() == 0 || rest[0] != q,
    ensures
        quoted(s, q).len() >= 2,
        quoted(s, q)[0] == q,
        sql_read((quoted(s, q) + rest).skip(1), q) == Some((s, rest)),
    decreases s.len(),
{
    let text = quoted(s, q) + rest;
    let t = text.skip(1);
    assert(t =~= doubled(s, q) + seq![q] + rest);
    if s.len() == 0 {
        assert(doubled(s, q) =~= Seq::<char>::empty());
        assert(t.skip(1) =~= rest);
        assert(s =~= Seq::<char>::empty());
    } else {
        let tail = s.skip(1);
        lemma_doubled_front(s, q);
        law_quoted_reads_back(tail, q, rest);
        let u = (quoted(tail, q) + rest).skip(1);
        assert(u =~= doubled(tail, q) + seq![q] + rest);
        if s[0] == q {
            assert(t[0] == q && t[1] == q);
            assert(t.skip(2) =~= u);
            assert(seq![q] + tail =~= s);
        } else {
            assert(t[0] == s[0]);
            assert(t.skip(1) =~= u);
            assert(seq![s[0]] + tail =~= s);
        }
    }
}

// ---------------------------------------------------------------------------
// One view per event.
// ---------------------------------------------------------------------------

/// The title of an event type: its name, followed by `#` and the sixteen digits of its id where
/// another event type of the registry has the same name.
pub open spec fn title(schemas: Seq<SchemaView>, i: int) -> Seq<char> {
    if exists|j: int|
        0 <= j < schemas.len() && j != i && (#[trigger] schemas[j]).name
            == schemas[i].name {
        schemas[i].name + "#"@ + hex_text(schemas[i].id as nat, 16)
    } else {
        schemas[i].name
    }
}

/// The statement that gives an event type a view of the rows with its id.
pub open spec fn view_statement(name: Seq<char>, id: u64) -> Seq<char> {
    "CREATE OR REPLACE VIEW "@ + quoted(name, '"') + " AS SELECT * FROM events WHERE event_id = "@
        + dec_text(id as nat) + ";\n"@
}

/// Texts one behind the other.
pub open spec fn strung(texts: Seq<Seq<char>>) -> Seq<char>
    decreases texts.len(),
{
    if texts.len() == 0 {
        Seq::empty()
    } else {
        strung(texts.drop_last()) + texts.last()
    }
}

/// Titles are display names.
proof fn lemma_title(schemas: Seq<SchemaView>, i: int)
    ensures
        display_name(schemas, i) == title(schemas, i),
{
}

/// The views of the first event types.
proof fn lemma_event_views(schemas: Seq<SchemaView>, n: nat)
    requires
        n <= schemas.len(),
    ensures
        event_views(schemas, n) == strung(
            Seq::new(n, |i: int| view_statement(title(schemas, i), schemas[i].id)),
        ),
    decreases n,
{
    let texts = Seq::new(n, |i: int| view_statement(title(schemas, i), schemas[i].id));
    if n > 0 {
        let m = (n - 1) as nat;
        lemma_event_views(schemas, m);
        lemma_title(schemas, n - 1);
        assert(texts.drop_last() =~= Seq::new(
            m,
            |i: int| view_statement(title(schemas, i), schemas[i].id),
        ));
        assert(texts.last() =~= event_view(title(schemas, n - 1), schemas[n - 1].id));
    }
}

/// The generated DDL has one view for each event type, in the order of the registry: under its
/// title, of the rows that have its id.
pub proof fn law_events_have_views(schemas: &[OwnedSchema], out: String)
    requires
        call_ensures(generate_tier1, (schemas,), out),
    ensures
        has_part(
            out@,
            strung(
                Seq::new(
                    schemas@.len(),
                    |i: int|
                        view_statement(
                            title(owned_schemas_view(schemas@), i),
                            schemas@[i].id.0,
                        ),
                ),
            ),
        ),
{
    let view = owned_schemas_view(schemas@);
    lemma_tier1_views(view);
    assert(Seq::new(
        schemas@.len(),
        |i: int| view_statement(title(view, i), schemas@[i].id.0),
    ) =~= Seq::new(view.len(), |i: int| view_statement(title(view, i), view[i].id)));
}

/// The views in the generated DDL.
pub proof fn lemma_tier1_views(view: Seq<SchemaView>)
    ensures
        has_part(
            tier1_text(view),
            strung(Seq::new(view.len(), |i: int| view_statement(title(view, i), view[i].id))),
        ),
{
    lemma_event_views(view, view.len());
    let all = event_views(view, view.len());
    lemma_part_of(TIER1_HEAD@ + EVENTS_HEAD@, all, KEYS_HEAD@ + keys_view(view));
    assert(tier1_text(view) =~= TIER1_HEAD@ + EVENTS_HEAD@ + all + (KEYS_HEAD@ + keys_view(view)));
}

/// What stands in one of several texts stands in all of them together.
pub proof fn lemma_strung_has(texts: Seq<Seq<char>>, i: int)
    requires
        0 <= i < texts.len(),
    ensures
        has_part(strung(texts), texts[i]),
    decreases texts.len(),
{
    let init = texts.drop_last();
    let none = Seq::<char>::empty();
    if i < init.len() {
        lemma_strung_has(init, i);
        assert(init[i] == texts[i]);
        lemma_part_within(none, strung(init), texts.last(), texts[i]);
        assert(none + strung(init) + texts.last() =~= strung(texts));
    } else {
        lemma_part_of(strung(init), texts.last(), none);
        assert(strung(init) + texts.last() + none =~= strung(texts));
    }
}

// ---------------------------------------------------------------------------
// The manifest.
// ---------------------------------------------------------------------------

/// The role of a promoted column, as the manifest words it.
pub open spec fn role_word(role: FieldRole) -> Seq<char> {
    match role {
        FieldRole::Key => "key"@,
        FieldRole::SpanId => "span_id"@,
        FieldRole::ParentSpanId => "parent_span_id"@,
        FieldRole::Plain => ""@,
    }
}

/// The row of the manifest for a field: the event, the column and its role, as SQL strings.
pub open spec fn manifest_row(event: Seq<char>, f: FieldView) -> Seq<char> {
    "  ("@ + quoted(event, '\'') + ", "@ + quoted(f.name, '\'') + ", "@ + quoted(
        role_word(f.role),
        '\'',
    ) + ")"@
}

/// Rows as SQL lists them.
pub open spec fn listed(rows: Seq<Seq<char>>) -> Seq<char>
    decreases rows.len(),
{
    if rows.len() == 0 {
        Seq::empty()
    } else if rows.len() == 1 {
        rows[0]
    } else {
        rows[0] + ",\n"@ + listed(rows.skip(1))
    }
}

/// Joining rows goes from either end.
proof fn lemma_listed(rows: Seq<Seq<char>>)
    ensures
        join_rows(rows) == listed(rows),
    decreases rows.len(),
{
    if rows.len() > 1 {
        let tail = rows.skip(1);
        let init = rows.drop_last();
        lemma_listed(tail);
        lemma_listed(init);
        if rows.len() == 2 {
            assert(init[0] == rows[0] && tail[0] == rows[1]);
            assert(join_rows(rows) =~= listed(rows));
        } else {
            let mid = rows.skip(1).drop_last();
            lemma_listed(mid);
            assert(init.skip(1) =~= mid);
            assert(tail.drop_last() =~= mid);
            assert(tail.last() == rows.last());
            assert(join_rows(rows) =~= rows[0] + ",\n"@ + listed(mid) + ",\n"@ + rows.last());
            assert(listed(rows) =~= rows[0] + ",\n"@ + (join_rows(mid) + ",\n"@ + rows.last()));
            assert(join_rows(rows) =~= listed(rows));
        }
    }
}

/// The place of a field in a registry: its event type, and the field.
pub open spec fn is_promoted_at(schemas: Seq<SchemaView>, at: (int, int)) -> bool {
    0 <= at.0 < schemas.len() && 0 <= at.1 < schemas[at.0].fields.len() && (
    schemas[at.0].fields[at.1].role == FieldRole::Key || schemas[at.0].fields[at.1].role
        == FieldRole::SpanId || schemas[at.0].fields[at.1].role == FieldRole::ParentSpanId)
}

/// `places` has each key, span id and parent span id of a registry once, in order.
pub open spec fn lists_promoted(schemas: Seq<SchemaView>, places: Seq<(int, int)>) -> bool {
    &&& forall|r: int| 0 <= r < places.len() ==> is_promoted_at(schemas, #[trigger] places[r])
    &&& forall|at: (int, int)| #[trigger]
        is_promoted_at(schemas, at) ==> places.contains(at)
    &&& forall|a: int, b: int|
        0 <= a < b < places.len() ==> (#[trigger] places[a]).0 < (#[trigger] places[b]).0 || (
        places[a].0 == places[b].0 && places[a].1 < places[b].1)
}

/// The rows of a manifest.
pub open spec fn rows_at(schemas: Seq<SchemaView>, places: Seq<(int, int)>) -> Seq<Seq<char>> {
    places.map_values(
        |at: (int, int)|
            manifest_row(title(schemas, at.0), schemas[at.0].fields[at.1]),
    )
}

/// The places of the promoted ones among the first `m` fields of event type `i`.
spec fn field_places(fields: Seq<FieldView>, i: int, m: nat) -> Seq<(int, int)>
    decreases m,
{
    if m == 0 {
        Seq::empty()
    } else if fields[m - 1].role != FieldRole::Plain {
        field_places(fields, i, (m - 1) as nat).push((i, m - 1))
    } else {
        field_places(fields, i, (m - 1) as nat)
    }
}

/// The places of the promoted fields of the first `n` event types.
spec fn type_places(schemas: Seq<SchemaView>, n: nat) -> Seq<(int, int)>
    decreases n,
{
    if n == 0 {
        Seq::empty()
    } else {
        type_places(schemas, (n - 1) as nat) + field_places(
            schemas[n - 1].fields,
            n - 1,
            schemas[n - 1].fields.len(),
        )
    }
}

/// The promoted ones among the first fields of an event type, and their rows.
proof fn lemma_field_places(schemas: Seq<SchemaView>, i: int, m: nat)
    requires
        0 <= i < schemas.len(),
        m <= schemas[i].fields.len(),
    ensures
        forall|r: int|
            0 <= r < field_places(schemas[i].fields, i, m).len() ==> is_promoted_at(
                schemas,
                #[trigger] field_places(schemas[i].fields, i, m)[r],
            ) && field_places(schemas[i].fields, i, m)[r].0 == i && field_places(
                schemas[i].fields,
                i,
                m,
            )[r].1 < m,
        forall|j: int|
            0 <= j < m && is_promoted_at(schemas, (i, j)) ==> #[trigger] field_places(
                schemas[i].fields,
                i,
                m,
            ).contains((i, j)),
        forall|a: int, b: int|
            0 <= a < b < field_places(schemas[i].fields, i, m).len() ==> (#[trigger] field_places(
                schemas[i].fields,
                i,
                m,
            )[a]).1 < (#[trigger] field_places(schemas[i].fields, i, m)[b]).1,
        field_rows(title(schemas, i), schemas[i].fields.take(m as int)) == rows_at(
            schemas,
            field_places(schemas[i].fields, i, m),
        ),
    decreases m,
{
    let fields = schemas[i].fields;
    let all = field_places(fields, i, m);
    if m == 0 {
        assert(field_rows(title(schemas, i), fields.take(0)) =~= rows_at(schemas, all));
    } else {
        let k = (m - 1) as nat;
        lemma_field_places(schemas, i, k);
        let before = field_places(fields, i, k);
        assert(fields.take(m as int).drop_last() =~= fields.take(k as int));
        assert(fields.take(m as int).last() == fields[k as int]);
        assert forall|r: int| 0 <= r < all.len() implies is_promoted_at(schemas, #[trigger] all[r])
            && all[r].0 == i && all[r].1 < m by {
            if r < before.len() {
                assert(all[r] == before[r]);
            }
        }
        assert forall|j: int| 0 <= j < m && is_promoted_at(schemas, (i, j)) implies #[trigger]
            all.contains((i, j)) by {
            if j < k {
                assert(before.contains((i, j)));
                let r = choose|r: int| 0 <= r < before.len() && before[r] == (i, j);
                assert(all[r] == (i, j));
            } else {
                assert(all[all.len() - 1] == (i, j));
            }
        }
        assert forall|a: int, b: int| 0 <= a < b < all.len() implies (#[trigger] all[a]).1 < (
        #[trigger] all[b]).1 by {
            assert(all[a] == before[a]);
            if b < before.len() {
                assert(all[b] == before[b]);
            }
        }
        assert(field_rows(title(schemas, i), fields.take(m as int)) =~= rows_at(schemas, all)) by {
            let f = fields[k as int];
            assert(role_text(f.role) == role_word(f.role));
            if f.role != FieldRole::Plain {
                assert(rows_at(schemas, all) =~= rows_at(schemas, before).push(
                    manifest_row(title(schemas, i), f),
                ));
            }
        }
    }
}

/// The promoted fields of the first event types, and their rows.
proof fn lemma_type_places(schemas: Seq<SchemaView>, n: nat)
    requires
        n <= schemas.len(),
    ensures
        forall|r: int|
            0 <= r < type_places(schemas, n).len() ==> is_promoted_at(
                schemas,
                #[trigger] type_places(schemas, n)[r],
            ) && type_places(schemas, n)[r].0 < n,
        forall|at: (int, int)|
            at.0 < n && is_promoted_at(schemas, at) ==> #[trigger] type_places(
                schemas,
                n,
            ).contains(at),
        forall|a: int, b: int|
            0 <= a < b < type_places(schemas, n).len() ==> (#[trigger] type_places(schemas, n)[a]).0
                < (#[trigger] type_places(schemas, n)[b]).0 || (type_places(schemas, n)[a].0
                == type_places(schemas, n)[b].0 && type_places(schemas, n)[a].1 < type_places(
                schemas,
                n,
            )[b].1),
        key_rows(schemas, n) == rows_at(schemas, type_places(schemas, n)),
    decreases n,
{
    let all = type_places(schemas, n);
    if n == 0 {
        assert(key_rows(schemas, n) =~= rows_at(schemas, all));
    } else {
        let m = (n - 1) as nat;
        let fields = schemas[n - 1].fields;
        let before = type_places(schemas, m);
        let more = field_places(fields, n - 1, fields.len());
        lemma_type_places(schemas, m);
        lemma_field_places(schemas, n - 1, fields.len());
        lemma_title(schemas, n - 1);
        assert(fields.take(fields.len() as int) =~= fields);
        assert forall|r: int| 0 <= r < all.len() implies is_promoted_at(schemas, #[trigger] all[r])
            && all[r].0 < n by {
            if r < before.len() {
                assert(all[r] == before[r]);
            } else {
                assert(all[r] == more[r - before.len()]);
            }
        }
        assert forall|at: (int, int)| at.0 < n && is_promoted_at(schemas, at) implies #[trigger]
            all.contains(at) by {
            if at.0 < m {
                assert(before.contains(at));
                let r = choose|r: int| 0 <= r < before.len() && before[r] == at;
                assert(all[r] == at);
            } else {
                assert(at == (n - 1, at.1));
                assert(more.contains((n - 1, at.1)));
                let r = choose|r: int| 0 <= r < more.len() && more[r] == at;
                assert(all[before.len() + r] == at);
            }
        }
        assert forall|a: int, b: int| 0 <= a < b < all.len() implies (#[trigger] all[a]).0 < (
        #[trigger] all[b]).0 || (all[a].0 == all[b].0 && all[a].1 < all[b].1) by {
            if b < before.len() {
                assert(all[a] == before[a] && all[b] == before[b]);
            } else if a < before.len() {
                assert(all[a] == before[a] && all[b] == more[b - before.len()]);
            } else {
                assert(all[a] == more[a - before.len()] && all[b] == more[b - before.len()]);
            }
        }
        assert(key_rows(schemas, n) =~= rows_at(schemas, all));
    }
}

/// The manifest has one row for each field of the registry that is a key, a span id or a parent span
/// id, in order, and no other: the event's title, the field's name and its role. A registry without
/// such fields has a manifest of no rows.
pub proof fn law_manifest_lists_promoted(
    schemas: &[OwnedSchema],
    out: String,
    places: Seq<(int, int)>,
)
    requires
        call_ensures(generate_tier1, (schemas,), out),
        lists_promoted(owned_schemas_view(schemas@), places),
    ensures
        has_part(out@, manifest(owned_schemas_view(schemas@), places)),
{
    lemma_tier1_manifest(owned_schemas_view(schemas@), places);
}

/// The manifest with the given rows.
pub open spec fn manifest(schemas: Seq<SchemaView>, places: Seq<(int, int)>) -> Seq<char> {
    if places.len() == 0 {
        "CREATE OR REPLACE VIEW backbeat_keys AS\n  SELECT NULL::VARCHAR AS event, NULL::VARCHAR AS field, NULL::VARCHAR AS role WHERE false;\n"@
    } else {
        "CREATE OR REPLACE VIEW backbeat_keys AS\n  SELECT * FROM (VALUES\n"@ + listed(
            rows_at(schemas, places),
        ) + "\n  ) AS t(event, field, role);\n"@
    }
}

/// The manifest in the generated DDL.
pub proof fn lemma_tier1_manifest(view: Seq<SchemaView>, places: Seq<(int, int)>)
    requires
        lists_promoted(view, places),
    ensures
        has_part(tier1_text(view), manifest(view, places)),
{
    let n = view.len();
    let got = type_places(view, n);
    lemma_type_places(view, n);
    lemma_places_unique(view, got, places);
    let rows = key_rows(view, view.len());
    lemma_listed(rows);
    assert(rows.len() == places.len());
    let head = TIER1_HEAD@ + EVENTS_HEAD@ + event_views(view, view.len()) + KEYS_HEAD@;
    lemma_part_of(head, keys_view(view), Seq::empty());
    assert(tier1_text(view) =~= head + keys_view(view) + Seq::<char>::empty());
}

/// There is one such list.
proof fn lemma_places_unique(
    schemas: Seq<SchemaView>,
    a: Seq<(int, int)>,
    b: Seq<(int, int)>,
)
    requires
        lists_promoted(schemas, b),
        forall|r: int| 0 <= r < a.len() ==> is_promoted_at(schemas, #[trigger] a[r]),
        forall|at: (int, int)|
            at.0 < schemas.len() && is_promoted_at(schemas, at) ==> #[trigger] a.contains(at),
        forall|x: int, y: int|
            0 <= x < y < a.len() ==> (#[trigger] a[x]).0 < (#[trigger] a[y]).0 || (a[x].0 == a[y].0
                && a[x].1 < a[y].1),
    ensures
        a == b,
{
    assert forall|r: int| 0 <= r < a.len() && r < b.len() implies a[r] == b[r] by {
        lemma_places_prefix(schemas, a, b, r as nat);
    }
    if a.len() < b.len() {
        let at = b[a.len() as int];
        assert(is_promoted_at(schemas, at));
        assert(a.contains(at));
        let r = choose|r: int| 0 <= r < a.len() && a[r] == at;
        assert(b[r] == at);
    }
    if b.len() < a.len() {
        let at = a[b.len() as int];
        assert(is_promoted_at(schemas, at));
        assert(b.contains(at));
        let r = choose|r: int| 0 <= r < b.len() && b[r] == at;
        assert(a[r] == at);
    }
    assert(a =~= b);
}

/// Two such lists agree place by place.
proof fn lemma_places_prefix(
    schemas: Seq<SchemaView>,
    a: Seq<(int, int)>,
    b: Seq<(int, int)>,
    n: nat,
)
    requires
        lists_promoted(schemas, b),
        forall|r: int| 0 <= r < a.len() ==> is_promoted_at(schemas, #[trigger] a[r]),
        forall|at: (int, int)|
            at.0 < schemas.len() && is_promoted_at(schemas, at) ==> #[trigger] a.contains(at),
        forall|x: int, y: int|
            0 <= x < y < a.len() ==> (#[trigger] a[x]).0 < (#[trigger] a[y]).0 || (a[x].0 == a[y].0
                && a[x].1 < a[y].1),
        n < a.len(),
        n < b.len(),
    ensures
        forall|r: int| 0 <= r <= n ==> a[r] == b[r],
    decreases n,
{
    if n > 0 {
        lemma_places_prefix(schemas, a, b, (n - 1) as nat);
    }
    let x = a[n as int];
    let y = b[n as int];
    assert(is_promoted_at(schemas, x) && is_promoted_at(schemas, y));
    assert(a.contains(y) && b.contains(x));
    let i = choose|i: int| 0 <= i < a.len() && a[i] == y;
    let j = choose|j: int| 0 <= j < b.len() && b[j] == x;
    if i < n {
        assert(b[i] == y && b[i] == b[n as int]);
    }
    if j < n {
        assert(a[j] == x && a[j] == a[n as int]);
    }
}

// ---------------------------------------------------------------------------
// Registered view sets.
// ---------------------------------------------------------------------------

/// Texts stand in another one behind the other, the first from `from` on.
pub open spec fn stand_in_turn(
    text: Seq<char>,
    parts: Seq<Seq<char>>,
    places: Seq<int>,
    from: int,
) -> bool {
    &&& places.len() == parts.len()
    &&& forall|k: int|
        0 <= k < parts.len() ==> #[trigger] places[k] >= from && stands_at(
            text,
            parts[k],
            places[k],
        )
    &&& forall|a: int, b: int|
        0 <= a < b < parts.len() ==> #[trigger] places[a] + parts[a].len() <= #[trigger] places[b]
}

/// Where the view sets stand.
proof fn lemma_sets_stand(head: Seq<char>, tier2: Seq<Seq<char>>, n: nat) -> (places: Seq<int>)
    requires
        n <= tier2.len(),
    ensures
        stand_in_turn(head + view_sets_text(tier2, n), tier2.take(n as int), places, head.len() as int),
        forall|k: int|
            0 <= k < n ==> stands_at(
                head + view_sets_text(tier2, n),
                "-- Registered view set #"@ + dec_text((k + 1) as nat) + ".\n"@ + tier2[k],
                #[trigger] places[k] - ("-- Registered view set #"@ + dec_text((k + 1) as nat)
                    + ".\n"@).len(),
            ),
    decreases n,
{
    let text = head + view_sets_text(tier2, n);
    if n == 0 {
        Seq::empty()
    } else {
        let m = (n - 1) as nat;
        let before = lemma_sets_stand(head, tier2, m);
        let old_text = head + view_sets_text(tier2, m);
        let label = "-- Registered view set #"@ + dec_text(n) + ".\n"@;
        reveal_strlit("\n-- Registered view set #");
        reveal_strlit("-- Registered view set #");
        let more = view_set_text(m, tier2[m as int]);
        assert(text =~= old_text + more);
        assert("\n-- Registered view set #"@ =~= seq!['\n'] + "-- Registered view set #"@);
        let p: int = old_text.len() as int + 1 + label.len();
        let places = before.push(p);
        assert(text.subrange(p, p + tier2[m as int].len()) =~= tier2[m as int]);
        assert(text.subrange(old_text.len() as int + 1, p + tier2[m as int].len()) =~= label
            + tier2[m as int]);
        assert forall|k: int| 0 <= k < n implies #[trigger] places[k] >= head.len() && stands_at(
            text,
            tier2.take(n as int)[k],
            places[k],
        ) by {
            if k < m {
                assert(places[k] == before[k]);
                assert(stands_at(old_text, tier2.take(m as int)[k], before[k]));
                assert(text.subrange(before[k], before[k] + tier2[k].len())
                    =~= old_text.subrange(before[k], before[k] + tier2[k].len()));
            }
        }
        assert forall|a: int, b: int| 0 <= a < b < n implies #[trigger] places[a] + tier2.take(
            n as int,
        )[a].len() <= #[trigger] places[b] by {
            assert(stands_at(old_text, tier2.take(m as int)[a], before[a]));
            if b < m {
                assert(places[a] == before[a] && places[b] == before[b]);
                assert(tier2.take(m as int)[a] == tier2[a]);
            }
        }
        assert forall|k: int| 0 <= k < n implies stands_at(
            text,
            "-- Registered view set #"@ + dec_text((k + 1) as nat) + ".\n"@ + tier2[k],
            #[trigger] places[k] - ("-- Registered view set #"@ + dec_text((k + 1) as nat)
                + ".\n"@).len(),
        ) by {
            if k < m {
                let l = "-- Registered view set #"@ + dec_text((k + 1) as nat) + ".\n"@;
                let at = before[k] - l.len();
                assert(places[k] == before[k]);
                assert(stands_at(old_text, l + tier2[k], at));
                assert(text.subrange(at, at + (l + tier2[k]).len()) =~= old_text.subrange(
                    at,
                    at + (l + tier2[k]).len(),
                ));
            }
        }
        places
    }
}

/// The full DDL is what the registry gives, followed by every registered view set: verbatim, in
/// order, each behind a comment with its number.
pub proof fn law_view_sets_verbatim(
    schemas: &[OwnedSchema],
    tier2: &[String],
    head: String,
    out: String,
)
    requires
        call_ensures(generate_tier1, (schemas,), head),
        call_ensures(assemble, (schemas, tier2), out),
    ensures
        out@.len() >= head@.len(),
        out@.take(head@.len() as int) == head@,
        exists|places: Seq<int>| #[trigger]
            stand_in_turn(out@, strings_view(tier2@), places, head@.len() as int) && forall|k: int|
                0 <= k < tier2@.len() ==> stands_at(
                    out@,
                    "-- Registered view set #"@ + dec_text((k + 1) as nat) + ".\n"@ + tier2@[k]@,
                    #[trigger] places[k] - ("-- Registered view set #"@ + dec_text((k + 1) as nat)
                        + ".\n"@).len(),
                ),
{
    let sets = strings_view(tier2@);
    let places = lemma_sets_stand(head@, sets, sets.len());
    assert(sets.take(sets.len() as int) =~= sets);
    assert(out@ =~= head@ + view_sets_text(sets, sets.len()));
    assert(out@.take(head@.len() as int) =~= head@);
    assert forall|k: int| 0 <= k < tier2@.len() implies stands_at(
        out@,
        "-- Registered view set #"@ + dec_text((k + 1) as nat) + ".\n"@ + tier2@[k]@,
        #[trigger] places[k] - ("-- Registered view set #"@ + dec_text((k + 1) as nat)
            + ".\n"@).len(),
    ) by {
        assert(sets[k] == tier2@[k]@);
    }
}

} // verus!
