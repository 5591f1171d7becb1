//! What the summary of a dump says, read back from its text.

use crate::buf::bytes_of;
use crate::decode_laws::digit_value;
use crate::id::id_hex;
use crate::inspect::{
    entry_count, envelope_text, event_count, event_line, event_lines, field_line, field_lines,
    inspect, instance_line, instance_lines, instances_text, opt_note, phase_note, registry_text,
    role_mark, shard_line, shard_lines, shards_text, summary, tally, tally_add, tally_le,
    tally_lines, tally_pos, total_count, total_entries, total_lines, type_text, view_line,
    view_lines, views_text, walk_count,
};
use crate::model::{dump_parts, lemma_schema_of_id, schema_of_id, shard_walk, DumpParts};
use crate::order::{insert_pos, lemma_insert_pos_bound};
use crate::parse::p_dump;
use crate::record::record_id;
use crate::ring::payloads;
use crate::schema::{FieldRole, FieldType, FieldView, Phase, SchemaView};
use crate::text::{
    dec_text, digit, has_part, hex_text, law_number_round_trip, lemma_part_in_part, lemma_part_of,
    lemma_part_within, number_of, pad_left, stands_at,
};
use crate::view_laws::{lemma_strung_has, strung};
use crate::wire::{Error, InternView, MetaView, ShardView};
use bytes::Bytes;
use vstd::prelude::*;
use vstd::utf8::encode_utf8;

verus! {

// ---------------------------------------------------------------------------
// Reading a text back.
// ---------------------------------------------------------------------------

/// So many spaces.
pub open spec fn spaces(n: nat) -> Seq<char> {
    Seq::new(n, |i: int| ' ')
}

/// Between two texts stands a number in base 10, with spaces before it or not.
pub open spec fn says_number(text: Seq<char>, before: Seq<char>, n: nat, after: Seq<char>) -> bool {
    exists|pad: nat, d: Seq<char>|
        number_of(d) == Some(n) && #[trigger] has_part(text, before + spaces(pad) + d + after)
}

/// The number that hexadecimal digits write.
pub open spec fn hex_value(s: Seq<char>) -> int
    decreases s.len(),
{
    if s.len() == 0 {
        0
    } else {
        16 * hex_value(s.drop_last()) + digit_value(s.last())
    }
}

/// Sixteen to a power.
pub open spec fn pow16(n: nat) -> nat
    decreases n,
{
    if n == 0 {
        1
    } else {
        16 * pow16((n - 1) as nat)
    }
}

/// Between two texts stands a number in base 16, on so many digits.
pub open spec fn says_hex(
    text: Seq<char>,
    before: Seq<char>,
    v: nat,
    digits: nat,
    after: Seq<char>,
) -> bool {
    exists|h: Seq<char>|
        h.len() == digits && hex_value(h) == v && #[trigger] has_part(text, before + h + after)
}

/// Digits in base 16 write their number.
pub proof fn lemma_hex_value(n: nat, width: nat)
    requires
        n < pow16(width),
    ensures
        hex_text(n, width).len() == width,
        hex_value(hex_text(n, width)) == n,
    decreases width,
{
    if width > 0 {
        let w = (width - 1) as nat;
        let t = hex_text(n, width);
        assert(n / 16 < pow16(w));
        lemma_hex_value(n / 16, w);
        assert(t.drop_last() =~= hex_text(n / 16, w));
        assert(t.last() == digit(n % 16));
        assert(digit_value(digit(n % 16)) == n % 16);
    }
}

/// Padding is spaces.
proof fn lemma_pad(t: Seq<char>, width: nat) -> (pad: nat)
    ensures
        pad_left(t, width) == spaces(pad) + t,
{
    if t.len() < width {
        assert(pad_left(t, width) =~= spaces((width - t.len()) as nat) + t);
        (width - t.len()) as nat
    } else {
        assert(pad_left(t, width) =~= spaces(0) + t);
        0
    }
}

/// What stands in a text stands in it with more behind it.
proof fn lemma_part_more(text: Seq<char>, more: Seq<char>, part: Seq<char>)
    requires
        has_part(text, part),
    ensures
        has_part(text + more, part),
{
    let e = Seq::<char>::empty();
    lemma_part_within(e, text, more, part);
    assert(e + text + more =~= text + more);
}

/// A number that is written stands there.
proof fn lemma_says(left: Seq<char>, before: Seq<char>, n: nat, after: Seq<char>)
    ensures
        says_number(left + before + dec_text(n) + after, before, n, after),
{
    law_number_round_trip(n);
    lemma_says_spaced(left, before, 0, dec_text(n), n, after);
    lemma_no_spaces(dec_text(n));
}

/// No spaces change nothing.
proof fn lemma_no_spaces(t: Seq<char>)
    ensures
        spaces(0) + t == t,
{
    assert(spaces(0) + t =~= t);
}

/// A number that is written with padding stands there.
proof fn lemma_says_padded(left: Seq<char>, before: Seq<char>, n: nat, width: nat, after: Seq<char>)
    ensures
        says_number(left + before + pad_left(dec_text(n), width) + after, before, n, after),
{
    law_number_round_trip(n);
    let pad = lemma_pad(dec_text(n), width);
    lemma_says_spaced(left, before, pad, dec_text(n), n, after);
}

/// A number with spaces before it stands there.
proof fn lemma_says_spaced(
    left: Seq<char>,
    before: Seq<char>,
    pad: nat,
    d: Seq<char>,
    n: nat,
    after: Seq<char>,
)
    requires
        number_of(d) == Some(n),
    ensures
        says_number(left + before + (spaces(pad) + d) + after, before, n, after),
{
    lemma_regroup(left, before, spaces(pad), d, after);
    let part = before + spaces(pad) + d + after;
    assert(has_part(left + before + (spaces(pad) + d) + after, part));
}

/// How a text is put together does not matter.
proof fn lemma_regroup(
    left: Seq<char>,
    before: Seq<char>,
    sp: Seq<char>,
    d: Seq<char>,
    after: Seq<char>,
)
    ensures
        has_part(left + before + (sp + d) + after, before + sp + d + after),
{
    let part = before + sp + d + after;
    lemma_part_last(left, part);
    lemma_assoc(before, sp, d);
    lemma_assoc(left, before, sp + d);
    lemma_assoc(left, before + sp + d, after);
}

/// How three texts are put together does not matter.
proof fn lemma_assoc(a: Seq<char>, b: Seq<char>, c: Seq<char>)
    ensures
        a + b + c == a + (b + c),
{
    assert(a + b + c =~= a + (b + c));
}

/// A text stands at the end of what is written before it.
proof fn lemma_part_last(left: Seq<char>, part: Seq<char>)
    ensures
        has_part(left + part, part),
{
    let e = Seq::<char>::empty();
    lemma_part_of(left, part, e);
    assert(left + part + e =~= left + part);
}

/// What a text says it says with more behind it.
proof fn lemma_says_more(
    text: Seq<char>,
    more: Seq<char>,
    before: Seq<char>,
    n: nat,
    after: Seq<char>,
)
    requires
        says_number(text, before, n, after),
    ensures
        says_number(text + more, before, n, after),
{
    let (pad, d) = choose|pad: nat, d: Seq<char>|
        number_of(d) == Some(n) && #[trigger] has_part(text, before + spaces(pad) + d + after);
    lemma_part_more(text, more, before + spaces(pad) + d + after);
}

/// What a text says it says with more behind it.
proof fn lemma_hex_more(
    text: Seq<char>,
    more: Seq<char>,
    before: Seq<char>,
    v: nat,
    digits: nat,
    after: Seq<char>,
)
    requires
        says_hex(text, before, v, digits, after),
    ensures
        says_hex(text + more, before, v, digits, after),
{
    let h = choose|h: Seq<char>|
        h.len() == digits && hex_value(h) == v && #[trigger] has_part(text, before + h + after);
    lemma_part_more(text, more, before + h + after);
}

/// What a part of a text says, the text says.
proof fn lemma_says_within(
    text: Seq<char>,
    part: Seq<char>,
    before: Seq<char>,
    n: nat,
    after: Seq<char>,
)
    requires
        has_part(text, part),
        says_number(part, before, n, after),
    ensures
        says_number(text, before, n, after),
{
    let (pad, d) = choose|pad: nat, d: Seq<char>|
        number_of(d) == Some(n) && #[trigger] has_part(part, before + spaces(pad) + d + after);
    lemma_part_in_part(text, part, before + spaces(pad) + d + after);
}

/// A number in base 16 that is written stands there.
proof fn lemma_says_hex(left: Seq<char>, before: Seq<char>, v: nat, digits: nat, after: Seq<char>)
    requires
        v < pow16(digits),
    ensures
        says_hex(left + before + hex_text(v, digits) + after, before, v, digits, after),
{
    lemma_hex_value(v, digits);
    let h = hex_text(v, digits);
    lemma_part_last(left, before + h + after);
    lemma_assoc(left, before + h, after);
    lemma_assoc(left, before, h);
}

/// An id that is written stands there.
proof fn lemma_says_id(left: Seq<char>, before: Seq<char>, id: u64, after: Seq<char>)
    ensures
        says_hex(left + before + id_hex(id) + after, before + "0x"@, id as nat, 16, after),
{
    lemma_pow16();
    let h = hex_text(id as nat, 16);
    lemma_says_hex(left, before + "0x"@, id as nat, 16, after);
    lemma_assoc(left, before, "0x"@);
    lemma_assoc(left + before, "0x"@, h);
}

/// The powers of sixteen that are needed.
proof fn lemma_pow16()
    ensures
        pow16(4) == 0x1_0000,
        pow16(16) == 0x1_0000_0000_0000_0000,
{
    reveal_with_fuel(pow16, 17);
}

/// A text is a line of another: it stands at its start or behind a line break, and ends with the only
/// line break in it.
pub open spec fn is_line(text: Seq<char>, line: Seq<char>) -> bool {
    &&& line.len() > 0
    &&& line.last() == '\n'
    &&& !line.drop_last().contains('\n')
    &&& exists|i: int| #[trigger]
        stands_at(text, line, i) && (i == 0 || text[i - 1] == '\n')
}

/// A text that ends with a line break, or none.
spec fn closed(t: Seq<char>) -> bool {
    t.len() == 0 || t.last() == '\n'
}

/// A line within a text that starts on a line of its own.
proof fn lemma_line_within(left: Seq<char>, text: Seq<char>, right: Seq<char>, line: Seq<char>)
    requires
        is_line(text, line),
        closed(left),
    ensures
        is_line(left + text + right, line),
{
    let i = choose|i: int| #[trigger]
        stands_at(text, line, i) && (i == 0 || text[i - 1] == '\n');
    let all = left + text + right;
    let j = left.len() + i;
    assert(all.subrange(j, j + line.len()) =~= text.subrange(i, i + line.len()));
    assert(stands_at(all, line, j));
    if i > 0 {
        assert(all[j - 1] == text[i - 1]);
    } else if left.len() > 0 {
        assert(all[j - 1] == left.last());
    }
}

/// A line is a line of itself.
proof fn lemma_line_self(line: Seq<char>)
    requires
        line.len() > 0,
        line.last() == '\n',
        !line.drop_last().contains('\n'),
    ensures
        is_line(line, line),
{
    assert(line.subrange(0, line.len() as int) =~= line);
    assert(stands_at(line, line, 0));
}

/// No digit is a line break.
proof fn lemma_no_break_dec(n: nat)
    ensures
        !dec_text(n).contains('\n'),
    decreases n,
{
    law_number_round_trip(n);
    if dec_text(n).contains('\n') {
        let i = choose|i: int| 0 <= i < dec_text(n).len() && dec_text(n)[i] == '\n';
        assert(crate::text::is_digit(dec_text(n)[i]));
    }
}

/// No digit is a line break.
proof fn lemma_no_break_hex(n: nat, width: nat)
    ensures
        !hex_text(n, width).contains('\n'),
    decreases width,
{
    if width > 0 {
        lemma_no_break_hex(n / 16, (width - 1) as nat);
        let t = hex_text(n, width);
        let init = hex_text(n / 16, (width - 1) as nat);
        if t.contains('\n') {
            let i = choose|i: int| 0 <= i < t.len() && t[i] == '\n';
            if i < init.len() {
                assert(init[i] == '\n');
            }
        }
    }
}

/// Two texts without line breaks make one.
proof fn lemma_no_break(a: Seq<char>, b: Seq<char>)
    requires
        !a.contains('\n'),
        !b.contains('\n'),
    ensures
        !(a + b).contains('\n'),
{
    if (a + b).contains('\n') {
        let i = choose|i: int| 0 <= i < (a + b).len() && (a + b)[i] == '\n';
        if i < a.len() {
            assert(a[i] == '\n');
        } else {
            assert(b[i - a.len()] == '\n');
        }
    }
}

// ---------------------------------------------------------------------------
// Shards.
// ---------------------------------------------------------------------------

/// A line says of a shard which one it is, where its head stands, how large it is, and how many
/// records were recovered from it.
pub open spec fn tells_shard(line: Seq<char>, shard: ShardView, records: nat) -> bool {
    &&& says_hex(line, "  instance "@ + "0x"@, shard.instance_id as nat, 16, "  shard "@)
    &&& says_number(line, "  shard "@, shard.shard_id as nat, ": head "@)
    &&& says_number(line, ": head "@, shard.head as nat, "  capacity "@)
    &&& says_number(line, "  capacity "@, shard.capacity as nat, "  "@)
    &&& says_number(line, "  "@, records, " records\n"@)
}

/// The pieces of a shard's line, one behind the other.
proof fn lemma_shard_says(schemas: Seq<SchemaView>, shard: ShardView)
    ensures
        tells_shard(
            shard_line(schemas, shard),
            shard,
            shard_walk(schemas, shard).len(),
        ),
{
    let id = id_hex(shard.instance_id);
    let p1 = pad_left(dec_text(shard.shard_id as nat), 3);
    let p2 = pad_left(dec_text(shard.head as nat), 10);
    let p3 = pad_left(dec_text(shard.capacity as nat), 10);
    let n = shard_walk(schemas, shard).len();
    let e = Seq::<char>::empty();
    let t0 = "  instance "@ + id;
    let t1 = t0 + "  shard "@;
    let t2 = t1 + p1 + ": head "@;
    let t3 = t2 + p2 + "  capacity "@;
    let t4 = t3 + p3 + "  "@;
    let t5 = t4 + dec_text(n) + " records\n"@;
    assert(t5 == shard_line(schemas, shard));
    lemma_says_id(e, "  instance "@, shard.instance_id, "  shard "@);
    assert(e + "  instance "@ =~= "  instance "@);
    let w0 = "  instance "@ + "0x"@;
    let v0 = shard.instance_id as nat;
    lemma_hex_more(t1, p1, w0, v0, 16, "  shard "@);
    lemma_hex_more(t1 + p1, ": head "@, w0, v0, 16, "  shard "@);
    lemma_hex_more(t2, p2, w0, v0, 16, "  shard "@);
    lemma_hex_more(t2 + p2, "  capacity "@, w0, v0, 16, "  shard "@);
    lemma_hex_more(t3, p3, w0, v0, 16, "  shard "@);
    lemma_hex_more(t3 + p3, "  "@, w0, v0, 16, "  shard "@);
    lemma_hex_more(t4, dec_text(n), w0, v0, 16, "  shard "@);
    lemma_hex_more(t4 + dec_text(n), " records\n"@, w0, v0, 16, "  shard "@);
    let v1 = shard.shard_id as nat;
    lemma_says_padded(t0, "  shard "@, v1, 3, ": head "@);
    lemma_says_more(t2, p2, "  shard "@, v1, ": head "@);
    lemma_says_more(t2 + p2, "  capacity "@, "  shard "@, v1, ": head "@);
    lemma_says_more(t3, p3, "  shard "@, v1, ": head "@);
    lemma_says_more(t3 + p3, "  "@, "  shard "@, v1, ": head "@);
    lemma_says_more(t4, dec_text(n), "  shard "@, v1, ": head "@);
    lemma_says_more(t4 + dec_text(n), " records\n"@, "  shard "@, v1, ": head "@);
    let v2 = shard.head as nat;
    lemma_says_padded(t1 + p1, ": head "@, v2, 10, "  capacity "@);
    lemma_says_more(t3, p3, ": head "@, v2, "  capacity "@);
    lemma_says_more(t3 + p3, "  "@, ": head "@, v2, "  capacity "@);
    lemma_says_more(t4, dec_text(n), ": head "@, v2, "  capacity "@);
    lemma_says_more(t4 + dec_text(n), " records\n"@, ": head "@, v2, "  capacity "@);
    let v3 = shard.capacity as nat;
    lemma_says_padded(t2 + p2, "  capacity "@, v3, 10, "  "@);
    lemma_says_more(t4, dec_text(n), "  capacity "@, v3, "  "@);
    lemma_says_more(t4 + dec_text(n), " records\n"@, "  capacity "@, v3, "  "@);
    lemma_says(t3 + p3, "  "@, n, " records\n"@);
}

/// Padding brings no line break in.
proof fn lemma_no_break_pad(n: nat, width: nat)
    ensures
        !pad_left(dec_text(n), width).contains('\n'),
{
    lemma_no_break_dec(n);
    let pad = lemma_pad(dec_text(n), width);
    lemma_no_break(spaces(pad), dec_text(n));
}

/// A shard's line is one line.
proof fn lemma_shard_is_line(schemas: Seq<SchemaView>, shard: ShardView)
    ensures
        is_line(shard_line(schemas, shard), shard_line(schemas, shard)),
{
    reveal_strlit("  instance ");
    reveal_strlit("0x");
    reveal_strlit("  shard ");
    reveal_strlit(": head ");
    reveal_strlit("  capacity ");
    reveal_strlit("  ");
    reveal_strlit(" records\n");
    reveal_strlit(" records");
    let id = id_hex(shard.instance_id);
    let p1 = pad_left(dec_text(shard.shard_id as nat), 3);
    let p2 = pad_left(dec_text(shard.head as nat), 10);
    let p3 = pad_left(dec_text(shard.capacity as nat), 10);
    let n = shard_walk(schemas, shard).len();
    lemma_no_break_hex(shard.instance_id as nat, 16);
    lemma_no_break("0x"@, hex_text(shard.instance_id as nat, 16));
    lemma_no_break_pad(shard.shard_id as nat, 3);
    lemma_no_break_pad(shard.head as nat, 10);
    lemma_no_break_pad(shard.capacity as nat, 10);
    lemma_no_break_dec(n);
    let t0 = "  instance "@ + id;
    let t1 = t0 + "  shard "@;
    let t2 = t1 + p1 + ": head "@;
    let t3 = t2 + p2 + "  capacity "@;
    let t4 = t3 + p3 + "  "@;
    lemma_no_break("  instance "@, id);
    lemma_no_break(t0, "  shard "@);
    lemma_no_break(t1, p1);
    lemma_no_break(t1 + p1, ": head "@);
    lemma_no_break(t2, p2);
    lemma_no_break(t2 + p2, "  capacity "@);
    lemma_no_break(t3, p3);
    lemma_no_break(t3 + p3, "  "@);
    lemma_no_break(t4, dec_text(n));
    lemma_closed_line(t4 + dec_text(n), " records"@);
    assert(" records"@ + seq!['\n'] =~= " records\n"@);
    assert(shard_line(schemas, shard) == t4 + dec_text(n) + " records\n"@);
}

/// A text without line breaks and a line break are a line.
proof fn lemma_closed_line(a: Seq<char>, b: Seq<char>)
    requires
        !a.contains('\n'),
        !b.contains('\n'),
    ensures
        is_line(a + (b + seq!['\n']), a + (b + seq!['\n'])),
{
    let line = a + (b + seq!['\n']);
    lemma_no_break(a, b);
    assert(line.drop_last() =~= a + b);
    assert(line.last() == '\n');
    lemma_line_self(line);
}

/// The lines of shards.
proof fn lemma_shard_lines(schemas: Seq<SchemaView>, shards: Seq<ShardView>)
    ensures
        closed(shard_lines(schemas, shards)),
        forall|k: int|
            0 <= k < shards.len() ==> is_line(
                shard_lines(schemas, shards),
                shard_line(schemas, #[trigger] shards[k]),
            ),
    decreases shards.len(),
{
    if shards.len() > 0 {
        let init = shards.drop_last();
        let n = shards.len() - 1;
        lemma_shard_lines(schemas, init);
        lemma_shard_is_line(schemas, shards[n]);
        let before = shard_lines(schemas, init);
        lemma_lines_step(before, shard_line(schemas, shards[n]));
        assert forall|k: int| 0 <= k < shards.len() implies is_line(
            shard_lines(schemas, shards),
            shard_line(schemas, #[trigger] shards[k]),
        ) by {
            if k < n {
                assert(init[k] == shards[k]);
                assert(is_line(before, shard_line(schemas, shards[k])));
            }
        }
    }
}

/// One more line.
proof fn lemma_lines_step(before: Seq<char>, last: Seq<char>)
    requires
        closed(before),
        is_line(last, last),
    ensures
        closed(before + last),
        is_line(before + last, last),
        forall|line: Seq<char>| is_line(before, line) ==> #[trigger] is_line(before + last, line),
{
    let e = Seq::<char>::empty();
    let all = before + last;
    assert(all =~= e + before + last);
    assert(all =~= before + last + e);
    lemma_line_within(before, last, e, last);
    assert forall|line: Seq<char>| is_line(before, line) implies #[trigger] is_line(all, line) by {
        lemma_line_within(e, before, last, line);
    }
}

/// What a successful inspection says.
proof fn lemma_inspected(bytes: Bytes, text: String, parts: DumpParts)
    requires
        call_ensures(inspect, (bytes,), Ok::<String, Error>(text)),
        p_dump(bytes_of(bytes)) matches Ok(d) && dump_parts(d.sections) == Ok::<DumpParts, Error>(
            parts,
        ),
    ensures
        text@ == summary(
            bytes_of(bytes).len(),
            p_dump(bytes_of(bytes))->Ok_0.flags,
            p_dump(bytes_of(bytes))->Ok_0.sections.len(),
            parts,
        ),
{
}

/// The summary has a line for each shard of the dump, which says of which instance it is, which one,
/// where its head stands, what its capacity is, and how many records were recovered from it; and it
/// says how many shards there are.
pub proof fn law_shards_summed_up(bytes: Bytes, text: String, parts: DumpParts, k: int)
    requires
        call_ensures(inspect, (bytes,), Ok::<String, Error>(text)),
        p_dump(bytes_of(bytes)) matches Ok(d) && dump_parts(d.sections) == Ok::<DumpParts, Error>(
            parts,
        ),
        0 <= k < parts.shards.len(),
    ensures
        exists|line: Seq<char>| #[trigger]
            is_line(text@, line) && tells_shard(
                line,
                parts.shards[k],
                shard_walk(parts.schemas, parts.shards[k]).len(),
            ),
        says_number(text@, "\nshards ("@, parts.shards.len(), ")\n"@),
{
    lemma_inspected(bytes, text, parts);
    let d = p_dump(bytes_of(bytes))->Ok_0;
    let shards = parts.shards;
    let line = shard_line(parts.schemas, shards[k]);
    lemma_shard_lines(parts.schemas, shards);
    lemma_shard_says(parts.schemas, shards[k]);
    let head = envelope_text(bytes_of(bytes).len(), d.flags, d.sections.len()) + registry_text(
        parts.schemas,
    ) + instances_text(parts.metas, parts.interns) + views_text(parts.views);
    lemma_shards_part(head, parts.schemas, shards, line);
}

/// The lines of the shards in the summary.
proof fn lemma_shards_part(
    head: Seq<char>,
    schemas: Seq<SchemaView>,
    shards: Seq<ShardView>,
    line: Seq<char>,
)
    requires
        is_line(shard_lines(schemas, shards), line),
    ensures
        is_line(head + shards_text(schemas, shards), line),
        says_number(head + shards_text(schemas, shards), "\nshards ("@, shards.len(), ")\n"@),
{
    let open = "\nshards ("@ + dec_text(shards.len()) + ")\n"@;
    let lines = shard_lines(schemas, shards);
    let total = dec_text(total_count(schemas, shards));
    let tail = tally_lines(tally(schemas, shards, schemas.len()));
    let rest = "\nrecords: "@ + total + " total\n"@ + tail;
    let all = head + shards_text(schemas, shards);
    reveal_strlit(")\n");
    assert((head + open).last() == '\n');
    lemma_line_within(head + open, lines, rest, line);
    assert(shards_text(schemas, shards) =~= open + lines + rest);
    assert(all =~= head + open + lines + rest);
    lemma_says(head, "\nshards ("@, shards.len(), ")\n"@);
    assert(head + open =~= head + "\nshards ("@ + dec_text(shards.len()) + ")\n"@);
    lemma_says_more(head + open, lines, "\nshards ("@, shards.len(), ")\n"@);
    lemma_says_more(head + open + lines, rest, "\nshards ("@, shards.len(), ")\n"@);
}

// ---------------------------------------------------------------------------
// The envelope.
// ---------------------------------------------------------------------------

/// The summary says how long the dump is, which flags it has, and how many sections.
pub proof fn law_envelope_summed_up(bytes: Bytes, text: String, parts: DumpParts)
    requires
        call_ensures(inspect, (bytes,), Ok::<String, Error>(text)),
        p_dump(bytes_of(bytes)) matches Ok(d) && dump_parts(d.sections) == Ok::<DumpParts, Error>(
            parts,
        ),
    ensures
        says_number(text@, "size:      "@, bytes_of(bytes).len(), " bytes\n  flags:     0x"@),
        says_hex(
            text@,
            " bytes\n  flags:     0x"@,
            p_dump(bytes_of(bytes))->Ok_0.flags as nat,
            4,
            "\n  sections:  "@,
        ),
        says_number(
            text@,
            "\n  sections:  "@,
            p_dump(bytes_of(bytes))->Ok_0.sections.len(),
            "\n"@,
        ),
{
    lemma_inspected(bytes, text, parts);
    let d = p_dump(bytes_of(bytes))->Ok_0;
    let size = bytes_of(bytes).len();
    let n = d.sections.len();
    let env = envelope_text(size, d.flags, n);
    let rest = registry_text(parts.schemas) + (instances_text(parts.metas, parts.interns)
        + (views_text(parts.views) + shards_text(parts.schemas, parts.shards)));
    let a = registry_text(parts.schemas);
    let b = instances_text(parts.metas, parts.interns);
    let c = views_text(parts.views);
    let e = shards_text(parts.schemas, parts.shards);
    lemma_assoc(env + a + b, c, e);
    lemma_assoc(env + a, b, c + e);
    lemma_assoc(env, a, b + (c + e));
    assert(text@ == env + rest);
    lemma_envelope(size, d.flags, n);
    lemma_says_more(env, rest, "size:      "@, size, " bytes\n  flags:     0x"@);
    lemma_hex_more(
        env,
        rest,
        " bytes\n  flags:     0x"@,
        d.flags as nat,
        4,
        "\n  sections:  "@,
    );
    lemma_says_more(env, rest, "\n  sections:  "@, n, "\n"@);
}

/// The envelope.
proof fn lemma_envelope(size: nat, flags: u16, n: nat)
    ensures
        says_number(
            envelope_text(size, flags, n),
            "size:      "@,
            size,
            " bytes\n  flags:     0x"@,
        ),
        says_hex(
            envelope_text(size, flags, n),
            " bytes\n  flags:     0x"@,
            flags as nat,
            4,
            "\n  sections:  "@,
        ),
        says_number(envelope_text(size, flags, n), "\n  sections:  "@, n, "\n"@),
{
    reveal_strlit("envelope\n  size:      ");
    reveal_strlit("envelope\n  ");
    reveal_strlit("size:      ");
    lemma_pow16();
    let w0 = "envelope\n  "@;
    let w1 = "size:      "@;
    let w2 = " bytes\n  flags:     0x"@;
    let w3 = "\n  sections:  "@;
    let f = hex_text(flags as nat, 4);
    assert("envelope\n  size:      "@ =~= w0 + w1);
    let t1 = w0 + w1 + dec_text(size) + w2;
    let t2 = t1 + f + w3;
    let t3 = t2 + dec_text(n) + "\n"@;
    assert(envelope_text(size, flags, n) == t3);
    lemma_says(w0, w1, size, w2);
    lemma_says_more(t1, f, w1, size, w2);
    lemma_says_more(t1 + f, w3, w1, size, w2);
    lemma_says_more(t2, dec_text(n), w1, size, w2);
    lemma_says_more(t2 + dec_text(n), "\n"@, w1, size, w2);
    lemma_says_hex(w0 + w1 + dec_text(size), w2, flags as nat, 4, w3);
    lemma_hex_more(t2, dec_text(n), w2, flags as nat, 4, w3);
    lemma_hex_more(t2 + dec_text(n), "\n"@, w2, flags as nat, 4, w3);
    lemma_says(t1 + f, w3, n, "\n"@);
}

// ---------------------------------------------------------------------------
// Event types.
// ---------------------------------------------------------------------------

/// The mark that a field of the role has.
pub open spec fn mark_of(role: FieldRole) -> char {
    match role {
        FieldRole::Key => '*',
        FieldRole::SpanId => '$',
        FieldRole::ParentSpanId => '^',
        FieldRole::Plain => ' ',
    }
}

/// A field type in words.
pub open spec fn type_word(ty: FieldType) -> Seq<char> {
    match ty {
        FieldType::U8 => "U8"@,
        FieldType::U16 => "U16"@,
        FieldType::U32 => "U32"@,
        FieldType::U64 => "U64"@,
        FieldType::I8 => "I8"@,
        FieldType::I16 => "I16"@,
        FieldType::I32 => "I32"@,
        FieldType::I64 => "I64"@,
        FieldType::Bool => "Bool"@,
        FieldType::Bytes => "Bytes"@,
        FieldType::Enum { repr } => "Enum { repr: "@ + dec_text(repr as nat) + " }"@,
        FieldType::Interned { dynamic: true } => "Interned { dynamic: true }"@,
        FieldType::Interned { dynamic: false } => "Interned { dynamic: false }"@,
    }
}

/// A line says of a field its role by a mark, its name and type, and its unit and sentinel if it has
/// them.
pub open spec fn tells_field_line(line: Seq<char>, f: FieldView) -> bool {
    &&& stands_at(line, "      "@ + seq![mark_of(f.role)] + f.name + ": "@ + type_word(f.ty), 0)
    &&& f.unit is Some ==> has_part(line, " ["@ + f.unit->0 + "]"@)
    &&& f.sentinel is Some ==> says_number(line, " (sentinel "@, f.sentinel->0 as nat, ")"@)
    &&& line.last() == '\n'
}

/// A block says of an event type its id, name, record size, number of fields, span phase and
/// description, and has a line for each field behind these, in order.
pub open spec fn tells_type(block: Seq<char>, s: SchemaView, lines: Seq<Seq<char>>) -> bool {
    &&& says_hex(block, "  "@ + "0x"@, s.id as nat, 16, "  "@ + s.name + "  ("@)
    &&& says_number(block, s.name + "  ("@, s.record_size as nat, " bytes, "@)
    &&& says_number(block, " bytes, "@, s.fields.len(), " fields)"@)
    &&& s.phase == Phase::Enter ==> has_part(block, " fields)"@ + "  [span enter]"@)
    &&& s.phase == Phase::Exit ==> has_part(block, " fields)"@ + "  [span exit]"@)
    &&& s.description is Some ==> has_part(block, "  — "@ + s.description->0)
    &&& lines.len() == s.fields.len()
    &&& forall|j: int|
        0 <= j < lines.len() ==> tells_field_line(#[trigger] lines[j], s.fields[j])
    &&& has_part(block, strung(lines))
}

/// The line of a field.
proof fn lemma_field_line(f: FieldView)
    ensures
        tells_field_line(field_line(f), f),
{
    reveal_strlit("*");
    reveal_strlit("$");
    reveal_strlit("^");
    reveal_strlit(" ");
    reveal_strlit("\n");
    let e = Seq::<char>::empty();
    assert(role_mark(f.role) =~= seq![mark_of(f.role)]);
    let t0 = "      "@ + seq![mark_of(f.role)] + f.name + ": "@ + type_text(f.ty);
    let unit = opt_note(" ["@, f.unit, "]"@);
    let text = match f.sentinel {
        Some(v) => Some(dec_text(v as nat)),
        None => None,
    };
    let sentinel = opt_note(" (sentinel "@, text, ")"@);
    let line = field_line(f);
    assert(line == t0 + unit + sentinel + "\n"@);
    assert(line.subrange(0, t0.len() as int) =~= t0);
    assert(stands_at(line, t0, 0));
    if f.unit is Some {
        lemma_part_last(t0, unit);
        lemma_part_more(t0 + unit, sentinel, unit);
        lemma_part_more(t0 + unit + sentinel, "\n"@, unit);
    }
    if f.sentinel is Some {
        let v = f.sentinel->0 as nat;
        let left = t0 + unit;
        lemma_says(left, " (sentinel "@, v, ")"@);
        lemma_assoc(left, " (sentinel "@ + dec_text(v), ")"@);
        lemma_assoc(left, " (sentinel "@, dec_text(v));
        assert(left + sentinel == left + " (sentinel "@ + dec_text(v) + ")"@);
        lemma_says_more(left + sentinel, "\n"@, " (sentinel "@, v, ")"@);
    }
}

/// The lines of fields, one by one.
pub open spec fn each_field_line(fields: Seq<FieldView>) -> Seq<Seq<char>> {
    fields.map_values(|f: FieldView| field_line(f))
}

/// The lines of fields.
proof fn lemma_field_lines(fields: Seq<FieldView>)
    ensures
        field_lines(fields) == strung(each_field_line(fields)),
    decreases fields.len(),
{
    if fields.len() > 0 {
        lemma_field_lines(fields.drop_last());
        assert(each_field_line(fields).drop_last() =~= each_field_line(fields.drop_last()));
    }
}

/// The first part of an event's line.
proof fn lemma_event_head(s: SchemaView)
    ensures
        ({
            let t = "  "@ + id_hex(s.id) + "  "@ + s.name + "  ("@ + dec_text(s.record_size as nat)
                + " bytes, "@ + dec_text(s.fields.len()) + " fields)"@;
            &&& says_hex(t, "  "@ + "0x"@, s.id as nat, 16, "  "@ + s.name + "  ("@)
            &&& says_number(t, s.name + "  ("@, s.record_size as nat, " bytes, "@)
            &&& says_number(t, " bytes, "@, s.fields.len(), " fields)"@)
        }),
{
    let e = Seq::<char>::empty();
    let id = id_hex(s.id);
    let size = dec_text(s.record_size as nat);
    let n = dec_text(s.fields.len());
    let w = "  "@ + s.name + "  ("@;
    let t0 = "  "@ + id;
    let t1 = t0 + "  "@ + s.name + "  ("@;
    let t2 = t1 + size + " bytes, "@;
    let t3 = t2 + n + " fields)"@;
    lemma_says_id(e, "  "@, s.id, w);
    assert(e + "  "@ =~= "  "@);
    lemma_assoc(t0, "  "@ + s.name, "  ("@);
    lemma_assoc(t0, "  "@, s.name);
    assert(t0 + w == t1);
    let w0 = "  "@ + "0x"@;
    lemma_hex_more(t1, size, w0, s.id as nat, 16, w);
    lemma_hex_more(t1 + size, " bytes, "@, w0, s.id as nat, 16, w);
    lemma_hex_more(t2, n, w0, s.id as nat, 16, w);
    lemma_hex_more(t2 + n, " fields)"@, w0, s.id as nat, 16, w);
    lemma_assoc(t0 + "  "@, s.name, "  ("@);
    lemma_says(t0 + "  "@, s.name + "  ("@, s.record_size as nat, " bytes, "@);
    lemma_says_more(t2, n, s.name + "  ("@, s.record_size as nat, " bytes, "@);
    lemma_says_more(t2 + n, " fields)"@, s.name + "  ("@, s.record_size as nat, " bytes, "@);
    lemma_says(t1 + size, " bytes, "@, s.fields.len(), " fields)"@);
}

/// The block of an event type.
proof fn lemma_type_block(s: SchemaView)
    ensures
        tells_type(event_line(s) + field_lines(s.fields), s, each_field_line(s.fields)),
{
    let head = "  "@ + id_hex(s.id) + "  "@ + s.name + "  ("@ + dec_text(s.record_size as nat)
        + " bytes, "@ + dec_text(s.fields.len()) + " fields)"@;
    let note = phase_note(s.phase);
    let told = opt_note("  — "@, s.description, ""@);
    let line = event_line(s);
    let fl = field_lines(s.fields);
    let block = line + fl;
    let lines = each_field_line(s.fields);
    assert(line == head + note + told + "\n"@);
    lemma_event_head(s);
    lemma_type_more(head, note, told, fl, s);
    let before = "  "@ + id_hex(s.id) + "  "@ + s.name + "  ("@ + dec_text(s.record_size as nat)
        + " bytes, "@ + dec_text(s.fields.len());
    if s.phase != Phase::Instant {
        lemma_part_last(before, " fields)"@ + note);
        lemma_assoc(before, " fields)"@, note);
        lemma_part_more(head + note, told, " fields)"@ + note);
        lemma_part_more(head + note + told, "\n"@, " fields)"@ + note);
        lemma_part_more(line, fl, " fields)"@ + note);
    }
    if s.description is Some {
        reveal_strlit("");
        let d = "  — "@ + s.description->0;
        assert(told =~= d);
        lemma_part_last(head + note, d);
        lemma_part_more(head + note + told, "\n"@, d);
        lemma_part_more(line, fl, d);
    }
    lemma_field_lines(s.fields);
    lemma_part_last(line, fl);
    assert forall|j: int| 0 <= j < lines.len() implies tells_field_line(
        #[trigger] lines[j],
        s.fields[j],
    ) by {
        lemma_field_line(s.fields[j]);
    }
}

/// What the first part says the whole block says.
proof fn lemma_type_more(
    head: Seq<char>,
    note: Seq<char>,
    told: Seq<char>,
    fl: Seq<char>,
    s: SchemaView,
)
    requires
        says_hex(head, "  "@ + "0x"@, s.id as nat, 16, "  "@ + s.name + "  ("@),
        says_number(head, s.name + "  ("@, s.record_size as nat, " bytes, "@),
        says_number(head, " bytes, "@, s.fields.len(), " fields)"@),
    ensures
        ({
            let t = head + note + told + "\n"@ + fl;
            &&& says_hex(t, "  "@ + "0x"@, s.id as nat, 16, "  "@ + s.name + "  ("@)
            &&& says_number(t, s.name + "  ("@, s.record_size as nat, " bytes, "@)
            &&& says_number(t, " bytes, "@, s.fields.len(), " fields)"@)
        }),
{
    let a = head + note;
    let b = a + told;
    let c = b + "\n"@;
    let w0 = "  "@ + "0x"@;
    let w1 = "  "@ + s.name + "  ("@;
    lemma_hex_more(head, note, w0, s.id as nat, 16, w1);
    lemma_hex_more(a, told, w0, s.id as nat, 16, w1);
    lemma_hex_more(b, "\n"@, w0, s.id as nat, 16, w1);
    lemma_hex_more(c, fl, w0, s.id as nat, 16, w1);
    let w2 = s.name + "  ("@;
    lemma_says_more(head, note, w2, s.record_size as nat, " bytes, "@);
    lemma_says_more(a, told, w2, s.record_size as nat, " bytes, "@);
    lemma_says_more(b, "\n"@, w2, s.record_size as nat, " bytes, "@);
    lemma_says_more(c, fl, w2, s.record_size as nat, " bytes, "@);
    lemma_says_more(head, note, " bytes, "@, s.fields.len(), " fields)"@);
    lemma_says_more(a, told, " bytes, "@, s.fields.len(), " fields)"@);
    lemma_says_more(b, "\n"@, " bytes, "@, s.fields.len(), " fields)"@);
    lemma_says_more(c, fl, " bytes, "@, s.fields.len(), " fields)"@);
}

/// The blocks of event types, one by one.
spec fn each_block(schemas: Seq<SchemaView>) -> Seq<Seq<char>> {
    schemas.map_values(|s: SchemaView| event_line(s) + field_lines(s.fields))
}

/// The blocks of event types.
proof fn lemma_blocks(schemas: Seq<SchemaView>)
    ensures
        event_lines(schemas) == strung(each_block(schemas)),
    decreases schemas.len(),
{
    if schemas.len() > 0 {
        lemma_blocks(schemas.drop_last());
        assert(each_block(schemas).drop_last() =~= each_block(schemas.drop_last()));
    }
}

/// Blocks say what there is to say of event types, in order.
pub open spec fn tells_types(blocks: Seq<Seq<char>>, schemas: Seq<SchemaView>) -> bool {
    &&& blocks.len() == schemas.len()
    &&& forall|k: int| 0 <= k < blocks.len() ==> type_told(#[trigger] blocks[k], schemas[k])
}

/// A block says what there is to say of an event type and its fields.
pub open spec fn type_told(block: Seq<char>, s: SchemaView) -> bool {
    exists|lines: Seq<Seq<char>>| #[trigger] tells_type(block, s, lines)
}

/// The registry in the summary.
proof fn lemma_registry_text(schemas: Seq<SchemaView>)
    ensures
        says_number(
            registry_text(schemas),
            "\nschema registry ("@,
            schemas.len(),
            " events)\n"@,
        ),
        has_part(registry_text(schemas), strung(each_block(schemas))),
        tells_types(each_block(schemas), schemas),
{
    let blocks = each_block(schemas);
    let lines = event_lines(schemas);
    let w = "\nschema registry ("@;
    let v = " events)\n"@;
    let n = schemas.len();
    let open = w + dec_text(n) + v;
    let close = "  (* = key, $ = span id, ^ = parent span id)\n"@;
    let none = Seq::<char>::empty();
    lemma_blocks(schemas);
    assert(registry_text(schemas) == open + lines + close);
    lemma_part_of(open, lines, close);
    lemma_says(none, w, n, v);
    assert(none + w =~= w);
    lemma_says_more(open, lines, w, n, v);
    lemma_says_more(open + lines, close, w, n, v);
    assert forall|k: int| 0 <= k < blocks.len() implies type_told(
        #[trigger] blocks[k],
        schemas[k],
    ) by {
        lemma_type_block(schemas[k]);
    }
}

/// A part of the summary behind the first.
proof fn lemma_second(a: Seq<char>, b: Seq<char>, c: Seq<char>, d: Seq<char>, e: Seq<char>)
    ensures
        has_part(a + b + c + d + e, b),
        has_part(a + b + c + d + e, c),
        has_part(a + b + c + d + e, d),
        has_part(a + b + c + d + e, e),
{
    lemma_part_last(a, b);
    lemma_part_more(a + b, c, b);
    lemma_part_more(a + b + c, d, b);
    lemma_part_more(a + b + c + d, e, b);
    lemma_part_last(a + b, c);
    lemma_part_more(a + b + c, d, c);
    lemma_part_more(a + b + c + d, e, c);
    lemma_part_last(a + b + c, d);
    lemma_part_more(a + b + c + d, e, d);
    lemma_part_last(a + b + c + d, e);
}

/// The parts of the summary.
proof fn lemma_parts_in(bytes: Bytes, text: String, parts: DumpParts)
    requires
        call_ensures(inspect, (bytes,), Ok::<String, Error>(text)),
        p_dump(bytes_of(bytes)) matches Ok(d) && dump_parts(d.sections) == Ok::<DumpParts, Error>(
            parts,
        ),
    ensures
        has_part(text@, registry_text(parts.schemas)),
        has_part(text@, instances_text(parts.metas, parts.interns)),
        has_part(text@, views_text(parts.views)),
        has_part(text@, shards_text(parts.schemas, parts.shards)),
{
    lemma_inspected(bytes, text, parts);
    let d = p_dump(bytes_of(bytes))->Ok_0;
    lemma_second(
        envelope_text(bytes_of(bytes).len(), d.flags, d.sections.len()),
        registry_text(parts.schemas),
        instances_text(parts.metas, parts.interns),
        views_text(parts.views),
        shards_text(parts.schemas, parts.shards),
    );
}

/// The summary has a block for each event type of the registry, in order, with a line for each of its
/// fields; and it says how many event types there are.
pub proof fn law_registry_summed_up(bytes: Bytes, text: String, parts: DumpParts)
    requires
        call_ensures(inspect, (bytes,), Ok::<String, Error>(text)),
        p_dump(bytes_of(bytes)) matches Ok(d) && dump_parts(d.sections) == Ok::<DumpParts, Error>(
            parts,
        ),
    ensures
        says_number(text@, "\nschema registry ("@, parts.schemas.len(), " events)\n"@),
        exists|blocks: Seq<Seq<char>>| #[trigger]
            tells_types(blocks, parts.schemas) && has_part(text@, strung(blocks)),
{
    let blocks = each_block(parts.schemas);
    lemma_parts_in(bytes, text, parts);
    lemma_registry_text(parts.schemas);
    lemma_part_in_part(text@, registry_text(parts.schemas), strung(blocks));
    lemma_says_within(
        text@,
        registry_text(parts.schemas),
        "\nschema registry ("@,
        parts.schemas.len(),
        " events)\n"@,
    );
    assert(tells_types(blocks, parts.schemas) && has_part(text@, strung(blocks)));
}

// ---------------------------------------------------------------------------
// Instances, strings and view sets.
// ---------------------------------------------------------------------------

/// The number of entries that tables tagged with the instance hold.
pub open spec fn entries_of_instance(tables: Seq<InternView>, id: u64) -> nat
    decreases tables.len(),
{
    if tables.len() == 0 {
        0
    } else {
        (if tables[0].instance_id == id {
            tables[0].entries.len()
        } else {
            0
        }) + entries_of_instance(tables.skip(1), id)
    }
}

/// The number of entries that tables hold.
pub open spec fn entries_of_all(tables: Seq<InternView>) -> nat
    decreases tables.len(),
{
    if tables.len() == 0 {
        0
    } else {
        tables[0].entries.len() + entries_of_all(tables.skip(1))
    }
}

/// Counting goes from either end.
proof fn lemma_entries(tables: Seq<InternView>, id: u64)
    ensures
        entry_count(tables, id) == entries_of_instance(tables, id),
        total_entries(tables) == entries_of_all(tables),
    decreases tables.len(),
{
    if tables.len() == 1 {
        assert(tables.drop_last() =~= Seq::<InternView>::empty());
        assert(tables.skip(1) =~= Seq::<InternView>::empty());
        assert(entry_count(tables.drop_last(), id) == 0);
        assert(total_entries(tables.drop_last()) == 0);
        assert(entries_of_instance(tables.skip(1), id) == 0);
        assert(entries_of_all(tables.skip(1)) == 0);
    } else if tables.len() > 1 {
        let init = tables.drop_last();
        let tail = tables.skip(1);
        let mid = tail.drop_last();
        lemma_entries(init, id);
        lemma_entries(tail, id);
        lemma_entries(mid, id);
        assert(init.skip(1) =~= mid);
        assert(init[0] == tables[0]);
        assert(tail.last() == tables.last());
    }
}

/// A line says of an instance its id, its host label and the number of its strings.
pub open spec fn tells_instance(line: Seq<char>, m: MetaView, entries: nat) -> bool {
    let host = if m.host.len() == 0 {
        "(no host)"@
    } else {
        m.host
    };
    &&& says_hex(line, "  "@ + "0x"@, m.instance_id as nat, 16, "  "@ + host + "  ("@)
    &&& says_number(line, host + "  ("@, entries, " intern entries)\n"@)
}

/// The line of an instance.
proof fn lemma_instance_line(m: MetaView, tables: Seq<InternView>)
    ensures
        tells_instance(
            instance_line(m, tables),
            m,
            entries_of_instance(tables, m.instance_id),
        ),
{
    let host = if m.host.len() == 0 {
        "(no host)"@
    } else {
        m.host
    };
    lemma_entries(tables, m.instance_id);
    let n = entries_of_instance(tables, m.instance_id);
    let e = Seq::<char>::empty();
    let id = id_hex(m.instance_id);
    let w = "  "@ + host + "  ("@;
    let t0 = "  "@ + id;
    let t1 = t0 + "  "@ + host + "  ("@;
    let v = " intern entries)\n"@;
    let t2 = t1 + dec_text(n) + v;
    assert(instance_line(m, tables) == t2);
    lemma_says_id(e, "  "@, m.instance_id, w);
    assert(e + "  "@ =~= "  "@);
    lemma_assoc(t0, "  "@ + host, "  ("@);
    lemma_assoc(t0, "  "@, host);
    assert(t0 + w == t1);
    let w0 = "  "@ + "0x"@;
    lemma_hex_more(t1, dec_text(n), w0, m.instance_id as nat, 16, w);
    lemma_hex_more(t1 + dec_text(n), v, w0, m.instance_id as nat, 16, w);
    lemma_assoc(t0 + "  "@, host, "  ("@);
    lemma_says(t0 + "  "@, host + "  ("@, n, v);
}

/// The lines of instances, one by one.
spec fn each_instance(metas: Seq<MetaView>, tables: Seq<InternView>) -> Seq<Seq<char>> {
    metas.map_values(|m: MetaView| instance_line(m, tables))
}

/// The lines of instances.
proof fn lemma_instances(metas: Seq<MetaView>, tables: Seq<InternView>)
    ensures
        instance_lines(metas, tables) == strung(each_instance(metas, tables)),
    decreases metas.len(),
{
    if metas.len() > 0 {
        lemma_instances(metas.drop_last(), tables);
        assert(each_instance(metas, tables).drop_last() =~= each_instance(
            metas.drop_last(),
            tables,
        ));
    }
}

/// Lines say what there is to say of instances, in order.
pub open spec fn tells_instances(
    lines: Seq<Seq<char>>,
    metas: Seq<MetaView>,
    tables: Seq<InternView>,
) -> bool {
    &&& lines.len() == metas.len()
    &&& forall|k: int|
        0 <= k < lines.len() ==> tells_instance(
            #[trigger] lines[k],
            metas[k],
            entries_of_instance(tables, metas[k].instance_id),
        )
}

/// The instances in the summary.
proof fn lemma_instances_text(metas: Seq<MetaView>, tables: Seq<InternView>)
    ensures
        ({
            let t = instances_text(metas, tables);
            &&& says_number(t, "\ninstances ("@, metas.len(), ")\n"@)
            &&& has_part(t, strung(each_instance(metas, tables)))
            &&& tells_instances(each_instance(metas, tables), metas, tables)
            &&& says_number(t, "\nintern table: "@, entries_of_all(tables), " entries across "@)
            &&& says_number(t, " entries across "@, tables.len(), " instance(s)\n"@)
        }),
{
    let e = Seq::<char>::empty();
    let w = "\ninstances ("@;
    let n = metas.len();
    let open = w + dec_text(n) + ")\n"@;
    let lines = instance_lines(metas, tables);
    let all = entries_of_all(tables);
    let each = each_instance(metas, tables);
    lemma_entries(tables, 0);
    lemma_instances(metas, tables);
    let t1 = open + lines;
    let w2 = "\nintern table: "@;
    let w3 = " entries across "@;
    let w4 = " instance(s)\n"@;
    let t2 = t1 + w2 + dec_text(all) + w3;
    let t3 = t2 + dec_text(tables.len()) + w4;
    assert(instances_text(metas, tables) == t3);
    lemma_says(e, w, n, ")\n"@);
    assert(e + w =~= w);
    lemma_says_more(open, lines, w, n, ")\n"@);
    lemma_says_more(t1, w2, w, n, ")\n"@);
    lemma_says_more(t1 + w2, dec_text(all), w, n, ")\n"@);
    lemma_says_more(t1 + w2 + dec_text(all), w3, w, n, ")\n"@);
    lemma_says_more(t2, dec_text(tables.len()), w, n, ")\n"@);
    lemma_says_more(t2 + dec_text(tables.len()), w4, w, n, ")\n"@);
    lemma_part_last(open, lines);
    lemma_part_more(t1, w2, lines);
    lemma_part_more(t1 + w2, dec_text(all), lines);
    lemma_part_more(t1 + w2 + dec_text(all), w3, lines);
    lemma_part_more(t2, dec_text(tables.len()), lines);
    lemma_part_more(t2 + dec_text(tables.len()), w4, lines);
    lemma_says(t1, w2, all, w3);
    lemma_says_more(t2, dec_text(tables.len()), w2, all, w3);
    lemma_says_more(t2 + dec_text(tables.len()), w4, w2, all, w3);
    lemma_says(t1 + w2 + dec_text(all), w3, tables.len(), w4);
    assert forall|k: int| 0 <= k < each.len() implies tells_instance(
        #[trigger] each[k],
        metas[k],
        entries_of_instance(tables, metas[k].instance_id),
    ) by {
        lemma_instance_line(metas[k], tables);
    }
}

/// The summary has a line for each instance, in order: its id, its host label, and how many strings
/// the tables tagged with it hold. It says how many instances there are, and how many strings and
/// tables.
pub proof fn law_instances_summed_up(bytes: Bytes, text: String, parts: DumpParts)
    requires
        call_ensures(inspect, (bytes,), Ok::<String, Error>(text)),
        p_dump(bytes_of(bytes)) matches Ok(d) && dump_parts(d.sections) == Ok::<DumpParts, Error>(
            parts,
        ),
    ensures
        says_number(text@, "\ninstances ("@, parts.metas.len(), ")\n"@),
        exists|lines: Seq<Seq<char>>| #[trigger]
            tells_instances(lines, parts.metas, parts.interns) && has_part(text@, strung(lines)),
        says_number(
            text@,
            "\nintern table: "@,
            entries_of_all(parts.interns),
            " entries across "@,
        ),
        says_number(text@, " entries across "@, parts.interns.len(), " instance(s)\n"@),
{
    let t = instances_text(parts.metas, parts.interns);
    let lines = each_instance(parts.metas, parts.interns);
    lemma_parts_in(bytes, text, parts);
    lemma_instances_text(parts.metas, parts.interns);
    lemma_says_within(text@, t, "\ninstances ("@, parts.metas.len(), ")\n"@);
    lemma_part_in_part(text@, t, strung(lines));
    lemma_says_within(
        text@,
        t,
        "\nintern table: "@,
        entries_of_all(parts.interns),
        " entries across "@,
    );
    lemma_says_within(text@, t, " entries across "@, parts.interns.len(), " instance(s)\n"@);
    assert(tells_instances(lines, parts.metas, parts.interns) && has_part(text@, strung(lines)));
}

/// The number of line breaks of a text, counted.
pub open spec fn breaks(text: Seq<char>) -> nat {
    text.filter(|c: char| c == '\n').len()
}

/// Counting line breaks.
proof fn lemma_breaks(text: Seq<char>)
    ensures
        crate::inspect::break_count(text) == breaks(text),
    decreases text.len(),
{
    reveal(Seq::filter);
    if text.len() > 0 {
        lemma_breaks(text.drop_last());
    }
}

/// The number of lines of a text: its line breaks, and one more where something follows the last.
pub open spec fn lines_in(text: Seq<char>) -> nat {
    breaks(text) + if text.len() > 0 && text[text.len() - 1] != '\n' {
        1nat
    } else {
        0nat
    }
}

/// A line says of a view set its number, how many bytes it takes and how many lines.
pub open spec fn tells_view(line: Seq<char>, number: nat, sql: Seq<char>) -> bool {
    &&& says_number(line, "  #"@, number, ": "@)
    &&& says_number(line, ": "@, encode_utf8(sql).len(), " bytes, "@)
    &&& says_number(line, " bytes, "@, lines_in(sql), " lines\n"@)
}

/// The line of a view set.
proof fn lemma_view_line(number: nat, sql: Seq<char>)
    ensures
        tells_view(view_line(number, sql), number, sql),
{
    lemma_breaks(sql);
    let e = Seq::<char>::empty();
    let n = encode_utf8(sql).len();
    let m = lines_in(sql);
    let w = "  #"@;
    let t1 = w + dec_text(number) + ": "@;
    let t2 = t1 + dec_text(n) + " bytes, "@;
    let t3 = t2 + dec_text(m) + " lines\n"@;
    assert(view_line(number, sql) == t3);
    lemma_says(e, w, number, ": "@);
    assert(e + w =~= w);
    lemma_says_more(t1, dec_text(n), w, number, ": "@);
    lemma_says_more(t1 + dec_text(n), " bytes, "@, w, number, ": "@);
    lemma_says_more(t2, dec_text(m), w, number, ": "@);
    lemma_says_more(t2 + dec_text(m), " lines\n"@, w, number, ": "@);
    lemma_says(w + dec_text(number), ": "@, n, " bytes, "@);
    lemma_says_more(t2, dec_text(m), ": "@, n, " bytes, "@);
    lemma_says_more(t2 + dec_text(m), " lines\n"@, ": "@, n, " bytes, "@);
    lemma_says(t1 + dec_text(n), " bytes, "@, m, " lines\n"@);
}

/// The lines of view sets, one by one.
spec fn each_view(views: Seq<Seq<char>>) -> Seq<Seq<char>> {
    Seq::new(views.len(), |k: int| view_line((k + 1) as nat, views[k]))
}

/// The lines of view sets.
proof fn lemma_view_lines(views: Seq<Seq<char>>)
    ensures
        view_lines(views) == strung(each_view(views)),
    decreases views.len(),
{
    if views.len() > 0 {
        lemma_view_lines(views.drop_last());
        assert(each_view(views).drop_last() =~= each_view(views.drop_last()));
    }
}

/// The number of lines of all view sets.
pub open spec fn lines_in_all(views: Seq<Seq<char>>) -> nat
    decreases views.len(),
{
    if views.len() == 0 {
        0
    } else {
        lines_in(views[0]) + lines_in_all(views.skip(1))
    }
}

/// Counting goes from either end.
proof fn lemma_total_lines(views: Seq<Seq<char>>)
    ensures
        total_lines(views) == lines_in_all(views),
    decreases views.len(),
{
    if views.len() == 1 {
        lemma_breaks(views[0]);
        assert(views.drop_last() =~= Seq::<Seq<char>>::empty());
        assert(views.skip(1) =~= Seq::<Seq<char>>::empty());
        assert(total_lines(views.drop_last()) == 0);
        assert(lines_in_all(views.skip(1)) == 0);
        assert(views.last() == views[0]);
    } else if views.len() > 1 {
        let init = views.drop_last();
        let tail = views.skip(1);
        let mid = tail.drop_last();
        lemma_breaks(views[0]);
        lemma_breaks(views.last());
        lemma_total_lines(init);
        lemma_total_lines(tail);
        lemma_total_lines(mid);
        assert(init.skip(1) =~= mid);
        assert(init[0] == views[0]);
        assert(tail.last() == views.last());
    }
}

/// Lines say what there is to say of view sets, in order.
pub open spec fn tells_views(lines: Seq<Seq<char>>, views: Seq<Seq<char>>) -> bool {
    &&& lines.len() == views.len()
    &&& forall|k: int|
        0 <= k < lines.len() ==> tells_view(#[trigger] lines[k], (k + 1) as nat, views[k])
}

/// The view sets in the summary.
proof fn lemma_views_text(views: Seq<Seq<char>>)
    requires
        views.len() > 0,
    ensures
        ({
            let t = views_text(views);
            &&& says_number(t, "\nview sets ("@, views.len(), ", "@)
            &&& says_number(t, ", "@, lines_in_all(views), " lines of DDL)\n"@)
            &&& has_part(t, strung(each_view(views)))
            &&& tells_views(each_view(views), views)
        }),
{
    let e = Seq::<char>::empty();
    let n = views.len();
    let m = lines_in_all(views);
    let w = "\nview sets ("@;
    let v = " lines of DDL)\n"@;
    let lines = view_lines(views);
    let each = each_view(views);
    lemma_total_lines(views);
    lemma_view_lines(views);
    let t1 = w + dec_text(n) + ", "@;
    let t2 = t1 + dec_text(m) + v;
    assert(views_text(views) == t2 + lines);
    lemma_says(e, w, n, ", "@);
    assert(e + w =~= w);
    lemma_says_more(t1, dec_text(m), w, n, ", "@);
    lemma_says_more(t1 + dec_text(m), v, w, n, ", "@);
    lemma_says_more(t2, lines, w, n, ", "@);
    lemma_says(w + dec_text(n), ", "@, m, v);
    lemma_says_more(t2, lines, ", "@, m, v);
    lemma_part_last(t2, lines);
    assert forall|k: int| 0 <= k < each.len() implies tells_view(
        #[trigger] each[k],
        (k + 1) as nat,
        views[k],
    ) by {
        lemma_view_line((k + 1) as nat, views[k]);
    }
}

/// The summary has a line for each registered view set, in order, with its size and its number of
/// lines; and it says how many sets and lines there are.
pub proof fn law_views_summed_up(bytes: Bytes, text: String, parts: DumpParts)
    requires
        call_ensures(inspect, (bytes,), Ok::<String, Error>(text)),
        p_dump(bytes_of(bytes)) matches Ok(d) && dump_parts(d.sections) == Ok::<DumpParts, Error>(
            parts,
        ),
        parts.views.len() > 0,
    ensures
        says_number(text@, "\nview sets ("@, parts.views.len(), ", "@),
        says_number(text@, ", "@, lines_in_all(parts.views), " lines of DDL)\n"@),
        exists|lines: Seq<Seq<char>>| #[trigger]
            tells_views(lines, parts.views) && has_part(text@, strung(lines)),
{
    let t = views_text(parts.views);
    let lines = each_view(parts.views);
    lemma_parts_in(bytes, text, parts);
    lemma_views_text(parts.views);
    lemma_says_within(text@, t, "\nview sets ("@, parts.views.len(), ", "@);
    lemma_says_within(text@, t, ", "@, lines_in_all(parts.views), " lines of DDL)\n"@);
    lemma_part_in_part(text@, t, strung(lines));
    assert(tells_views(lines, parts.views) && has_part(text@, strung(lines)));
}

// ---------------------------------------------------------------------------
// Record counts.
// ---------------------------------------------------------------------------

/// A record is of an event type of the name, among the first `n`.
spec fn of_name(schemas: Seq<SchemaView>, payload: Seq<u8>, n: nat, name: Seq<char>) -> bool {
    schema_of_id(schemas, record_id(payload)) matches Some(i) && i < n && schemas[i as int].name
        == name
}

/// The number of walked records of event types of the name, among the first `n`.
spec fn named_in_walk(
    schemas: Seq<SchemaView>,
    walk: Seq<Seq<u8>>,
    n: nat,
    name: Seq<char>,
) -> nat
    decreases walk.len(),
{
    if walk.len() == 0 {
        0
    } else {
        named_in_walk(schemas, walk.drop_last(), n, name) + if of_name(
            schemas,
            walk.last(),
            n,
            name,
        ) {
            1nat
        } else {
            0nat
        }
    }
}

/// The number of records of event types of the name over all shards, among the first `n` types.
spec fn named_in_all(
    schemas: Seq<SchemaView>,
    shards: Seq<ShardView>,
    n: nat,
    name: Seq<char>,
) -> nat
    decreases shards.len(),
{
    if shards.len() == 0 {
        0
    } else {
        named_in_all(schemas, shards.drop_last(), n, name) + named_in_walk(
            schemas,
            payloads(shard_walk(schemas, shards.last())),
            n,
            name,
        )
    }
}

/// The number of records of a dump whose event has the name: over all shards, the recovered records
/// whose id is that of an event type with the name.
pub open spec fn records_named(
    schemas: Seq<SchemaView>,
    shards: Seq<ShardView>,
    name: Seq<char>,
) -> nat
    decreases shards.len(),
{
    if shards.len() == 0 {
        0
    } else {
        records_named(schemas, shards.drop_last(), name) + payloads(
            shard_walk(schemas, shards.last()),
        ).filter(
            |p: Seq<u8>|
                schema_of_id(schemas, record_id(p)) matches Some(i) && schemas[i as int].name
                    == name,
        ).len()
    }
}

/// One more event type in a walk.
proof fn lemma_walk_step(schemas: Seq<SchemaView>, walk: Seq<Seq<u8>>, n: nat, name: Seq<char>)
    ensures
        named_in_walk(schemas, walk, 0, name) == 0,
        named_in_walk(schemas, walk, n + 1, name) == named_in_walk(schemas, walk, n, name) + if schemas[
            n as int
        ].name == name {
            walk_count(schemas, walk, n)
        } else {
            0
        },
    decreases walk.len(),
{
    if walk.len() > 0 {
        lemma_walk_step(schemas, walk.drop_last(), n, name);
    }
}

/// One more event type.
proof fn lemma_all_step(schemas: Seq<SchemaView>, shards: Seq<ShardView>, n: nat, name: Seq<char>)
    ensures
        named_in_all(schemas, shards, 0, name) == 0,
        named_in_all(schemas, shards, n + 1, name) == named_in_all(schemas, shards, n, name) + if schemas[
            n as int
        ].name == name {
            event_count(schemas, shards, n)
        } else {
            0
        },
    decreases shards.len(),
{
    if shards.len() > 0 {
        lemma_all_step(schemas, shards.drop_last(), n, name);
        lemma_walk_step(schemas, payloads(shard_walk(schemas, shards.last())), n, name);
    }
}

/// All event types of a walk.
proof fn lemma_walk_all(schemas: Seq<SchemaView>, walk: Seq<Seq<u8>>, name: Seq<char>)
    ensures
        named_in_walk(schemas, walk, schemas.len(), name) == walk.filter(
            |p: Seq<u8>|
                schema_of_id(schemas, record_id(p)) matches Some(i) && schemas[i as int].name
                    == name,
        ).len(),
    decreases walk.len(),
{
    reveal(Seq::filter);
    if walk.len() > 0 {
        lemma_walk_all(schemas, walk.drop_last(), name);
        lemma_schema_of_id(schemas, record_id(walk.last()));
    }
}

/// All event types.
proof fn lemma_all_named(schemas: Seq<SchemaView>, shards: Seq<ShardView>, name: Seq<char>)
    ensures
        named_in_all(schemas, shards, schemas.len(), name) == records_named(schemas, shards, name),
    decreases shards.len(),
{
    if shards.len() > 0 {
        lemma_all_named(schemas, shards.drop_last(), name);
        lemma_walk_all(schemas, payloads(shard_walk(schemas, shards.last())), name);
    }
}

/// A tally has exactly this number under the name: one entry if it is positive, none otherwise.
spec fn tallies(t: Seq<(Seq<char>, nat)>, name: Seq<char>, n: nat) -> bool {
    if n > 0 {
        t.contains((name, n)) && forall|k: int|
            0 <= k < t.len() && (#[trigger] t[k]).0 == name ==> t[k].1 == n
    } else {
        forall|k: int| 0 <= k < t.len() ==> (#[trigger] t[k]).0 != name
    }
}

/// Names occur once.
spec fn names_once(t: Seq<(Seq<char>, nat)>) -> bool {
    forall|a: int, b: int| 0 <= a < b < t.len() ==> (#[trigger] t[a]).0 != (#[trigger] t[b]).0
}

/// Where the first entry with a name stands.
proof fn lemma_tally_pos(t: Seq<(Seq<char>, nat)>, name: Seq<char>)
    ensures
        tally_pos(t, name) <= t.len(),
        tally_pos(t, name) < t.len() ==> t[tally_pos(t, name) as int].0 == name,
        tally_pos(t, name) == t.len() ==> forall|k: int|
            0 <= k < t.len() ==> (#[trigger] t[k]).0 != name,
    decreases t.len(),
{
    if t.len() > 0 && t[0].0 != name {
        let tail = t.skip(1);
        lemma_tally_pos(tail, name);
        if tally_pos(t, name) == t.len() {
            assert forall|k: int| 0 <= k < t.len() implies (#[trigger] t[k]).0 != name by {
                if k > 0 {
                    assert(tail[k - 1] == t[k]);
                }
            }
        }
    }
}

/// Adding to a tally.
proof fn lemma_tally_add(
    t: Seq<(Seq<char>, nat)>,
    name: Seq<char>,
    more: nat,
    other: Seq<char>,
    n: nat,
)
    requires
        names_once(t),
        tallies(t, other, n),
        more > 0,
    ensures
        names_once(tally_add(t, name, more)),
        tallies(
            tally_add(t, name, more),
            other,
            if other == name {
                n + more
            } else {
                n
            },
        ),
{
    let p = tally_pos(t, name) as int;
    let all = tally_add(t, name, more);
    lemma_tally_pos(t, name);
    if p < t.len() {
        assert(all =~= t.update(p, (name, t[p].1 + more)));
        assert forall|k: int| 0 <= k < t.len() implies (#[trigger] all[k]).0 == t[k].0 by {}
        assert(names_once(all)) by {
            assert forall|a: int, b: int| 0 <= a < b < all.len() implies (#[trigger] all[a]).0 != (
            #[trigger] all[b]).0 by {
                assert(t[a].0 != t[b].0);
            }
        }
        if other == name {
            assert(t[p].0 == other);
            assert(t[p].1 == n);
            assert(all[p] == (other, n + more));
            assert forall|k: int| 0 <= k < all.len() && (#[trigger] all[k]).0 == other implies all[k].1
                == n + more by {
                if k < p {
                    assert(t[k].0 != t[p].0);
                } else if k > p {
                    assert(t[p].0 != t[k].0);
                }
            }
        } else if n > 0 {
            let k = choose|k: int| 0 <= k < t.len() && t[k] == (other, n);
            assert(all[k] == (other, n));
            assert forall|k: int| 0 <= k < all.len() && (#[trigger] all[k]).0 == other implies all[k].1
                == n by {
                assert(t[k].0 == other);
            }
        } else {
            assert forall|k: int| 0 <= k < all.len() implies (#[trigger] all[k]).0 != other by {
                assert(t[k].0 != other);
            }
        }
    } else {
        let q = insert_pos(t, (name, more), tally_le()) as int;
        lemma_insert_pos_bound(t, (name, more), tally_le());
        assert(all =~= t.insert(q, (name, more)));
        assert forall|k: int| 0 <= k < all.len() && k != q implies #[trigger] all[k] == t[if k < q {
            k
        } else {
            k - 1
        }] by {}
        assert(all[q] == (name, more));
        assert(names_once(all)) by {
            assert forall|a: int, b: int| 0 <= a < b < all.len() implies (#[trigger] all[a]).0 != (
            #[trigger] all[b]).0 by {
                let x = if a < q {
                    a
                } else {
                    a - 1
                };
                let y = if b < q {
                    b
                } else {
                    b - 1
                };
                if a == q {
                    assert(t[y].0 != name);
                } else if b == q {
                    assert(t[x].0 != name);
                } else {
                    assert(t[x].0 != t[y].0);
                }
            }
        }
        if other == name {
            if n > 0 {
                let k = choose|k: int| 0 <= k < t.len() && t[k] == (other, n);
                assert(t[k].0 != name);
            }
            assert(all[q] == (other, n + more));
            assert forall|k: int| 0 <= k < all.len() && (#[trigger] all[k]).0 == other implies all[k].1
                == n + more by {
                if k != q {
                    assert(t[if k < q {
                        k
                    } else {
                        k - 1
                    }].0 != name);
                }
            }
        } else if n > 0 {
            let k = choose|k: int| 0 <= k < t.len() && t[k] == (other, n);
            let j = if k < q {
                k
            } else {
                k + 1
            };
            assert(all[j] == (other, n));
            assert forall|k: int| 0 <= k < all.len() && (#[trigger] all[k]).0 == other implies all[k].1
                == n by {
                assert(t[if k < q {
                    k
                } else {
                    k - 1
                }].0 == other);
            }
        } else {
            assert forall|k: int| 0 <= k < all.len() implies (#[trigger] all[k]).0 != other by {
                if k != q {
                    assert(t[if k < q {
                        k
                    } else {
                        k - 1
                    }].0 != other);
                }
            }
        }
    }
}

/// The tally of the first event types.
proof fn lemma_tally(schemas: Seq<SchemaView>, shards: Seq<ShardView>, n: nat, name: Seq<char>)
    requires
        n <= schemas.len(),
    ensures
        names_once(tally(schemas, shards, n)),
        tallies(tally(schemas, shards, n), name, named_in_all(schemas, shards, n, name)),
    decreases n,
{
    if n == 0 {
        lemma_all_step(schemas, shards, 0, name);
    } else {
        let m = (n - 1) as nat;
        lemma_tally(schemas, shards, m, name);
        lemma_all_step(schemas, shards, m, name);
        let count = event_count(schemas, shards, m);
        if count > 0 {
            lemma_tally_add(
                tally(schemas, shards, m),
                schemas[n - 1].name,
                count,
                name,
                named_in_all(schemas, shards, m, name),
            );
        }
    }
}

/// The lines of a tally, one by one.
spec fn each_tally(t: Seq<(Seq<char>, nat)>) -> Seq<Seq<char>> {
    t.map_values(|e: (Seq<char>, nat)| "  "@ + e.0 + ": "@ + dec_text(e.1) + "\n"@)
}

/// The lines of a tally.
proof fn lemma_tally_lines(t: Seq<(Seq<char>, nat)>)
    ensures
        tally_lines(t) == strung(each_tally(t)),
    decreases t.len(),
{
    if t.len() > 0 {
        lemma_tally_lines(t.drop_last());
        assert(each_tally(t).drop_last() =~= each_tally(t.drop_last()));
    }
}

/// The number of records of all shards.
pub open spec fn records_in_all(schemas: Seq<SchemaView>, shards: Seq<ShardView>) -> nat
    decreases shards.len(),
{
    if shards.len() == 0 {
        0
    } else {
        shard_walk(schemas, shards[0]).len() + records_in_all(schemas, shards.skip(1))
    }
}

/// Counting goes from either end.
proof fn lemma_total_count(schemas: Seq<SchemaView>, shards: Seq<ShardView>)
    ensures
        total_count(schemas, shards) == records_in_all(schemas, shards),
    decreases shards.len(),
{
    if shards.len() == 1 {
        assert(shards.drop_last() =~= Seq::<ShardView>::empty());
        assert(shards.skip(1) =~= Seq::<ShardView>::empty());
        assert(total_count(schemas, shards.drop_last()) == 0);
        assert(records_in_all(schemas, shards.skip(1)) == 0);
        assert(shards.last() == shards[0]);
    } else if shards.len() > 1 {
        let init = shards.drop_last();
        let tail = shards.skip(1);
        let mid = tail.drop_last();
        lemma_total_count(schemas, init);
        lemma_total_count(schemas, tail);
        lemma_total_count(schemas, mid);
        assert(init.skip(1) =~= mid);
        assert(init[0] == shards[0]);
        assert(tail.last() == shards.last());
    }
}

/// The summary says how many records there are in all, and for each event name with records how many
/// of its records there are.
pub proof fn law_records_counted(bytes: Bytes, text: String, parts: DumpParts, name: Seq<char>)
    requires
        call_ensures(inspect, (bytes,), Ok::<String, Error>(text)),
        p_dump(bytes_of(bytes)) matches Ok(d) && dump_parts(d.sections) == Ok::<DumpParts, Error>(
            parts,
        ),
    ensures
        says_number(
            text@,
            "\nrecords: "@,
            records_in_all(parts.schemas, parts.shards),
            " total\n"@,
        ),
        records_named(parts.schemas, parts.shards, name) > 0 ==> says_number(
            text@,
            "  "@ + name + ": "@,
            records_named(parts.schemas, parts.shards, name),
            "\n"@,
        ),
{
    lemma_parts_in(bytes, text, parts);
    let t = shards_text(parts.schemas, parts.shards);
    let total = records_in_all(parts.schemas, parts.shards);
    lemma_total_count(parts.schemas, parts.shards);
    let counts = tally(parts.schemas, parts.shards, parts.schemas.len());
    let w = "\nrecords: "@;
    let v = " total\n"@;
    let before = "\nshards ("@ + dec_text(parts.shards.len()) + ")\n"@ + shard_lines(
        parts.schemas,
        parts.shards,
    );
    let lines = tally_lines(counts);
    let t1 = before + w + dec_text(total) + v;
    assert(t == t1 + lines);
    lemma_says(before, w, total, v);
    lemma_says_more(t1, lines, w, total, v);
    lemma_says_within(text@, t, w, total, v);
    let n = records_named(parts.schemas, parts.shards, name);
    if n > 0 {
        lemma_tally(parts.schemas, parts.shards, parts.schemas.len(), name);
        lemma_all_named(parts.schemas, parts.shards, name);
        let k = choose|k: int| 0 <= k < counts.len() && counts[k] == (name, n);
        let each = each_tally(counts);
        lemma_tally_lines(counts);
        lemma_strung_has(each, k);
        lemma_part_last(t1, lines);
        lemma_part_in_part(t, lines, each[k]);
        lemma_part_in_part(text@, t, each[k]);
        lemma_tally_says(name, n);
        lemma_says_within(text@, each[k], "  "@ + name + ": "@, n, "\n"@);
    }
}

/// The line of a tally.
proof fn lemma_tally_says(name: Seq<char>, n: nat)
    ensures
        says_number(
            "  "@ + name + ": "@ + dec_text(n) + "\n"@,
            "  "@ + name + ": "@,
            n,
            "\n"@,
        ),
{
    let e = Seq::<char>::empty();
    let w = "  "@ + name + ": "@;
    lemma_says(e, w, n, "\n"@);
    assert(e + w =~= w);
}

} // verus!
