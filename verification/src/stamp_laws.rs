//! The stamps of dump files never repeat while the clock does not go back.

use crate::calendar::{
    extends, fixed, format_utc_millis, is_date, is_next_stamp, is_stamp, last_dash,
    law_one_stamp_per_time, lemma_fixed, lemma_last_dash, lemma_tens, next_stamp, stamp_text,
    suffix_of, ten, zero_padded,
};
use crate::calendar::day_number;
use crate::text::{all_digits, dec_text, digits_value, is_digit, law_number_round_trip};
use vstd::prelude::*;

verus! {

// ---------------------------------------------------------------------------
// A stamp tells its time.
// ---------------------------------------------------------------------------

/// Leading zeros count nothing.
proof fn lemma_leading_zeros(n: nat, t: Seq<char>)
    ensures
        digits_value(Seq::new(n, |i: int| '0') + t) == digits_value(t),
    decreases n + t.len(),
{
    let s = Seq::new(n, |i: int| '0') + t;
    if t.len() > 0 {
        lemma_leading_zeros(n, t.drop_last());
        assert(s.drop_last() =~= Seq::new(n, |i: int| '0') + t.drop_last());
        assert(s.last() == t.last());
    } else if n > 0 {
        let less = (n - 1) as nat;
        lemma_leading_zeros(less, t);
        assert(s.drop_last() =~= Seq::new(less, |i: int| '0') + t);
        assert(s.last() == '0');
    } else {
        assert(s =~= t);
    }
}

/// A padded number reads as the number, and is made of digits.
proof fn lemma_padded_value(n: nat, width: nat)
    ensures
        digits_value(zero_padded(n, width)) == n,
        all_digits(zero_padded(n, width)),
        zero_padded(n, width).len() >= width,
{
    law_number_round_trip(n);
    let t = dec_text(n);
    if t.len() < width {
        lemma_leading_zeros((width - t.len()) as nat, t);
    }
}

/// A number that fits in a width is padded to that width.
proof fn lemma_padded_len(n: nat, width: nat)
    requires
        1 <= width,
        n < ten(width),
    ensures
        zero_padded(n, width).len() == width,
{
    lemma_fixed(n, width);
    assert(zero_padded(n, width) == fixed(n, width));
}

/// The part of a stamp behind the year.
#[verifier::opaque]
spec fn behind_year(m: nat, d: nat, of_day: nat) -> Seq<char> {
    zero_padded(m, 2) + zero_padded(d, 2) + "T"@ + zero_padded(of_day / 3_600_000, 2)
        + zero_padded(of_day / 60_000 % 60, 2) + zero_padded(of_day / 1000 % 60, 2)
        + zero_padded(of_day % 1000, 3) + "Z"@
}

/// The places of the parts behind the year.
proof fn lemma_behind_year(m: nat, d: nat, of_day: nat)
    requires
        m <= 12,
        d <= 31,
        of_day < 86_400_000,
    ensures
        ({
            let s = behind_year(m, d, of_day);
            &&& s.len() == 15
            &&& s.subrange(0, 2) == zero_padded(m, 2)
            &&& s.subrange(2, 4) == zero_padded(d, 2)
            &&& s.subrange(5, 7) == zero_padded(of_day / 3_600_000, 2)
            &&& s.subrange(7, 9) == zero_padded(of_day / 60_000 % 60, 2)
            &&& s.subrange(9, 11) == zero_padded(of_day / 1000 % 60, 2)
            &&& s.subrange(11, 14) == zero_padded(of_day % 1000, 3)
            &&& s[4] == 'T'
            &&& s[14] == 'Z'
            &&& forall|i: int| 0 <= i < s.len() ==> #[trigger] s[i] != '-'
        }),
{
    reveal(behind_year);
    lemma_tens();
    reveal_strlit("T");
    reveal_strlit("Z");
    let (h, n, c, k) = (
        of_day / 3_600_000,
        of_day / 60_000 % 60,
        of_day / 1000 % 60,
        of_day % 1000,
    );
    lemma_padded_len(m, 2);
    lemma_padded_len(d, 2);
    lemma_padded_len(h, 2);
    lemma_padded_len(n, 2);
    lemma_padded_len(c, 2);
    lemma_padded_len(k, 3);
    lemma_padded_value(m, 2);
    lemma_padded_value(d, 2);
    lemma_padded_value(h, 2);
    lemma_padded_value(n, 2);
    lemma_padded_value(c, 2);
    lemma_padded_value(k, 3);
    let s = behind_year(m, d, of_day);
    assert(s.subrange(0, 2) =~= zero_padded(m, 2));
    assert(s.subrange(2, 4) =~= zero_padded(d, 2));
    assert(s.subrange(5, 7) =~= zero_padded(h, 2));
    assert(s.subrange(7, 9) =~= zero_padded(n, 2));
    assert(s.subrange(9, 11) =~= zero_padded(c, 2));
    assert(s.subrange(11, 14) =~= zero_padded(k, 3));
    assert forall|i: int| 0 <= i < s.len() implies #[trigger] s[i] != '-' by {
        if i < 2 {
            assert(is_digit(zero_padded(m, 2)[i]));
        } else if i < 4 {
            assert(is_digit(zero_padded(d, 2)[i - 2]));
        } else if 5 <= i < 7 {
            assert(is_digit(zero_padded(h, 2)[i - 5]));
        } else if 7 <= i < 9 {
            assert(is_digit(zero_padded(n, 2)[i - 7]));
        } else if 9 <= i < 11 {
            assert(is_digit(zero_padded(c, 2)[i - 9]));
        } else if 11 <= i < 14 {
            assert(is_digit(zero_padded(k, 3)[i - 11]));
        }
    }
}

/// Runs of characters can be grouped from either side.
proof fn lemma_group(
    y: Seq<char>,
    a: Seq<char>,
    b: Seq<char>,
    c: Seq<char>,
    d: Seq<char>,
    e: Seq<char>,
    f: Seq<char>,
    g: Seq<char>,
    h: Seq<char>,
)
    ensures
        y + a + b + c + d + e + f + g + h == y + (a + b + c + d + e + f + g + h),
{
    assert(y + a + b + c =~= y + (a + b + c));
    let r = a + b + c;
    assert(y + r + d + e =~= y + (r + d + e));
    let q = r + d + e;
    assert(y + q + f + g + h =~= y + (q + f + g + h));
}

/// A stamp is its year and what stands behind it.
proof fn lemma_split_year(y: nat, m: nat, d: nat, of_day: nat)
    ensures
        stamp_text(y, m, d, of_day) == zero_padded(y, 4) + behind_year(m, d, of_day),
{
    reveal(behind_year);
    lemma_group(
        zero_padded(y, 4),
        zero_padded(m, 2),
        zero_padded(d, 2),
        "T"@,
        zero_padded(of_day / 3_600_000, 2),
        zero_padded(of_day / 60_000 % 60, 2),
        zero_padded(of_day / 1000 % 60, 2),
        zero_padded(of_day % 1000, 3),
        "Z"@,
    );
}

/// A year and what stands behind it hold no `-`.
proof fn lemma_dashless(y: nat, m: nat, d: nat, of_day: nat)
    requires
        m <= 12,
        d <= 31,
        of_day < 86_400_000,
    ensures
        ({
            let s = zero_padded(y, 4) + behind_year(m, d, of_day);
            &&& s.len() >= 15
            &&& forall|i: int| 0 <= i < s.len() ==> #[trigger] s[i] != '-'
        }),
{
    let year = zero_padded(y, 4);
    let rest = behind_year(m, d, of_day);
    let s = year + rest;
    lemma_behind_year(m, d, of_day);
    lemma_padded_value(y, 4);
    assert forall|i: int| 0 <= i < s.len() implies #[trigger] s[i] != '-' by {
        if i < year.len() {
            assert(is_digit(year[i]));
        } else {
            assert(s[i] == rest[i - year.len()]);
        }
    }
}

/// A padded number is that of one number.
proof fn lemma_padded_back(a: nat, b: nat, width: nat)
    requires
        zero_padded(a, width) == zero_padded(b, width),
    ensures
        a == b,
{
    lemma_padded_value(a, width);
    lemma_padded_value(b, width);
}

/// The parts of a time of the day.
proof fn lemma_of_day(a: nat)
    ensures
        a == 3_600_000 * (a / 3_600_000) + 60_000 * (a / 60_000 % 60) + 1000 * (a / 1000 % 60) + a
            % 1000,
{
}

/// What stands behind the year has one month, one day and one time of the day.
proof fn lemma_behind_back(m1: nat, d1: nat, a: nat, m2: nat, d2: nat, b: nat)
    requires
        m1 <= 12,
        d1 <= 31,
        a < 86_400_000,
        m2 <= 12,
        d2 <= 31,
        b < 86_400_000,
        behind_year(m1, d1, a) == behind_year(m2, d2, b),
    ensures
        m1 == m2,
        d1 == d2,
        a == b,
{
    lemma_behind_year(m1, d1, a);
    lemma_behind_year(m2, d2, b);
    lemma_padded_back(m1, m2, 2);
    lemma_padded_back(d1, d2, 2);
    lemma_padded_back(a / 3_600_000, b / 3_600_000, 2);
    lemma_padded_back(a / 60_000 % 60, b / 60_000 % 60, 2);
    lemma_padded_back(a / 1000 % 60, b / 1000 % 60, 2);
    lemma_padded_back(a % 1000, b % 1000, 3);
    lemma_of_day(a);
    lemma_of_day(b);
}

/// Two texts with ends of one length are the same only where their beginnings and their ends are.
proof fn lemma_ends(a: Seq<char>, r: Seq<char>, b: Seq<char>, s: Seq<char>)
    requires
        r.len() == s.len(),
        a + r == b + s,
    ensures
        a == b,
        r == s,
{
    let t = a + r;
    assert(t.len() == b.len() + s.len());
    assert(a =~= t.take(a.len() as int));
    assert(b =~= (b + s).take(b.len() as int));
    assert(r =~= t.skip(a.len() as int));
    assert(s =~= (b + s).skip(b.len() as int));
}

/// A stamp has one date and one time of the day.
proof fn lemma_stamp_back(y1: nat, m1: nat, d1: nat, a: nat, y2: nat, m2: nat, d2: nat, b: nat)
    requires
        m1 <= 12,
        d1 <= 31,
        a < 86_400_000,
        m2 <= 12,
        d2 <= 31,
        b < 86_400_000,
        zero_padded(y1, 4) + behind_year(m1, d1, a) == zero_padded(y2, 4) + behind_year(m2, d2, b),
    ensures
        y1 == y2,
        m1 == m2,
        d1 == d2,
        a == b,
{
    lemma_behind_year(m1, d1, a);
    lemma_behind_year(m2, d2, b);
    lemma_ends(
        zero_padded(y1, 4),
        behind_year(m1, d1, a),
        zero_padded(y2, 4),
        behind_year(m2, d2, b),
    );
    lemma_padded_back(y1, y2, 4);
    lemma_behind_back(m1, d1, a, m2, d2, b);
}

/// Two times with one stamp are the same time.
pub proof fn law_one_time_per_stamp(text: Seq<char>, a: u64, b: u64)
    requires
        is_stamp(text, a),
        is_stamp(text, b),
    ensures
        a == b,
{
    let (y1, m1, d1) = choose|y: nat, m: nat, d: nat|
        is_date(y as int, m as int, d as int) && day_number(y as int, m as int, d as int) == a as int
            / 86_400_000 && text == #[trigger] stamp_text(y, m, d, (a % 86_400_000) as nat);
    let (y2, m2, d2) = choose|y: nat, m: nat, d: nat|
        is_date(y as int, m as int, d as int) && day_number(y as int, m as int, d as int) == b as int
            / 86_400_000 && text == #[trigger] stamp_text(y, m, d, (b % 86_400_000) as nat);
    lemma_split_year(y1, m1, d1, (a % 86_400_000) as nat);
    lemma_split_year(y2, m2, d2, (b % 86_400_000) as nat);
    lemma_stamp_back(
        y1,
        m1,
        d1,
        (a % 86_400_000) as nat,
        y2,
        m2,
        d2,
        (b % 86_400_000) as nat,
    );
}

// ---------------------------------------------------------------------------
// A run of stamps.
// ---------------------------------------------------------------------------

/// A bare stamp has no `-`.
proof fn lemma_bare(text: Seq<char>, unix_millis: u64)
    requires
        is_stamp(text, unix_millis),
    ensures
        forall|i: int| 0 <= i < text.len() ==> #[trigger] text[i] != '-',
        last_dash(text) == -1,
        text.len() > 0,
{
    let of_day = (unix_millis % 86_400_000) as nat;
    let (y, m, d) = choose|y: nat, m: nat, d: nat|
        is_date(y as int, m as int, d as int) && day_number(y as int, m as int, d as int)
            == unix_millis as int / 86_400_000 && text == #[trigger] stamp_text(y, m, d, of_day);
    lemma_split_year(y, m, d, of_day);
    lemma_dashless(y, m, d, of_day);
    lemma_no_dash(text);
}

/// A text without a `-` has no last one.
proof fn lemma_no_dash(s: Seq<char>)
    requires
        forall|i: int| 0 <= i < s.len() ==> #[trigger] s[i] != '-',
    ensures
        last_dash(s) == -1,
    decreases s.len(),
{
    if s.len() > 0 {
        assert(s[s.len() - 1] != '-');
        assert forall|i: int| 0 <= i < s.drop_last().len() implies #[trigger] s.drop_last()[i]
            != '-' by {
            assert(s.drop_last()[i] == s[i]);
        }
        lemma_no_dash(s.drop_last());
    }
}

/// The stamps of a run of times, each made to differ from the one before it.
pub open spec fn are_stamps(times: Seq<u64>, stamps: Seq<Seq<char>>) -> bool {
    &&& times.len() == stamps.len()
    &&& forall|k: int|
        0 <= k < stamps.len() ==> is_next_stamp(
            #[trigger] stamps[k],
            times[k],
            if k == 0 {
                Seq::empty()
            } else {
                stamps[k - 1]
            },
        )
}

/// How many stamps of the same time stand right before the one at `k`.
spec fn rank(times: Seq<u64>, k: int) -> nat
    decreases k,
{
    if k > 0 && times[k - 1] == times[k] {
        rank(times, k - 1) + 1
    } else {
        0
    }
}

/// A stamp with a number behind it, unless the number is 0.
spec fn numbered(base: Seq<char>, n: nat) -> Seq<char> {
    if n == 0 {
        base
    } else {
        base + "-"@ + dec_text(n)
    }
}

/// A rank is at most the place.
proof fn lemma_rank_bound(times: Seq<u64>, k: int)
    requires
        0 <= k,
    ensures
        rank(times, k) <= k,
    decreases k,
{
    if k > 0 && times[k - 1] == times[k] {
        lemma_rank_bound(times, k - 1);
    }
}

/// What follows a numbered stamp of the same time.
proof fn lemma_next_same(base: Seq<char>, unix_millis: u64, n: nat)
    requires
        is_stamp(base, unix_millis),
        n <= u64::MAX,
    ensures
        next_stamp(base, numbered(base, n)) == numbered(base, n + 1),
{
    lemma_bare(base, unix_millis);
    let prev = numbered(base, n);
    if n > 0 {
        reveal_strlit("-");
        law_number_round_trip(n);
        lemma_last_dash(base, dec_text(n));
        assert(prev.take(base.len() as int) =~= base);
        assert(prev.skip(base.len() as int + 1) =~= dec_text(n));
        assert(is_digit(dec_text(n)[0]));
        assert(extends(prev, base));
        assert(suffix_of(prev, base) == n);
    } else {
        assert(suffix_of(prev, base) == 0);
    }
}

/// What follows a numbered stamp of another time.
proof fn lemma_next_other(base: Seq<char>, t: u64, before: Seq<char>, u: u64, n: nat)
    requires
        is_stamp(base, t),
        is_stamp(before, u),
        t != u,
    ensures
        next_stamp(base, numbered(before, n)) == base,
{
    lemma_bare(base, t);
    lemma_bare(before, u);
    if base == before {
        law_one_time_per_stamp(base, t, u);
    }
    let prev = numbered(before, n);
    if n > 0 {
        reveal_strlit("-");
        law_number_round_trip(n);
        let at = before.len() as int;
        assert(prev[at] == '-');
        if base == prev {
            assert(base[at] != '-');
        }
        if extends(prev, base) {
            let b = base.len() as int;
            if b < at {
                assert(prev[b] == before[b]);
            } else if b > at {
                assert(prev.take(b)[at] == prev[at]);
                assert(base[at] != '-');
            } else {
                assert(prev.take(b) =~= before);
            }
        }
    } else if extends(prev, base) {
        let b = base.len() as int;
        assert(prev[b] == before[b]);
    }
}

/// Each stamp of a run is that of its time with its rank behind it.
proof fn lemma_ranked(times: Seq<u64>, stamps: Seq<Seq<char>>, k: int) -> (base: Seq<char>)
    requires
        are_stamps(times, stamps),
        stamps.len() <= u64::MAX,
        0 <= k < stamps.len(),
    ensures
        is_stamp(base, times[k]),
        stamps[k] == numbered(base, rank(times, k)),
    decreases k,
{
    let prev = if k == 0 {
        Seq::empty()
    } else {
        stamps[k - 1]
    };
    assert(is_next_stamp(stamps[k], times[k], prev));
    let base = choose|base: Seq<char>| #[trigger]
        is_stamp(base, times[k]) && stamps[k] == next_stamp(base, prev);
    lemma_bare(base, times[k]);
    if k > 0 {
        let before = lemma_ranked(times, stamps, k - 1);
        lemma_rank_bound(times, k - 1);
        let n = rank(times, k - 1);
        if times[k - 1] == times[k] {
            law_one_stamp_per_time(base, before, times[k]);
            lemma_next_same(base, times[k], n);
        } else {
            lemma_next_other(base, times[k], before, times[k - 1], n);
        }
    }
    base
}

/// Within one time the ranks ascend.
proof fn lemma_ranks_ascend(times: Seq<u64>, i: int, j: int)
    requires
        0 <= i < j < times.len(),
        forall|k: int| i <= k <= j ==> #[trigger] times[k] == times[i],
    ensures
        rank(times, i) < rank(times, j),
    decreases j - i,
{
    assert(times[j - 1] == times[i] && times[j] == times[i]);
    if j - 1 > i {
        lemma_ranks_ascend(times, i, j - 1);
    }
}

/// Numbered stamps are the same only where their bare stamps and their numbers are.
proof fn lemma_numbered_back(a: Seq<char>, t: u64, m: nat, b: Seq<char>, u: u64, n: nat)
    requires
        is_stamp(a, t),
        is_stamp(b, u),
        numbered(a, m) == numbered(b, n),
    ensures
        a == b,
        m == n,
{
    lemma_bare(a, t);
    lemma_bare(b, u);
    reveal_strlit("-");
    let s = numbered(a, m);
    if m > 0 {
        law_number_round_trip(m);
        lemma_last_dash(a, dec_text(m));
        assert(s.take(a.len() as int) =~= a);
        assert(s.skip(a.len() as int + 1) =~= dec_text(m));
    }
    if n > 0 {
        law_number_round_trip(n);
        lemma_last_dash(b, dec_text(n));
        assert(s.take(b.len() as int) =~= b);
        assert(s.skip(b.len() as int + 1) =~= dec_text(n));
    }
}

/// No two dumps of a run have the same stamp while the clock does not go back, so no dump overwrites
/// an earlier one.
pub proof fn law_stamps_never_repeat(times: Seq<u64>, stamps: Seq<Seq<char>>)
    requires
        are_stamps(times, stamps),
        stamps.len() <= u64::MAX,
        forall|i: int, j: int| 0 <= i <= j < times.len() ==> times[i] <= times[j],
    ensures
        stamps.no_duplicates(),
{
    assert forall|i: int, j: int| 0 <= i < j < stamps.len() implies stamps[i] != stamps[j] by {
        let a = lemma_ranked(times, stamps, i);
        let b = lemma_ranked(times, stamps, j);
        if stamps[i] == stamps[j] {
            lemma_numbered_back(
                a,
                times[i],
                rank(times, i),
                b,
                times[j],
                rank(times, j),
            );
            law_one_time_per_stamp(a, times[i], times[j]);
            assert forall|k: int| i <= k <= j implies #[trigger] times[k] == times[i] by {
                assert(times[i] <= times[k] && times[k] <= times[j]);
            }
            lemma_ranks_ascend(times, i, j);
        }
    }
}

/// A part of a text is a number in digits.
pub open spec fn reads(text: Seq<char>, from: int, to: int, n: nat) -> bool {
    all_digits(text.subrange(from, to)) && digits_value(text.subrange(from, to)) == n
}

/// A text reads as a date and a time of day: the year, on two digits each the month and the day, a `T`,
/// on two digits each the hour, the minute and the second, on three digits the millisecond, and a `Z`.
pub open spec fn reads_as(
    text: Seq<char>,
    y: nat,
    m: nat,
    d: nat,
    h: nat,
    n: nat,
    c: nat,
    k: nat,
) -> bool {
    let e = text.len() as int;
    &&& e >= 19
    &&& reads(text, 0, e - 15, y)
    &&& reads(text, e - 15, e - 13, m)
    &&& reads(text, e - 13, e - 11, d)
    &&& text[e - 11] == 'T'
    &&& reads(text, e - 10, e - 8, h)
    &&& reads(text, e - 8, e - 6, n)
    &&& reads(text, e - 6, e - 4, c)
    &&& reads(text, e - 4, e - 1, k)
    &&& text[e - 1] == 'Z'
}

/// What a stamp reads as.
proof fn lemma_reads_as(y: nat, m: nat, d: nat, of_day: nat)
    requires
        m <= 12,
        d <= 31,
        of_day < 86_400_000,
    ensures
        reads_as(
            stamp_text(y, m, d, of_day),
            y,
            m,
            d,
            of_day / 3_600_000,
            of_day / 60_000 % 60,
            of_day / 1000 % 60,
            of_day % 1000,
        ),
{
    let t = stamp_text(y, m, d, of_day);
    let rest = behind_year(m, d, of_day);
    let year = zero_padded(y, 4);
    lemma_behind_year(m, d, of_day);
    lemma_split_year(y, m, d, of_day);
    lemma_padded_value(y, 4);
    lemma_padded_value(m, 2);
    lemma_padded_value(d, 2);
    lemma_padded_value(of_day / 3_600_000, 2);
    lemma_padded_value(of_day / 60_000 % 60, 2);
    lemma_padded_value(of_day / 1000 % 60, 2);
    lemma_padded_value(of_day % 1000, 3);
    let e = t.len() as int;
    let g = year.len() as int;
    assert(e == g + 15);
    assert(t.subrange(0, e - 15) =~= year);
    lemma_behind(year, rest, 0, 2);
    lemma_behind(year, rest, 2, 4);
    lemma_behind(year, rest, 5, 7);
    lemma_behind(year, rest, 7, 9);
    lemma_behind(year, rest, 9, 11);
    lemma_behind(year, rest, 11, 14);
    assert(t[e - 11] == rest[4]);
    assert(t[e - 1] == rest[14]);
}

/// A part of what stands behind something.
proof fn lemma_behind(a: Seq<char>, b: Seq<char>, from: int, to: int)
    requires
        0 <= from <= to <= b.len(),
    ensures
        (a + b).subrange(a.len() + from, a.len() + to) == b.subrange(from, to),
{
    assert((a + b).subrange(a.len() + from, a.len() + to) =~= b.subrange(from, to));
}

/// The milliseconds from the start of 1970 to a date and a time of its day.
pub open spec fn millis_to(y: nat, m: nat, d: nat, h: nat, n: nat, c: nat, k: nat) -> int {
    (((day_number(y as int, m as int, d as int) * 24 + h) * 60 + n) * 60 + c) * 1000 + k
}

/// A stamp reads as the date and the time of day that come as many milliseconds after the start of
/// 1970 as it was asked for.
pub proof fn law_stamp_reads(unix_millis: u64, text: String)
    requires
        call_ensures(format_utc_millis, (unix_millis,), text),
    ensures
        exists|y: nat, m: nat, d: nat, h: nat, n: nat, c: nat, k: nat| #[trigger]
            reads_as(text@, y, m, d, h, n, c, k) && is_date(y as int, m as int, d as int) && h < 24
                && n < 60 && c < 60 && k < 1000 && millis_to(y, m, d, h, n, c, k) == unix_millis,
{
    let of_day = (unix_millis % 86_400_000) as nat;
    let (y, m, d) = choose|y: nat, m: nat, d: nat|
        is_date(y as int, m as int, d as int) && day_number(y as int, m as int, d as int)
            == unix_millis as int / 86_400_000 && text@ == #[trigger] stamp_text(y, m, d, of_day);
    let (h, n, c, k) = (
        of_day / 3_600_000,
        of_day / 60_000 % 60,
        of_day / 1000 % 60,
        of_day % 1000,
    );
    lemma_reads_as(y, m, d, of_day);
    assert(of_day == 3_600_000 * h + 60_000 * n + 1000 * c + k);
    assert(reads_as(text@, y, m, d, h, n, c, k));
    assert(millis_to(y, m, d, h, n, c, k) == unix_millis);
}

} // verus!
