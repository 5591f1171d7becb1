//! UTC dates, and the time stamps of dump files.

use crate::text::{
    all_digits, chars_of, dec_text, is_digit, law_number_round_trip, number_up_to, parse_number,
    push_dec,
};
use vstd::prelude::*;

verus! {

// ---------------------------------------------------------------------------
// The calendar.
// ---------------------------------------------------------------------------

/// A leap year of the Gregorian calendar.
pub open spec fn is_leap(year: int) -> bool {
    year % 4 == 0 && (year % 100 != 0 || year % 400 == 0)
}

/// The days of a year.
pub open spec fn year_days(year: int) -> nat {
    if is_leap(year) {
        366
    } else {
        365
    }
}

/// The days of a month.
pub open spec fn month_days(year: int, month: int) -> nat {
    if month == 2 {
        if is_leap(year) {
            29
        } else {
            28
        }
    } else if month == 4 || month == 6 || month == 9 || month == 11 {
        30
    } else {
        31
    }
}

/// The days from the start of 1970 to the start of a year.
pub open spec fn days_to_year(year: int) -> nat
    decreases year,
{
    if year <= 1970 {
        0
    } else {
        days_to_year(year - 1) + year_days(year - 1)
    }
}

/// The days from the start of a year to the start of a month.
pub open spec fn days_to_month(year: int, month: int) -> nat
    decreases month,
{
    if month <= 1 {
        0
    } else {
        days_to_month(year, month - 1) + month_days(year, month - 1)
    }
}

/// A date from 1970 on.
pub open spec fn is_date(year: int, month: int, day: int) -> bool {
    1970 <= year && 1 <= month <= 12 && 1 <= day <= month_days(year, month)
}

/// The days from 1970-01-01 to a date.
pub open spec fn day_number(year: int, month: int, day: int) -> int {
    days_to_year(year) + days_to_month(year, month) + day - 1
}

/// The leap years from year 1 to `year`.
spec fn leaps(year: int) -> int {
    year / 4 - year / 100 + year / 400
}

/// The days to a year in closed form.
proof fn lemma_days_to_year(year: int)
    requires
        1970 <= year,
    ensures
        days_to_year(year) == 365 * (year - 1970) + leaps(year - 1) - 477,
    decreases year,
{
    if year > 1970 {
        lemma_days_to_year(year - 1);
        lemma_leaps_step(year - 1);
    }
}

/// A leap year adds one leap year.
proof fn lemma_leaps_step(year: int)
    requires
        1 <= year,
    ensures
        leaps(year) == leaps(year - 1) + if is_leap(year) {
            1int
        } else {
            0int
        },
{
    lemma_div_step(year, 4);
    lemma_div_step(year, 100);
    lemma_div_step(year, 400);
    assert(year % 100 == 0 ==> year % 4 == 0);
    assert(year % 400 == 0 ==> year % 100 == 0);
}

/// Counting up by one adds to a quotient at each multiple.
proof fn lemma_div_step(n: int, k: int)
    requires
        1 <= n,
        k == 4 || k == 100 || k == 400,
    ensures
        n / k == (n - 1) / k + if n % k == 0 {
            1int
        } else {
            0int
        },
{
}

/// The days to each month in closed form.
proof fn lemma_days_to_month(year: int, month: int)
    requires
        1 <= month <= 13,
    ensures
        ({
            let leap: int = if is_leap(year) {
                1
            } else {
                0
            };
            days_to_month(year, month) == if month == 1 {
                0
            } else if month == 2 {
                31
            } else {
                59 + leap + (153 * (month - 3) + 2) / 5
            }
        }),
{
    reveal_with_fuel(days_to_month, 14);
}

/// Two dates with the same day number are the same date.
pub proof fn law_one_date_per_day(y1: int, m1: int, d1: int, y2: int, m2: int, d2: int)
    requires
        is_date(y1, m1, d1),
        is_date(y2, m2, d2),
        day_number(y1, m1, d1) == day_number(y2, m2, d2),
    ensures
        y1 == y2,
        m1 == m2,
        d1 == d2,
{
    lemma_within_year(y1, m1, d1);
    lemma_within_year(y2, m2, d2);
    if y1 < y2 {
        lemma_years_grow(y1 + 1, y2);
    } else if y2 < y1 {
        lemma_years_grow(y2 + 1, y1);
    } else if m1 < m2 {
        lemma_months_grow(y1, m1 + 1, m2);
    } else if m2 < m1 {
        lemma_months_grow(y1, m2 + 1, m1);
    }
}

/// Later years start later.
proof fn lemma_years_grow(a: int, b: int)
    requires
        a <= b,
    ensures
        days_to_year(a) <= days_to_year(b),
    decreases b - a,
{
    if a < b {
        lemma_years_grow(a, b - 1);
    }
}

/// Later months start later.
proof fn lemma_months_grow(year: int, a: int, b: int)
    requires
        a <= b,
    ensures
        days_to_month(year, a) <= days_to_month(year, b),
    decreases b - a,
{
    if a < b {
        lemma_months_grow(year, a, b - 1);
    }
}

/// A date lies before the next year.
proof fn lemma_within_year(year: int, month: int, day: int)
    requires
        is_date(year, month, day),
    ensures
        days_to_year(year) <= day_number(year, month, day) < days_to_year(year + 1),
{
    lemma_days_to_month(year, 13);
    lemma_months_grow(year, month + 1, 13);
    assert(days_to_month(year, month + 1) == days_to_month(year, month) + month_days(year, month));
    assert((153 * 10 + 2) / 5 == 306int);
}

/// A civil date.
#[derive(Clone, Copy, Debug, PartialEq, Eq, Structural)]
pub struct Date {
    pub year: u64,
    pub month: u64,
    pub day: u64,
}

/// The date that many days after 1970-01-01. Years are counted from March, so that a leap day comes
/// last; 400 of them have 146,097 days.
pub fn civil_from_days(days: u64) -> (date: Date)
    requires
        days <= 0xffff_ffff_ffff,
    ensures
        is_date(date.year as int, date.month as int, date.day as int),
        day_number(date.year as int, date.month as int, date.day as int) == days,
{
    let z: u64 = days + 719_468;
    let era: u64 = z / 146_097;
    let of_era: u64 = z % 146_097;
    let century: u64 = if of_era == 146_096 {
        3
    } else {
        of_era / 36_524
    };
    let of_century: u64 = of_era - century * 36_524;
    let quad: u64 = of_century / 1_461;
    let of_quad: u64 = of_century - quad * 1_461;
    let single: u64 = if of_quad == 1_460 {
        3
    } else {
        of_quad / 365
    };
    let of_year: u64 = of_quad - single * 365;
    let march_year: u64 = era * 400 + century * 100 + quad * 4 + single;
    let mp: u64 = (5 * of_year + 2) / 153;
    let day: u64 = of_year - (153 * mp + 2) / 5 + 1;
    let month: u64 = if mp < 10 {
        mp + 3
    } else {
        mp - 9
    };
    let year: u64 = if month <= 2 {
        march_year + 1
    } else {
        march_year
    };
    proof {
        let y = march_year as int;
        lemma_march_year(
            era as int,
            century as int,
            quad as int,
            single as int,
        );
        assert(z == 365 * y + leaps(y) + of_year);
        lemma_march_leap(
            era as int,
            century as int,
            quad as int,
            single as int,
            of_year as int,
        );
        assert(y >= 1969);
        if month >= 3 {
            assert(of_year < 306);
            assert(y >= 1970);
            lemma_days_to_year(y);
            lemma_leaps_step(y);
            lemma_days_to_month(y, month as int);
        } else {
            lemma_days_to_year(y + 1);
            lemma_days_to_month(y + 1, month as int);
        }
    }
    Date { year, month, day }
}

/// The quotients of a year that is taken apart.
proof fn lemma_march_year(era: int, century: int, quad: int, single: int)
    requires
        0 <= era,
        0 <= century <= 3,
        0 <= quad <= 24,
        0 <= single <= 3,
    ensures
        ({
            let y = era * 400 + century * 100 + quad * 4 + single;
            &&& y / 4 == era * 100 + century * 25 + quad
            &&& y / 100 == era * 4 + century
            &&& y / 400 == era
            &&& 365 * y + leaps(y) == era * 146_097 + century * 36_524 + quad * 1_461 + single * 365
        }),
{
}

/// Only a year that ends in a leap day has a 366th day.
proof fn lemma_march_leap(era: int, century: int, quad: int, single: int, of_year: int)
    requires
        0 <= era,
        0 <= century <= 3,
        0 <= quad <= 24,
        0 <= single <= 3,
        0 <= of_year <= 365,
        of_year == 365 ==> single == 3 && (quad < 24 || century == 3),
    ensures
        ({
            let y = era * 400 + century * 100 + quad * 4 + single;
            of_year == 365 ==> is_leap(y + 1)
        }),
{
    let y = era * 400 + century * 100 + quad * 4 + single;
    if of_year == 365 {
        if quad < 24 {
            assert(y + 1 == era * 400 + century * 100 + (quad + 1) * 4);
            assert((y + 1) % 4 == 0);
            assert((y + 1) % 100 == (quad + 1) * 4);
        } else {
            assert(y + 1 == (era + 1) * 400);
            assert((y + 1) % 400 == 0);
        }
    }
}

// ---------------------------------------------------------------------------
// Stamps.
// ---------------------------------------------------------------------------

/// A number in base 10 with leading zeros up to a width.
pub open spec fn zero_padded(n: nat, width: nat) -> Seq<char> {
    let t = dec_text(n);
    if t.len() < width {
        Seq::new((width - t.len()) as nat, |i: int| '0') + t
    } else {
        t
    }
}

/// The stamp `YYYYMMDDThhmmssSSSZ` of a date and the milliseconds of its day.
pub open spec fn stamp_text(year: nat, month: nat, day: nat, of_day: nat) -> Seq<char> {
    zero_padded(year, 4) + zero_padded(month, 2) + zero_padded(day, 2) + "T"@ + zero_padded(
        of_day / 3_600_000,
        2,
    ) + zero_padded(of_day / 60_000 % 60, 2) + zero_padded(of_day / 1000 % 60, 2) + zero_padded(
        of_day % 1000,
        3,
    ) + "Z"@
}

/// The text is the stamp of a time: that of the date on which it falls.
pub open spec fn is_stamp(text: Seq<char>, unix_millis: u64) -> bool {
    exists|y: nat, m: nat, d: nat|
        is_date(y as int, m as int, d as int) && day_number(y as int, m as int, d as int)
            == unix_millis as int / 86_400_000 && text == #[trigger] stamp_text(
            y,
            m,
            d,
            (unix_millis % 86_400_000) as nat,
        )
}

/// Appends a number with leading zeros up to a width.
fn push_zero_padded(out: &mut String, n: u64, width: usize)
    ensures
        final(out)@ == old(out)@ + zero_padded(n as nat, width as nat),
{
    let text = crate::text::dec(n);
    let len: usize = text.as_str().unicode_len();
    let ghost start = out@;
    let mut i: usize = len;
    assert(out@ =~= start + Seq::new(0, |k: int| '0'));
    while i < width
        invariant
            len == text@.len(),
            len <= i,
            i <= width || i == len,
            out@ == start + Seq::new((i - len) as nat, |k: int| '0'),
        decreases width - i,
    {
        out.push('0');
        assert(out@ =~= start + Seq::new((i + 1 - len) as nat, |k: int| '0'));
        i = i + 1;
    }
    out.append(text.as_str());
    assert(out@ =~= start + zero_padded(n as nat, width as nat));
}

/// Formats milliseconds since the epoch as `YYYYMMDDThhmmssSSSZ` in UTC.
pub fn format_utc_millis(unix_millis: u64) -> (text: String)
    ensures
        is_stamp(text@, unix_millis),
{
    let date = civil_from_days(unix_millis / 86_400_000);
    let of_day: u64 = unix_millis % 86_400_000;
    let mut text = String::new();
    push_zero_padded(&mut text, date.year, 4);
    push_zero_padded(&mut text, date.month, 2);
    push_zero_padded(&mut text, date.day, 2);
    text.append("T");
    push_zero_padded(&mut text, of_day / 3_600_000, 2);
    push_zero_padded(&mut text, of_day / 60_000 % 60, 2);
    push_zero_padded(&mut text, of_day / 1000 % 60, 2);
    push_zero_padded(&mut text, of_day % 1000, 3);
    text.append("Z");
    assert(text@ =~= stamp_text(
        date.year as nat,
        date.month as nat,
        date.day as nat,
        of_day as nat,
    ));
    text
}

/// A time has one stamp.
pub proof fn law_one_stamp_per_time(a: Seq<char>, b: Seq<char>, unix_millis: u64)
    requires
        is_stamp(a, unix_millis),
        is_stamp(b, unix_millis),
    ensures
        a == b,
{
    let of_day = (unix_millis % 86_400_000) as nat;
    let days = unix_millis as int / 86_400_000;
    let (y1, m1, d1) = choose|y: nat, m: nat, d: nat|
        is_date(y as int, m as int, d as int) && day_number(y as int, m as int, d as int) == days
            && a == #[trigger] stamp_text(y, m, d, of_day);
    let (y2, m2, d2) = choose|y: nat, m: nat, d: nat|
        is_date(y as int, m as int, d as int) && day_number(y as int, m as int, d as int) == days
            && b == #[trigger] stamp_text(y, m, d, of_day);
    law_one_date_per_day(y1 as int, m1 as int, d1 as int, y2 as int, m2 as int, d2 as int);
}

// ---------------------------------------------------------------------------
// Stamps sort by time.
// ---------------------------------------------------------------------------

/// One text comes before another of the same length: at the first place where they differ it has the
/// smaller character.
pub open spec fn text_lt(a: Seq<char>, b: Seq<char>) -> bool {
    a.len() == b.len() && exists|k: int|
        0 <= k < a.len() && #[trigger] a.take(k) == b.take(k) && (a[k] as u32) < (b[k] as u32)
}

/// The low `width` digits of a number in base 10.
pub open spec fn fixed(n: nat, width: nat) -> Seq<char>
    decreases width,
{
    if width == 0 {
        Seq::empty()
    } else {
        fixed(n / 10, (width - 1) as nat).push(crate::text::digit(n % 10))
    }
}

/// Ten to a power.
pub open spec fn ten(width: nat) -> nat
    decreases width,
{
    if width == 0 {
        1
    } else {
        10 * ten((width - 1) as nat)
    }
}

/// A number that fits in a width is padded to its fixed digits.
pub proof fn lemma_fixed(n: nat, width: nat)
    requires
        1 <= width,
        n < ten(width),
    ensures
        zero_padded(n, width) == fixed(n, width),
        fixed(n, width).len() == width,
        dec_text(n).len() <= width,
    decreases width,
{
    let t = dec_text(n);
    if width == 1 {
        assert(ten(0) == 1);
        assert(fixed(n / 10, 0) =~= Seq::<char>::empty());
        assert(fixed(n, 1) =~= seq![crate::text::digit(n)]);
        assert(zero_padded(n, width) =~= fixed(n, width));
    } else {
        let w = (width - 1) as nat;
        assert(n / 10 < ten(w));
        lemma_fixed(n / 10, w);
        if n < 10 {
            assert(dec_text(n / 10) =~= seq![crate::text::digit(0)]);
            assert(t =~= seq![crate::text::digit(n)]);
            assert(zero_padded(n, width) =~= fixed(n, width));
        } else {
            assert(t =~= dec_text(n / 10).push(crate::text::digit(n % 10)));
            assert(zero_padded(n, width) =~= zero_padded(n / 10, w).push(
                crate::text::digit(n % 10),
            ));
        }
    }
}

/// The fixed digits of a smaller number come first.
proof fn lemma_fixed_lt(a: nat, b: nat, width: nat)
    requires
        a < b < ten(width),
    ensures
        text_lt(fixed(a, width), fixed(b, width)),
    decreases width,
{
    if width > 0 {
        let w = (width - 1) as nat;
        let x = fixed(a, width);
        let y = fixed(b, width);
        lemma_fixed_len(a / 10, w);
        lemma_fixed_len(b / 10, w);
        if a / 10 < b / 10 {
            lemma_fixed_lt(a / 10, b / 10, w);
            lemma_lt_concat(
                Seq::empty(),
                fixed(a / 10, w),
                fixed(b / 10, w),
                seq![crate::text::digit(a % 10)],
                seq![crate::text::digit(b % 10)],
            );
            assert(Seq::<char>::empty() + fixed(a / 10, w) + seq![crate::text::digit(a % 10)]
                =~= x);
            assert(Seq::<char>::empty() + fixed(b / 10, w) + seq![crate::text::digit(b % 10)]
                =~= y);
        } else {
            assert(x.take(w as int) =~= y.take(w as int));
            assert((x[w as int] as u32) < (y[w as int] as u32));
        }
    }
}

/// Fixed digits are as many as the width.
proof fn lemma_fixed_len(n: nat, width: nat)
    ensures
        fixed(n, width).len() == width,
    decreases width,
{
    if width > 0 {
        lemma_fixed_len(n / 10, (width - 1) as nat);
    }
}

/// What stands before and behind does not change which of two texts comes first.
proof fn lemma_lt_concat(
    p: Seq<char>,
    a: Seq<char>,
    b: Seq<char>,
    r: Seq<char>,
    s: Seq<char>,
)
    requires
        text_lt(a, b),
        r.len() == s.len(),
    ensures
        text_lt(p + a + r, p + b + s),
{
    let k = choose|k: int|
        0 <= k < a.len() && #[trigger] a.take(k) == b.take(k) && (a[k] as u32) < (b[k] as u32);
    let x = p + a + r;
    let y = p + b + s;
    let n = p.len() + k;
    assert(x[n] == a[k] && y[n] == b[k]);
    assert forall|i: int| 0 <= i < n implies x[i] == y[i] by {
        if i >= p.len() {
            assert(a.take(k)[i - p.len()] == b.take(k)[i - p.len()]);
        }
    }
    assert(x.take(n) =~= y.take(n));
}

/// A later date of the calendar has a larger day number.
proof fn lemma_dates_ascend(y1: int, m1: int, d1: int, y2: int, m2: int, d2: int)
    requires
        is_date(y1, m1, d1),
        is_date(y2, m2, d2),
        day_number(y1, m1, d1) < day_number(y2, m2, d2),
    ensures
        y1 < y2 || (y1 == y2 && (m1 < m2 || (m1 == m2 && d1 < d2))),
{
    lemma_within_year(y1, m1, d1);
    lemma_within_year(y2, m2, d2);
    if y2 < y1 {
        lemma_years_grow(y2 + 1, y1);
    } else if y1 == y2 && m2 < m1 {
        lemma_months_grow(y1, m2 + 1, m1);
    }
}

/// The parts of a stamp, each at its width.
spec fn stamp_parts(y: nat, m: nat, d: nat, of_day: nat) -> Seq<char> {
    fixed(y, 4) + fixed(m, 2) + fixed(d, 2) + "T"@ + fixed(of_day / 3_600_000, 2) + fixed(
        of_day / 60_000 % 60,
        2,
    ) + fixed(of_day / 1000 % 60, 2) + fixed(of_day % 1000, 3) + "Z"@
}

/// Up to the year 9999 every part of a stamp has its width.
proof fn lemma_stamp_parts(y: nat, m: nat, d: nat, of_day: nat)
    requires
        y <= 9999,
        m <= 12,
        d <= 31,
        of_day < 86_400_000,
    ensures
        stamp_text(y, m, d, of_day) == stamp_parts(y, m, d, of_day),
{
    lemma_tens();
    lemma_fixed(y, 4);
    lemma_fixed(m, 2);
    lemma_fixed(d, 2);
    lemma_fixed(of_day / 3_600_000, 2);
    lemma_fixed(of_day / 60_000 % 60, 2);
    lemma_fixed(of_day / 1000 % 60, 2);
    lemma_fixed(of_day % 1000, 3);
}

/// The powers of ten that stamps need.
pub proof fn lemma_tens()
    ensures
        ten(2) == 100,
        ten(3) == 1000,
        ten(4) == 10000,
{
    reveal_with_fuel(ten, 5);
}

/// Runs of characters can be grouped from either side.
proof fn lemma_regroup(
    date: Seq<char>,
    h: Seq<char>,
    n: Seq<char>,
    s: Seq<char>,
    k: Seq<char>,
    z: Seq<char>,
)
    ensures
        date + h + n + s + k + z == date + h + (n + s + k + z),
        date + h + n + s + k + z == date + h + n + (s + k + z),
        date + h + n + s + k + z == date + h + n + s + (k + z),
{
    lemma_assoc(date + h + n + s, k, z);
    lemma_assoc(date + h + n, s, k + z);
    lemma_assoc(s, k, z);
    lemma_assoc(date + h, n, s + k + z);
    lemma_assoc(n, s, k + z);
    lemma_assoc(n + s, k, z);
}

/// Runs of characters can be grouped from either side.
proof fn lemma_assoc(a: Seq<char>, b: Seq<char>, c: Seq<char>)
    ensures
        a + b + c == a + (b + c),
{
    assert(a + b + c =~= a + (b + c));
}

/// The stamp of an earlier time of the same day comes first.
proof fn lemma_time_lt(y: nat, m: nat, d: nat, a: nat, b: nat)
    requires
        a < b < 86_400_000,
    ensures
        text_lt(stamp_parts(y, m, d, a), stamp_parts(y, m, d, b)),
{
    lemma_tens();
    let date = fixed(y, 4) + fixed(m, 2) + fixed(d, 2) + "T"@;
    let (h1, n1, s1, k1) = (a / 3_600_000, a / 60_000 % 60, a / 1000 % 60, a % 1000);
    let (h2, n2, s2, k2) = (b / 3_600_000, b / 60_000 % 60, b / 1000 % 60, b % 1000);
    assert(a == 3_600_000 * h1 + 60_000 * n1 + 1000 * s1 + k1);
    assert(b == 3_600_000 * h2 + 60_000 * n2 + 1000 * s2 + k2);
    let (hour1, minute1, second1, milli1) = (fixed(h1, 2), fixed(n1, 2), fixed(s1, 2), fixed(k1, 3));
    let (hour2, minute2, second2, milli2) = (fixed(h2, 2), fixed(n2, 2), fixed(s2, 2), fixed(k2, 3));
    let z = "Z"@;
    lemma_fixed_len(h1, 2);
    lemma_fixed_len(h2, 2);
    lemma_fixed_len(n1, 2);
    lemma_fixed_len(n2, 2);
    lemma_fixed_len(s1, 2);
    lemma_fixed_len(s2, 2);
    lemma_fixed_len(k1, 3);
    lemma_fixed_len(k2, 3);
    lemma_regroup(date, hour1, minute1, second1, milli1, z);
    lemma_regroup(date, hour2, minute2, second2, milli2, z);
    if h1 < h2 {
        lemma_fixed_lt(h1, h2, 2);
        lemma_lt_concat(
            date,
            hour1,
            hour2,
            minute1 + second1 + milli1 + z,
            minute2 + second2 + milli2 + z,
        );
    } else if n1 < n2 {
        lemma_fixed_lt(n1, n2, 2);
        lemma_lt_concat(
            date + hour1,
            minute1,
            minute2,
            second1 + milli1 + z,
            second2 + milli2 + z,
        );
    } else if s1 < s2 {
        lemma_fixed_lt(s1, s2, 2);
        lemma_lt_concat(date + hour1 + minute1, second1, second2, milli1 + z, milli2 + z);
    } else {
        lemma_fixed_lt(k1, k2, 3);
        lemma_lt_concat(date + hour1 + minute1 + second1, milli1, milli2, z, z);
    }
}

/// A stamp, grouped by the parts of its date.
proof fn lemma_date_first(y: nat, m: nat, d: nat, of_day: nat)
    ensures
        stamp_parts(y, m, d, of_day) == fixed(y, 4) + (fixed(m, 2) + (fixed(d, 2) + ("T"@ + (fixed(
            of_day / 3_600_000,
            2,
        ) + fixed(of_day / 60_000 % 60, 2) + fixed(of_day / 1000 % 60, 2) + fixed(of_day % 1000, 3)
            + "Z"@)))),
{
    let (year, month, day, t, z) = (fixed(y, 4), fixed(m, 2), fixed(d, 2), "T"@, "Z"@);
    let date = year + month + day + t;
    let h = fixed(of_day / 3_600_000, 2);
    let n = fixed(of_day / 60_000 % 60, 2);
    let s = fixed(of_day / 1000 % 60, 2);
    let k = fixed(of_day % 1000, 3);
    lemma_regroup(date, h, n, s, k, z);
    let tail = n + s + k + z;
    lemma_assoc(date, h, tail);
    lemma_assoc(h, n + s + k, z);
    lemma_assoc(h, n + s, k);
    lemma_assoc(h, n, s);
    let time = h + n + s + k + z;
    assert(date + h + tail == date + time);
    lemma_assoc(year + month + day, t, time);
    lemma_assoc(year + month, day, t + time);
    lemma_assoc(year, month, day + (t + time));
}

/// The stamp of an earlier date comes first.
proof fn lemma_date_lt(
    y1: nat,
    m1: nat,
    d1: nat,
    y2: nat,
    m2: nat,
    d2: nat,
    a: nat,
    b: nat,
)
    requires
        y1 < y2 || (y1 == y2 && (m1 < m2 || (m1 == m2 && d1 < d2))),
        y2 <= 9999,
        m1 <= 12,
        m2 <= 12,
        d2 <= 31,
    ensures
        text_lt(stamp_parts(y1, m1, d1, a), stamp_parts(y2, m2, d2, b)),
{
    lemma_tens();
    let t1 = "T"@ + (fixed(a / 3_600_000, 2) + fixed(a / 60_000 % 60, 2) + fixed(a / 1000 % 60, 2)
        + fixed(a % 1000, 3) + "Z"@);
    let t2 = "T"@ + (fixed(b / 3_600_000, 2) + fixed(b / 60_000 % 60, 2) + fixed(b / 1000 % 60, 2)
        + fixed(b % 1000, 3) + "Z"@);
    lemma_fixed_len(a / 3_600_000, 2);
    lemma_fixed_len(b / 3_600_000, 2);
    lemma_fixed_len(a / 60_000 % 60, 2);
    lemma_fixed_len(b / 60_000 % 60, 2);
    lemma_fixed_len(a / 1000 % 60, 2);
    lemma_fixed_len(b / 1000 % 60, 2);
    lemma_fixed_len(a % 1000, 3);
    lemma_fixed_len(b % 1000, 3);
    lemma_fixed_len(m1, 2);
    lemma_fixed_len(m2, 2);
    lemma_fixed_len(d1, 2);
    lemma_fixed_len(d2, 2);
    let x = stamp_parts(y1, m1, d1, a);
    let y = stamp_parts(y2, m2, d2, b);
    lemma_date_first(y1, m1, d1, a);
    lemma_date_first(y2, m2, d2, b);
    if y1 < y2 {
        let r1 = fixed(m1, 2) + (fixed(d1, 2) + t1);
        let r2 = fixed(m2, 2) + (fixed(d2, 2) + t2);
        lemma_fixed_lt(y1, y2, 4);
        lemma_lt_concat(Seq::empty(), fixed(y1, 4), fixed(y2, 4), r1, r2);
        assert(Seq::<char>::empty() + fixed(y1, 4) + r1 =~= x);
        assert(Seq::<char>::empty() + fixed(y2, 4) + r2 =~= y);
    } else if m1 < m2 {
        let r1 = fixed(d1, 2) + t1;
        let r2 = fixed(d2, 2) + t2;
        lemma_fixed_lt(m1, m2, 2);
        lemma_lt_concat(fixed(y1, 4), fixed(m1, 2), fixed(m2, 2), r1, r2);
        assert(fixed(y1, 4) + fixed(m1, 2) + r1 =~= x);
        assert(fixed(y1, 4) + fixed(m2, 2) + r2 =~= y);
    } else {
        let p = fixed(y1, 4) + fixed(m1, 2);
        lemma_fixed_lt(d1, d2, 2);
        lemma_lt_concat(p, fixed(d1, 2), fixed(d2, 2), t1, t2);
        assert(p + fixed(d1, 2) + t1 =~= x);
        assert(p + fixed(d2, 2) + t2 =~= y);
    }
}

/// Stamps sort chronologically: of two times up to the year 9999, the earlier one has the stamp that
/// comes first.
pub proof fn law_stamps_sort(a: u64, b: u64, stamp_a: Seq<char>, stamp_b: Seq<char>)
    requires
        a < b,
        b < 253_402_300_800_000,
        is_stamp(stamp_a, a),
        is_stamp(stamp_b, b),
    ensures
        text_lt(stamp_a, stamp_b),
{
    let (y1, m1, d1) = choose|y: nat, m: nat, d: nat|
        is_date(y as int, m as int, d as int) && day_number(y as int, m as int, d as int) == a as int
            / 86_400_000 && stamp_a == #[trigger] stamp_text(y, m, d, (a % 86_400_000) as nat);
    let (y2, m2, d2) = choose|y: nat, m: nat, d: nat|
        is_date(y as int, m as int, d as int) && day_number(y as int, m as int, d as int) == b as int
            / 86_400_000 && stamp_b == #[trigger] stamp_text(y, m, d, (b % 86_400_000) as nat);
    lemma_up_to_9999(y1 as int, m1 as int, d1 as int);
    lemma_up_to_9999(y2 as int, m2 as int, d2 as int);
    lemma_stamp_parts(y1, m1, d1, (a % 86_400_000) as nat);
    lemma_stamp_parts(y2, m2, d2, (b % 86_400_000) as nat);
    if a / 86_400_000 < b / 86_400_000 {
        lemma_dates_ascend(
            y1 as int,
            m1 as int,
            d1 as int,
            y2 as int,
            m2 as int,
            d2 as int,
        );
        lemma_date_lt(
            y1,
            m1,
            d1,
            y2,
            m2,
            d2,
            (a % 86_400_000) as nat,
            (b % 86_400_000) as nat,
        );
    } else {
        law_one_date_per_day(
            y1 as int,
            m1 as int,
            d1 as int,
            y2 as int,
            m2 as int,
            d2 as int,
        );
        lemma_time_lt(y1, m1, d1, (a % 86_400_000) as nat, (b % 86_400_000) as nat);
    }
}

/// Days before 10000-01-01 lie in a year with four digits.
proof fn lemma_up_to_9999(y: int, m: int, d: int)
    requires
        is_date(y, m, d),
        day_number(y, m, d) < 2_932_897,
    ensures
        y <= 9999,
{
    if y >= 10000 {
        lemma_days_to_year(10000);
        lemma_years_grow(10000, y);
    }
}

// ---------------------------------------------------------------------------
// Distinct stamps.
// ---------------------------------------------------------------------------

/// The place of the last `-`, or -1 where there is none.
pub open spec fn last_dash(s: Seq<char>) -> int
    decreases s.len(),
{
    if s.len() == 0 {
        -1
    } else if s.last() == '-' {
        s.len() - 1
    } else {
        last_dash(s.drop_last())
    }
}

/// The text begins with `base` and a `-`.
pub open spec fn extends(s: Seq<char>, base: Seq<char>) -> bool {
    s.len() > base.len() && s.take(base.len() as int) == base && s[base.len() as int] == '-'
}

/// The number behind the last `-` of a stamp that is `base` up to there; 0 where there is none.
pub open spec fn suffix_of(prev: Seq<char>, base: Seq<char>) -> nat {
    let k = last_dash(prev);
    if k >= 0 && prev.take(k) == base {
        match number_up_to(prev.skip(k + 1), u64::MAX as nat) {
            Some(n) => n,
            None => 0,
        }
    } else {
        0
    }
}

/// A stamp that differs from the previous one: the bare stamp, or the bare stamp with the next
/// number behind a `-` where the previous one has the same bare stamp.
pub open spec fn next_stamp(base: Seq<char>, prev: Seq<char>) -> Seq<char> {
    if base != prev && !extends(prev, base) {
        base
    } else {
        base + "-"@ + dec_text(suffix_of(prev, base) + 1)
    }
}

/// The text is the stamp that follows the given one at a time.
pub open spec fn is_next_stamp(text: Seq<char>, unix_millis: u64, prev: Seq<char>) -> bool {
    exists|base: Seq<char>| #[trigger]
        is_stamp(base, unix_millis) && text == next_stamp(base, prev)
}

/// The last `-` of a text with digits behind a `-`.
pub proof fn lemma_last_dash(base: Seq<char>, t: Seq<char>)
    requires
        all_digits(t),
    ensures
        last_dash(base + "-"@ + t) == base.len(),
    decreases t.len(),
{
    reveal_strlit("-");
    let s = base + "-"@ + t;
    if t.len() == 0 {
        assert(s.last() == '-');
    } else {
        let init = t.drop_last();
        assert forall|i: int| 0 <= i < init.len() implies is_digit(#[trigger] init[i]) by {
            assert(init[i] == t[i]);
        }
        lemma_last_dash(base, init);
        assert(s.drop_last() =~= base + "-"@ + init);
        assert(is_digit(t[t.len() - 1]));
        assert(s.last() == t.last());
    }
}

/// The next stamp is never the previous one.
pub proof fn law_stamps_differ(base: Seq<char>, prev: Seq<char>)
    requires
        suffix_of(prev, base) < u64::MAX,
    ensures
        next_stamp(base, prev) != prev,
{
    let n = suffix_of(prev, base) + 1;
    let t = dec_text(n);
    let r = base + "-"@ + t;
    if r == prev {
        reveal_strlit("-");
        law_number_round_trip(n);
        lemma_last_dash(base, t);
        assert(prev.take(base.len() as int) =~= base);
        assert(prev.skip(base.len() as int + 1) =~= t);
    }
}

/// The place of the last `-` of a run of characters.
fn find_last_dash(v: &Vec<char>) -> (r: Option<usize>)
    ensures
        match r {
            Some(k) => k < v@.len() && last_dash(v@) == k,
            None => last_dash(v@) == -1,
        },
{
    let mut i: usize = v.len();
    assert(v@.take(i as int) =~= v@);
    while i > 0
        invariant
            i <= v@.len(),
            last_dash(v@) == last_dash(v@.take(i as int)),
        decreases i,
    {
        let ghost t = v@.take(i as int);
        assert(t.last() == v@[i - 1]);
        assert(t.drop_last() =~= v@.take(i - 1));
        if v[i - 1] == '-' {
            return Some(i - 1);
        }
        i = i - 1;
    }
    None
}

/// Whether the first `n` characters are those of a text.
fn begins_with(v: &Vec<char>, n: usize, base: &Vec<char>) -> (r: bool)
    requires
        n <= v@.len(),
    ensures
        r == (v@.take(n as int) == base@),
{
    if n != base.len() {
        assert(v@.take(n as int).len() == n);
        return false;
    }
    let mut i: usize = 0;
    while i < n
        invariant
            i <= n == base@.len(),
            n <= v@.len(),
            forall|k: int| 0 <= k < i ==> v@[k] == base@[k],
        decreases n - i,
    {
        if v[i] != base[i] {
            assert(v@.take(n as int)[i as int] != base@[i as int]);
            return false;
        }
        i = i + 1;
    }
    assert(v@.take(n as int) =~= base@);
    true
}

/// The number behind the last `-` of a stamp that is `base` up to there; 0 where there is none.
fn read_suffix(prev: &Vec<char>, base: &Vec<char>) -> (n: u64)
    ensures
        n == suffix_of(prev@, base@),
{
    match find_last_dash(prev) {
        Some(k) => {
            if !begins_with(prev, k, base) {
                return 0;
            }
            let mut tail = String::new();
            assert(k < prev.len());
            let mut i: usize = k + 1;
            assert(tail@ =~= prev@.subrange(k + 1, i as int));
            while i < prev.len()
                invariant
                    k + 1 <= i <= prev@.len(),
                    tail@ == prev@.subrange(k + 1, i as int),
                decreases prev@.len() - i,
            {
                tail.push(prev[i]);
                assert(tail@ =~= prev@.subrange(k + 1, i + 1));
                i = i + 1;
            }
            assert(tail@ =~= prev@.skip(k + 1));
            match parse_number(tail.as_str(), u64::MAX) {
                Some(n) => n,
                None => 0,
            }
        },
        None => 0,
    }
}

/// Formats a time as a stamp, guaranteeing that it differs from `prev`: if two dumps land in the
/// same millisecond, a `-N` suffix is appended. The suffix must be countable.
pub fn unique_stamp(unix_millis: u64, prev: &str) -> (stamp: String)
    requires
        forall|base: Seq<char>| #[trigger]
            is_stamp(base, unix_millis) ==> suffix_of(prev@, base) < u64::MAX,
    ensures
        is_next_stamp(stamp@, unix_millis, prev@),
        stamp@ != prev@,
{
    let base = format_utc_millis(unix_millis);
    proof {
        law_stamps_differ(base@, prev@);
        assert(is_stamp(base@, unix_millis));
    }
    let pv = chars_of(prev);
    let bv = chars_of(base.as_str());
    let n: usize = bv.len();
    let same = pv.len() == n && begins_with(&pv, n, &bv);
    let extended = pv.len() > n && begins_with(&pv, n, &bv) && pv[n] == '-';
    proof {
        if pv@.len() == n {
            assert(pv@.take(n as int) =~= pv@);
        }
    }
    if !same && !extended {
        return base;
    }
    let next: u64 = read_suffix(&pv, &bv) + 1;
    let mut stamp = base;
    stamp.append("-");
    push_dec(&mut stamp, next);
    stamp
}

} // verus!
