//! Calendar dates of the days since the UNIX epoch.

use vstd::prelude::*;
use crate::text::{append_zero_padded, decimal, digit_char, push_char, zero_padded};

verus! {

// ----- The proleptic Gregorian calendar, counted from 1970-01-01 -----

/// A year is a leap year when it is divisible by 4, except centuries not divisible by 400.
pub open spec fn is_leap_year(y: int) -> bool {
    y % 4 == 0 && (y % 100 != 0 || y % 400 == 0)
}

/// Number of days of year `y`.
pub open spec fn days_in_year(y: int) -> int {
    if is_leap_year(y) { 366 } else { 365 }
}

/// Length of month `m` (1 = January, ..., 12 = December) of year `y`.
pub open spec fn days_in_month(y: int, m: int) -> int {
    if m == 2 {
        if is_leap_year(y) { 29 } else { 28 }
    } else if m == 4 || m == 6 || m == 9 || m == 11 {
        30
    } else {
        31
    }
}

/// Number of days from 1970-01-01 to the first of January of year `y` (for `y >= 1970`).
pub open spec fn days_before_year(y: int) -> int
    decreases y - 1970,
{
    if y <= 1970 { 0 } else { days_before_year(y - 1) + days_in_year(y - 1) }
}

/// Number of days of year `y` that come before the first of month `m`.
pub open spec fn days_before_month(y: int, m: int) -> int
    decreases m,
{
    if m <= 1 { 0 } else { days_before_month(y, m - 1) + days_in_month(y, m - 1) }
}

/// A calendar date on or after 1970-01-01.
pub open spec fn is_valid_date(y: int, m: int, d: int) -> bool {
    &&& y >= 1970
    &&& 1 <= m <= 12
    &&& 1 <= d <= days_in_month(y, m)
}

/// Number of whole days from 1970-01-01 to the date `y-m-d`.
pub open spec fn day_number(y: int, m: int, d: int) -> int {
    days_before_year(y) + days_before_month(y, m) + d - 1
}

// ----- Arithmetic facts behind the conversion -----
//
// The conversion counts days from 0000-03-01 and splits them into eras of 400 years
// (146097 days each). Inside an era, years start on the first of March, so that the leap
// day is the last day of a year and the months before it have fixed lengths.

/// Number of leap years among the years 1 to `n`.
spec fn leap_days(n: int) -> int {
    n / 4 - n / 100 + n / 400
}

/// Year `y` adds one leap day exactly when it is a leap year.
proof fn lemma_leap_step(y: int)
    requires
        y >= 1,
    ensures
        leap_days(y) - leap_days(y - 1) == if is_leap_year(y) { 1int } else { 0int },
{
}

/// Closed form of `days_before_year` (477 leap years lie among the years 1 to 1969).
proof fn lemma_days_before_year(y: int)
    requires
        y >= 1970,
    ensures
        days_before_year(y) == 365 * (y - 1970) + leap_days(y - 1) - 477,
    decreases y - 1970,
{
    if y > 1970 {
        lemma_days_before_year(y - 1);
        lemma_leap_step(y - 1);
    }
}

/// Closed form of `days_before_month`.
proof fn lemma_days_before_month(y: int, m: int)
    requires
        1 <= m <= 12,
    ensures
        days_before_month(y, m) == if m >= 3 {
            59 + (if is_leap_year(y) { 1int } else { 0int }) + (153 * (m - 3) + 2) / 5
        } else if m == 2 {
            31int
        } else {
            0int
        },
{
    reveal_with_fuel(days_before_month, 13);
}

/// The year of the era in which day `doe` of the era falls.
spec fn yoe_of(doe: u64) -> u64 {
    ((doe - doe / 1460 + doe / 36524 - doe / 146096) / 365) as u64
}

/// Days of the era before the year `yoe` of the era starts (for `yoe < 400`).
spec fn days_before_year_of_era(yoe: u64) -> u64 {
    (365 * yoe + yoe / 4 - yoe / 100) as u64
}

/// `yoe_of` finds the year of the era that holds day `doe`; checked over all days of an era.
proof fn lemma_year_of_era(doe: u64)
    by (bit_vector)
    requires
        doe < 146097,
    ensures
        yoe_of(doe) < 400,
        days_before_year_of_era(yoe_of(doe)) <= doe,
        doe - days_before_year_of_era(yoe_of(doe)) < 365 + (if (yoe_of(doe) + 1) % 4 == 0 && ((yoe_of(doe) + 1) % 100 != 0 || (yoe_of(doe) + 1) % 400 == 0) { 1u64 } else { 0u64 }),
        doe >= 135080 ==> yoe_of(doe) >= 369,
        doe >= 135080 && yoe_of(doe) == 369 ==> doe - days_before_year_of_era(yoe_of(doe)) >= 306,
{
}

/// The month (0 = March, ..., 11 = February) in which day `doy` of a March-based year falls.
spec fn month_of_year(doy: u64) -> u64 {
    ((5 * doy + 2) / 153) as u64
}

/// Days of a March-based year before its month `mp` starts.
spec fn march_month_start(mp: u64) -> u64 {
    ((153 * mp + 2) / 5) as u64
}

/// `month_of_year` finds the month that holds day `doy`; checked over all days of a year.
proof fn lemma_month_of_year(doy: u64)
    by (bit_vector)
    requires
        doy < 366,
    ensures
        month_of_year(doy) < 12,
        march_month_start(month_of_year(doy)) <= doy,
        month_of_year(doy) < 11 ==> doy < march_month_start((month_of_year(doy) + 1) as u64),
{
}

/// Days before a year, counted in whole eras plus the days before the year inside its era.
proof fn lemma_era_shift(era: int, yoe: int)
    requires
        era >= 0,
        0 <= yoe < 400,
    ensures
        365 * (400 * era + yoe) + leap_days(400 * era + yoe)
            == 146097 * era + 365 * yoe + yoe / 4 - yoe / 100,
        is_leap_year(400 * era + yoe + 1) == ((yoe + 1) % 4 == 0 && ((yoe + 1) % 100 != 0 || (yoe + 1) % 400 == 0)),
{
    assert((400 * era + yoe) / 4 == 100 * era + yoe / 4);
    assert((400 * era + yoe) / 100 == 4 * era + yoe / 100);
    assert((400 * era + yoe) / 400 == era);
}

/// The year, month and day that the era-based computation gives name day `days` after 1970-01-01.
proof fn lemma_civil_date(days: int, era: int, doe: int, yoe: int, doy: int, mp: int)
    requires
        days >= 0,
        era >= 0,
        days + 719468 == 146097 * era + doe,
        0 <= doe < 146097,
        0 <= yoe < 400,
        doe == 365 * yoe + yoe / 4 - yoe / 100 + doy,
        0 <= doy < 365 + (if (yoe + 1) % 4 == 0 && ((yoe + 1) % 100 != 0 || (yoe + 1) % 400 == 0) { 1int } else { 0int }),
        doe >= 135080 ==> yoe >= 369,
        doe >= 135080 && yoe == 369 ==> doy >= 306,
        0 <= mp < 12,
        (153 * mp + 2) / 5 <= doy,
        mp < 11 ==> doy < (153 * (mp + 1) + 2) / 5,
    ensures
        ({
            let d = doy - (153 * mp + 2) / 5 + 1;
            let m = if mp < 10 { mp + 3 } else { mp - 9 };
            let y = if m <= 2 { 400 * era + yoe + 1 } else { 400 * era + yoe };
            is_valid_date(y, m, d) && day_number(y, m, d) == days
        }),
{
    let d = doy - (153 * mp + 2) / 5 + 1;
    let m = if mp < 10 { mp + 3 } else { mp - 9 };
    let big_y = 400 * era + yoe;
    let y = if m <= 2 { big_y + 1 } else { big_y };
    lemma_era_shift(era, yoe);
    assert(era >= 4);
    assert(big_y >= 1969);
    assert(big_y == 1969 ==> mp >= 10);
    assert(y >= 1970);
    lemma_days_before_year(y);
    lemma_days_before_month(y, m);
    if mp < 10 {
        lemma_leap_step(y);
    }
}

/// The calendar date of the day that comes `n` days after 1970-01-01.
pub open spec fn date_of_day(n: int) -> (int, int, int) {
    choose|y: int, m: int, d: int| is_valid_date(y, m, d) && day_number(y, m, d) == n
}

/// The date `y-m-d` written as `YYYY-MM-DD` (the year has at least four digits).
pub open spec fn date_text(y: int, m: int, d: int) -> Seq<char> {
    zero_padded(decimal(y as nat), 4) + seq!['-'] + zero_padded(decimal(m as nat), 2) + seq!['-']
        + zero_padded(decimal(d as nat), 2)
}

/// The `YYYY-MM-DD` text of the day that comes `n` days after 1970-01-01.
pub open spec fn date_text_of_day(n: int) -> Seq<char> {
    date_text(date_of_day(n).0, date_of_day(n).1, date_of_day(n).2)
}

proof fn lemma_days_before_year_grows(y1: int, y2: int)
    requires
        1970 <= y1 < y2,
    ensures
        days_before_year(y2) >= days_before_year(y1) + days_in_year(y1),
    decreases y2 - y1,
{
    if y2 - 1 > y1 {
        lemma_days_before_year_grows(y1, y2 - 1);
    }
}

proof fn lemma_days_before_month_grows(y: int, m1: int, m2: int)
    requires
        1 <= m1 < m2,
    ensures
        days_before_month(y, m2) >= days_before_month(y, m1) + days_in_month(y, m1),
    decreases m2 - m1,
{
    if m2 - 1 > m1 {
        lemma_days_before_month_grows(y, m1, m2 - 1);
    }
}

proof fn lemma_day_of_year_bound(y: int, m: int, d: int)
    requires
        is_valid_date(y, m, d),
    ensures
        0 <= days_before_month(y, m) + d - 1 < days_in_year(y),
{
    lemma_days_before_month(y, m);
}

/// Two dates that fall on the same day are the same date.
pub proof fn lemma_day_number_injective(y1: int, m1: int, d1: int, y2: int, m2: int, d2: int)
    requires
        is_valid_date(y1, m1, d1),
        is_valid_date(y2, m2, d2),
        day_number(y1, m1, d1) == day_number(y2, m2, d2),
    ensures
        y1 == y2 && m1 == m2 && d1 == d2,
{
    lemma_day_of_year_bound(y1, m1, d1);
    lemma_day_of_year_bound(y2, m2, d2);
    if y1 < y2 {
        lemma_days_before_year_grows(y1, y2);
    } else if y2 < y1 {
        lemma_days_before_year_grows(y2, y1);
    } else if m1 < m2 {
        lemma_days_before_month_grows(y1, m1, m2);
    } else if m2 < m1 {
        lemma_days_before_month_grows(y1, m2, m1);
    }
}

/// Every day on or after 1970-01-01 has a calendar date, and `date_of_day` names it.
pub proof fn lemma_date_of_day(n: int)
    requires
        n >= 0,
    ensures
        is_valid_date(date_of_day(n).0, date_of_day(n).1, date_of_day(n).2),
        day_number(date_of_day(n).0, date_of_day(n).1, date_of_day(n).2) == n,
{
    let z = n + 719468;
    let era = z / 146097;
    let doe = z % 146097;
    lemma_year_of_era(doe as u64);
    let yoe = yoe_of(doe as u64) as int;
    let doy = doe - (365 * yoe + yoe / 4 - yoe / 100);
    lemma_month_of_year(doy as u64);
    let mp = month_of_year(doy as u64) as int;
    lemma_civil_date(n, era, doe, yoe, doy, mp);
    let d = doy - (153 * mp + 2) / 5 + 1;
    let m = if mp < 10 { mp + 3 } else { mp - 9 };
    let y = if m <= 2 { 400 * era + yoe + 1 } else { 400 * era + yoe };
    assert(is_valid_date(y, m, d) && day_number(y, m, d) == n);
}

/// Dates in calendar order fall on days in the same order.
proof fn lemma_day_number_order(y1: int, m1: int, d1: int, y2: int, m2: int, d2: int)
    requires
        is_valid_date(y1, m1, d1),
        is_valid_date(y2, m2, d2),
        y1 < y2 || (y1 == y2 && m1 < m2) || (y1 == y2 && m1 == m2 && d1 < d2),
    ensures
        day_number(y1, m1, d1) < day_number(y2, m2, d2),
{
    lemma_day_of_year_bound(y1, m1, d1);
    lemma_day_of_year_bound(y2, m2, d2);
    if y1 < y2 {
        lemma_days_before_year_grows(y1, y2);
    } else if m1 < m2 {
        lemma_days_before_month_grows(y1, m1, m2);
    }
}

/// `a` comes no later than `b` in lexicographic order of their characters.
pub open spec fn text_le(a: Seq<char>, b: Seq<char>) -> bool
    decreases a.len(),
{
    if a.len() == 0 {
        true
    } else if b.len() == 0 {
        false
    } else if a[0] != b[0] {
        (a[0] as int) < (b[0] as int)
    } else {
        text_le(a.drop_first(), b.drop_first())
    }
}

proof fn lemma_text_le_refl(a: Seq<char>)
    ensures
        text_le(a, a),
    decreases a.len(),
{
    if a.len() > 0 {
        lemma_text_le_refl(a.drop_first());
    }
}

proof fn lemma_text_le_first_difference(a: Seq<char>, b: Seq<char>, k: int)
    requires
        0 <= k < a.len(),
        k < b.len(),
        a.subrange(0, k) == b.subrange(0, k),
        (a[k] as int) < (b[k] as int),
    ensures
        text_le(a, b),
    decreases k,
{
    if k > 0 {
        assert(a[0] == a.subrange(0, k)[0]);
        assert(b[0] == b.subrange(0, k)[0]);
        assert(a.drop_first().subrange(0, k - 1) =~= a.subrange(0, k).drop_first());
        assert(b.drop_first().subrange(0, k - 1) =~= b.subrange(0, k).drop_first());
        lemma_text_le_first_difference(a.drop_first(), b.drop_first(), k - 1);
    }
}

proof fn lemma_four_digit_order(a: u64, b: u64)
    by (bit_vector)
    requires
        a < b,
        b < 10000,
    ensures
        (a / 1000 < b / 1000)
        || (a / 1000 == b / 1000 && (a / 100) % 10 < (b / 100) % 10)
        || (a / 1000 == b / 1000 && (a / 100) % 10 == (b / 100) % 10 && (a / 10) % 10 < (b / 10) % 10)
        || (a / 1000 == b / 1000 && (a / 100) % 10 == (b / 100) % 10 && (a / 10) % 10 == (b / 10) % 10
            && a % 10 < b % 10),
{
}

proof fn lemma_two_digit_order(a: u64, b: u64)
    by (bit_vector)
    requires
        a < b,
        b < 100,
    ensures
        (a / 10 < b / 10) || (a / 10 == b / 10 && a % 10 < b % 10),
{
}

/// The ten characters of `YYYY-MM-DD` for a date with a four-digit year.
spec fn date_chars(y: int, m: int, d: int) -> Seq<char> {
    seq![
        digit_char((y / 1000) as nat), digit_char(((y / 100) % 10) as nat),
        digit_char(((y / 10) % 10) as nat), digit_char((y % 10) as nat), '-',
        digit_char((m / 10) as nat), digit_char((m % 10) as nat), '-',
        digit_char((d / 10) as nat), digit_char((d % 10) as nat),
    ]
}

proof fn lemma_two_digits(n: int)
    requires
        1 <= n < 100,
    ensures
        zero_padded(decimal(n as nat), 2) == seq![digit_char((n / 10) as nat), digit_char((n % 10) as nat)],
{
    reveal_with_fuel(decimal, 3);
    if n < 10 {
        assert(zero_padded(decimal(n as nat), 2) =~= seq!['0', digit_char(n as nat)]);
    } else {
        assert(decimal((n / 10) as nat) == seq![digit_char((n / 10) as nat)]);
        assert(zero_padded(decimal(n as nat), 2) =~= seq![digit_char((n / 10) as nat), digit_char((n % 10) as nat)]);
    }
}

proof fn lemma_four_digits(n: int)
    requires
        1000 <= n < 10000,
    ensures
        zero_padded(decimal(n as nat), 4) == seq![
            digit_char((n / 1000) as nat), digit_char(((n / 100) % 10) as nat),
            digit_char(((n / 10) % 10) as nat), digit_char((n % 10) as nat),
        ],
{
    reveal_with_fuel(decimal, 5);
    assert(decimal((n / 1000) as nat) == seq![digit_char((n / 1000) as nat)]);
    assert((n / 10) / 10 == n / 100 && (n / 100) / 10 == n / 1000);
    assert(decimal((n / 100) as nat) =~= seq![digit_char((n / 1000) as nat), digit_char(((n / 100) % 10) as nat)]);
    assert(decimal((n / 10) as nat) =~= seq![digit_char((n / 1000) as nat), digit_char(((n / 100) % 10) as nat),
        digit_char(((n / 10) % 10) as nat)]);
    assert(zero_padded(decimal(n as nat), 4) =~= seq![
        digit_char((n / 1000) as nat), digit_char(((n / 100) % 10) as nat),
        digit_char(((n / 10) % 10) as nat), digit_char((n % 10) as nat),
    ]);
}

proof fn lemma_date_chars(y: int, m: int, d: int)
    requires
        is_valid_date(y, m, d),
        y < 10000,
    ensures
        date_text(y, m, d) == date_chars(y, m, d),
{
    lemma_four_digits(y);
    lemma_two_digits(m);
    lemma_two_digits(d);
    assert(date_text(y, m, d) =~= date_chars(y, m, d));
}

proof fn lemma_digit_char_value(a: nat)
    requires
        a < 10,
    ensures
        digit_char(a) as int == a + 48,
{
}

/// Smaller digits give earlier characters, and equal digits the same one.
proof fn lemma_digit_chars_order(a: int, b: int)
    requires
        0 <= a < 10,
        0 <= b < 10,
    ensures
        a < b ==> (digit_char(a as nat) as int) < (digit_char(b as nat) as int),
        a == b ==> digit_char(a as nat) == digit_char(b as nat),
{
    lemma_digit_char_value(a as nat);
    lemma_digit_char_value(b as nat);
}

/// The year of a day before 10000-01-01 has at most four digits.
proof fn lemma_year_below_10000(n: int)
    requires
        0 <= n < day_number(10000, 1, 1),
    ensures
        date_of_day(n).0 < 10000,
{
    lemma_date_of_day(n);
    let (y, m, d) = date_of_day(n);
    if y >= 10000 {
        lemma_days_before_month(y, m);
        if y > 10000 {
            lemma_days_before_year_grows(10000, y);
        }
    }
}

/// `t1` and `t2` agree before position `k`, where `t1` has the smaller character.
proof fn lemma_chars_first_difference(t1: Seq<char>, t2: Seq<char>, k: int)
    requires
        t1.len() == 10,
        t2.len() == 10,
        0 <= k < 10,
        forall|i: int| 0 <= i < k ==> t1[i] == t2[i],
        (t1[k] as int) < (t2[k] as int),
    ensures
        text_le(t1, t2),
{
    assert(t1.subrange(0, k) =~= t2.subrange(0, k));
    lemma_text_le_first_difference(t1, t2, k);
}

/// Four-digit years and two-digit months and days, compared as texts, keep their order.
proof fn lemma_date_chars_order(y1: int, m1: int, d1: int, y2: int, m2: int, d2: int)
    requires
        1000 <= y1 < 10000,
        1000 <= y2 < 10000,
        1 <= m1 < 100,
        1 <= m2 < 100,
        1 <= d1 < 100,
        1 <= d2 < 100,
        y1 < y2 || (y1 == y2 && m1 < m2) || (y1 == y2 && m1 == m2 && d1 < d2),
    ensures
        text_le(date_chars(y1, m1, d1), date_chars(y2, m2, d2)),
{
    let t1 = date_chars(y1, m1, d1);
    let t2 = date_chars(y2, m2, d2);
    lemma_digit_chars_order(y1 / 1000, y2 / 1000);
    lemma_digit_chars_order((y1 / 100) % 10, (y2 / 100) % 10);
    lemma_digit_chars_order((y1 / 10) % 10, (y2 / 10) % 10);
    lemma_digit_chars_order(y1 % 10, y2 % 10);
    lemma_digit_chars_order(m1 / 10, m2 / 10);
    lemma_digit_chars_order(m1 % 10, m2 % 10);
    lemma_digit_chars_order(d1 / 10, d2 / 10);
    lemma_digit_chars_order(d1 % 10, d2 % 10);
    if y1 < y2 {
        lemma_four_digit_order(y1 as u64, y2 as u64);
        if y1 / 1000 < y2 / 1000 {
            lemma_chars_first_difference(t1, t2, 0);
        } else if (y1 / 100) % 10 < (y2 / 100) % 10 {
            lemma_chars_first_difference(t1, t2, 1);
        } else if (y1 / 10) % 10 < (y2 / 10) % 10 {
            lemma_chars_first_difference(t1, t2, 2);
        } else {
            lemma_chars_first_difference(t1, t2, 3);
        }
    } else if m1 < m2 {
        lemma_two_digit_order(m1 as u64, m2 as u64);
        if m1 / 10 < m2 / 10 {
            lemma_chars_first_difference(t1, t2, 5);
        } else {
            lemma_chars_first_difference(t1, t2, 6);
        }
    } else {
        lemma_two_digit_order(d1 as u64, d2 as u64);
        if d1 / 10 < d2 / 10 {
            lemma_chars_first_difference(t1, t2, 8);
        } else {
            lemma_chars_first_difference(t1, t2, 9);
        }
    }
}

/// Up to 9999-12-31, the `YYYY-MM-DD` texts of the days sort like the days themselves.
pub proof fn lemma_date_texts_sort_like_days(n1: int, n2: int)
    requires
        0 <= n1 <= n2 < day_number(10000, 1, 1),
    ensures
        text_le(date_text_of_day(n1), date_text_of_day(n2)),
{
    lemma_date_of_day(n1);
    lemma_date_of_day(n2);
    lemma_year_below_10000(n1);
    lemma_year_below_10000(n2);
    let (y1, m1, d1) = date_of_day(n1);
    let (y2, m2, d2) = date_of_day(n2);
    lemma_date_chars(y1, m1, d1);
    lemma_date_chars(y2, m2, d2);
    if n1 == n2 {
        lemma_text_le_refl(date_chars(y1, m1, d1));
    } else {
        if y2 < y1 || (y1 == y2 && m2 < m1) || (y1 == y2 && m1 == m2 && d2 < d1) {
            lemma_day_number_order(y2, m2, d2, y1, m1, d1);
        }
        lemma_date_chars_order(y1, m1, d1, y2, m2, d2);
    }
}

/// Up to 9999-12-31, later epoch seconds never give an earlier `YYYY-MM-DD` text
/// (253402300800 is 10000-01-01T00:00:00Z).
pub proof fn lemma_epoch_dates_sort_like_seconds(s1: u64, s2: u64)
    requires
        s1 <= s2 < 253402300800,
    ensures
        text_le(date_text_of_day(s1 as int / 86400), date_text_of_day(s2 as int / 86400)),
{
    lemma_days_before_year(10000);
    lemma_days_before_month(10000, 1);
    assert(day_number(10000, 1, 1) == 2932897);
    lemma_date_texts_sort_like_days(s1 as int / 86400, s2 as int / 86400);
}

/// Converts a count of days since 1970-01-01 into the calendar date it names.
fn civil_from_days(days: u64) -> (r: (u64, u64, u64))
    requires
        days <= u64::MAX / 86400,
    ensures
        (r.0 as int, r.1 as int, r.2 as int) == date_of_day(days as int),
{
    let z = days + 719468;
    let era = z / 146097;
    proof {
        vstd::arithmetic::div_mod::lemma_fundamental_div_mod(z as int, 146097);
    }
    assert(era * 146097 <= z && z - era * 146097 < 146097);
    let doe = z - era * 146097;
    proof {
        lemma_year_of_era(doe);
    }
    let yoe = (doe - doe / 1460 + doe / 36524 - doe / 146096) / 365;
    assert(yoe == yoe_of(doe));
    let y = yoe + era * 400;
    let doy = doe - (365 * yoe + yoe / 4 - yoe / 100);
    proof {
        lemma_month_of_year(doy);
    }
    let mp = (5 * doy + 2) / 153;
    let d = doy - (153 * mp + 2) / 5 + 1;
    let m = if mp < 10 { mp + 3 } else { mp - 9 };
    let y = if m <= 2 { y + 1 } else { y };
    proof {
        lemma_civil_date(days as int, era as int, doe as int, yoe as int, doy as int, mp as int);
        lemma_date_of_day(days as int);
        let w = date_of_day(days as int);
        lemma_day_number_injective(y as int, m as int, d as int, w.0, w.1, w.2);
    }
    (y, m, d)
}

/// Converts UNIX epoch seconds to the `YYYY-MM-DD` text of the day they fall on (UTC).
pub fn epoch_secs_to_date(secs: u64) -> (s: String)
    ensures
        s@ == date_text_of_day(secs as int / 86400),
{
    let days = secs / 86400;
    let (y, m, d) = civil_from_days(days);
    let mut s = String::new();
    append_zero_padded(&mut s, y, 4);
    push_char(&mut s, '-');
    append_zero_padded(&mut s, m, 2);
    push_char(&mut s, '-');
    append_zero_padded(&mut s, d, 2);
    s
}

} // verus!
