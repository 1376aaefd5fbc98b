//! Days of the Gregorian calendar, and times written `YYYY-MM-DDTHH:MM:SS`.

use vstd::arithmetic::div_mod::{
    lemma_fundamental_div_mod, lemma_fundamental_div_mod_converse, lemma_mod_bound,
};
use crate::text::{digit_char, is_digit};
use vstd::prelude::*;

verus! {

/// Days from 0000-01-01 to 1970-01-01.
pub const EPOCH_DAYS: i64 = 719_528;

/// The first second of the year 0.
pub const FIRST_SHOWN: i64 = -62_167_219_200;

/// The last second of the year 9999.
pub const LAST_SHOWN: i64 = 253_402_300_799;

// ---------------------------------------------------------------------------
// Days
// ---------------------------------------------------------------------------

pub open spec fn is_leap(y: int) -> bool {
    y % 4 == 0 && (y % 100 != 0 || y % 400 == 0)
}

pub open spec fn days_in_month(y: int, m: int) -> int {
    if m == 2 {
        if is_leap(y) {
            29
        } else {
            28
        }
    } else if m == 4 || m == 6 || m == 9 || m == 11 {
        30
    } else {
        31
    }
}

/// Days of the year before month `m`.
pub open spec fn days_before_month(y: int, m: int) -> int
    decreases m,
{
    if m <= 1 {
        0
    } else {
        days_before_month(y, m - 1) + days_in_month(y, m - 1)
    }
}

/// Days from 0000-01-01 to the first of the year.
pub open spec fn year_start(y: int) -> int {
    365 * y + (y + 3) / 4 - (y + 99) / 100 + (y + 399) / 400
}

/// Days from 1970-01-01 to a date.
pub open spec fn day_number(y: int, m: int, d: int) -> int {
    year_start(y) + days_before_month(y, m) + d - 1 - EPOCH_DAYS
}

/// The date is one of the calendar.
pub open spec fn is_date(y: int, m: int, d: int) -> bool {
    1 <= m <= 12 && 1 <= d <= days_in_month(y, m)
}

// ---------------------------------------------------------------------------
// Reading
// ---------------------------------------------------------------------------

/// `YYYY-MM-DDTHH:MM:SS`, with a digit for each letter but the `T`.
pub open spec fn is_iso_shape(s: Seq<char>) -> bool {
    &&& s.len() == 19
    &&& s[4] == '-' && s[7] == '-' && s[10] == 'T' && s[13] == ':' && s[16] == ':'
    &&& is_digit(s[0]) && is_digit(s[1]) && is_digit(s[2]) && is_digit(s[3])
    &&& is_digit(s[5]) && is_digit(s[6]) && is_digit(s[8]) && is_digit(s[9])
    &&& is_digit(s[11]) && is_digit(s[12]) && is_digit(s[14]) && is_digit(s[15])
    &&& is_digit(s[17]) && is_digit(s[18])
}

pub open spec fn digit_at(s: Seq<char>, i: int) -> int {
    s[i] as int - '0' as int
}

pub open spec fn two_at(s: Seq<char>, i: int) -> int {
    10 * digit_at(s, i) + digit_at(s, i + 1)
}

/// Seconds since the epoch and milliseconds within the second that a text of this
/// shape spells; nothing where it is no date and time. A second 60 counts as the
/// second before it and a thousand milliseconds.
pub open spec fn iso_reading(s: Seq<char>) -> Option<(i64, u32)> {
    let y = 100 * two_at(s, 0) + two_at(s, 2);
    let (m, d) = (two_at(s, 5), two_at(s, 8));
    let (hour, minute, second) = (two_at(s, 11), two_at(s, 14), two_at(s, 17));
    if is_date(y, m, d) && hour <= 23 && minute <= 59 && second <= 60 {
        let whole = if second == 60 {
            59
        } else {
            second
        };
        Some(
            (
                (day_number(y, m, d) * 86_400 + hour * 3600 + minute * 60 + whole) as i64,
                if second == 60 {
                    1000
                } else {
                    0
                },
            ),
        )
    } else {
        None
    }
}

// ---------------------------------------------------------------------------
// Showing
// ---------------------------------------------------------------------------

pub open spec fn in_calendar(second: int) -> bool {
    FIRST_SHOWN <= second <= LAST_SHOWN
}

/// Only the last second of a minute has a leap second behind it.
pub open spec fn ends_minute(second: int) -> bool {
    second % 60 == 59
}

/// The year in which day `n` from 0000-01-01 on falls.
pub open spec fn year_of(n: int) -> int {
    choose|y: int| 0 <= y && year_start(y) <= n < #[trigger] year_start(y + 1)
}

/// The month in which day `k` of the year falls.
pub open spec fn month_of(y: int, k: int) -> int {
    choose|m: int|
        1 <= m <= 12 && days_before_month(y, m) <= k < #[trigger] days_before_month(y, m + 1)
}

pub open spec fn two_digits(v: int) -> Seq<char> {
    seq![digit_char(v / 10 % 10), digit_char(v % 10)]
}

/// A day from 1970-01-01 on as `YYYY-MM-DD`.
pub open spec fn date_shown(day: int) -> Seq<char> {
    let n = day + EPOCH_DAYS;
    let y = year_of(n);
    let k = n - year_start(y);
    let m = month_of(y, k);
    let d = k - days_before_month(y, m) + 1;
    two_digits(y / 100) + two_digits(y % 100) + seq!['-'] + two_digits(m) + seq!['-'] + two_digits(d)
}

/// A second of the day, or the leap second behind it, as `HH:MM:SS`.
pub open spec fn clock_text(second: int, leap: bool) -> Seq<char> {
    two_digits(second / 3600) + seq![':'] + two_digits(second / 60 % 60) + seq![':'] + two_digits(
        second % 60 + if leap {
            1int
        } else {
            0int
        },
    )
}

/// A second since the epoch, or the leap second behind it, as
/// `YYYY-MM-DDTHH:MM:SS`.
pub open spec fn iso_shown(second: int, leap: bool) -> Seq<char> {
    date_shown(second / 86_400) + seq!['T'] + clock_text(second % 86_400, leap)
}

// ---------------------------------------------------------------------------
// Laws
// ---------------------------------------------------------------------------

/// Of the numbers below `y + 1`, one more is a multiple of `c` where `y` is one.
proof fn lemma_multiples(y: int, c: int)
    requires
        c > 0,
    ensures
        (y + c) / c == (y + c - 1) / c + if y % c == 0 {
            1int
        } else {
            0int
        },
{
    let q = y / c;
    let r = y % c;
    lemma_fundamental_div_mod(y, c);
    lemma_mod_bound(y, c);
    assert(y + c == (q + 1) * c + r) by (nonlinear_arith)
        requires
            y == c * q + r,
    ;
    lemma_fundamental_div_mod_converse(y + c, c, q + 1, r);
    if r == 0 {
        assert(y + c - 1 == q * c + (c - 1)) by (nonlinear_arith)
            requires
                y == c * q + r,
                r == 0,
        ;
        lemma_fundamental_div_mod_converse(y + c - 1, c, q, c - 1);
    } else {
        assert(y + c - 1 == (q + 1) * c + (r - 1)) by (nonlinear_arith)
            requires
                y == c * q + r,
        ;
        lemma_fundamental_div_mod_converse(y + c - 1, c, q + 1, r - 1);
    }
}

/// Leap years have a day more.
proof fn lemma_year_length(y: int)
    requires
        y >= 0,
    ensures
        year_start(y + 1) == year_start(y) + 365 + if is_leap(y) {
            1int
        } else {
            0int
        },
{
    lemma_multiples(y, 4);
    lemma_multiples(y, 100);
    lemma_multiples(y, 400);
    assert(y % 400 == 0 ==> y % 100 == 0);
    assert(y % 100 == 0 ==> y % 4 == 0);
}

proof fn lemma_years_ascend(a: int, b: int)
    requires
        0 <= a <= b,
    ensures
        year_start(a) + 365 * (b - a) <= year_start(b),
    decreases b - a,
{
    if a < b {
        lemma_years_ascend(a, b - 1);
        lemma_year_length(b - 1);
    }
}

/// Every day from 0000-01-01 on falls in a year.
proof fn lemma_some_year(n: int, y: int) -> (r: int)
    requires
        y >= 0,
        year_start(y) <= n,
    ensures
        r >= y,
        year_start(r) <= n < year_start(r + 1),
    decreases n - year_start(y),
{
    lemma_year_length(y);
    if n < year_start(y + 1) {
        y
    } else {
        lemma_some_year(n, y + 1)
    }
}

/// The year of a day up to the year 9999.
proof fn lemma_year_of(n: int)
    requires
        0 <= n < year_start(10_000),
    ensures
        0 <= year_of(n) <= 9999,
        year_start(year_of(n)) <= n < year_start(year_of(n) + 1),
{
    assert(year_start(0) == 0);
    let r = lemma_some_year(n, 0);
    let y = year_of(n);
    assert(0 <= y && year_start(y) <= n < year_start(y + 1));
    if y >= 10_000 {
        lemma_years_ascend(10_000, y);
    }
}

/// The month of a day of the year.
proof fn lemma_month_of(y: int, k: int)
    requires
        0 <= k < 365 + if is_leap(y) {
            1int
        } else {
            0int
        },
    ensures
        ({
            let m = month_of(y, k);
            1 <= m <= 12 && days_before_month(y, m) <= k < days_before_month(y, m) + days_in_month(y, m)
        }),
{
    reveal_with_fuel(days_before_month, 14);
    let m: int = if k < days_before_month(y, 2) {
        1
    } else if k < days_before_month(y, 3) {
        2
    } else if k < days_before_month(y, 4) {
        3
    } else if k < days_before_month(y, 5) {
        4
    } else if k < days_before_month(y, 6) {
        5
    } else if k < days_before_month(y, 7) {
        6
    } else if k < days_before_month(y, 8) {
        7
    } else if k < days_before_month(y, 9) {
        8
    } else if k < days_before_month(y, 10) {
        9
    } else if k < days_before_month(y, 11) {
        10
    } else if k < days_before_month(y, 12) {
        11
    } else {
        12
    };
    assert(1 <= m <= 12 && days_before_month(y, m) <= k < days_before_month(y, m + 1));
}

proof fn lemma_two_digits(v: int)
    requires
        0 <= v <= 99,
    ensures
        two_digits(v).len() == 2,
        is_digit(two_digits(v)[0]),
        is_digit(two_digits(v)[1]),
        two_at(two_digits(v), 0) == v,
{
}

proof fn lemma_part(s: Seq<char>, i: int)
    requires
        0 <= i,
        i + 2 <= s.len(),
    ensures
        two_at(s, i) == two_at(s.subrange(i, i + 2), 0),
        s[i] == s.subrange(i, i + 2)[0],
        s[i + 1] == s.subrange(i, i + 2)[1],
{
}

/// The parts of a day as they are shown.
proof fn lemma_date_shown(day: int)
    requires
        0 <= day + EPOCH_DAYS < 3_652_425,
    ensures
        ({
            let s = date_shown(day);
            let y = 100 * two_at(s, 0) + two_at(s, 2);
            &&& s.len() == 10
            &&& s[4] == '-' && s[7] == '-'
            &&& is_digit(s[0]) && is_digit(s[1]) && is_digit(s[2]) && is_digit(s[3])
            &&& is_digit(s[5]) && is_digit(s[6]) && is_digit(s[8]) && is_digit(s[9])
            &&& is_date(y, two_at(s, 5), two_at(s, 8))
            &&& day_number(y, two_at(s, 5), two_at(s, 8)) == day
        }),
{
    let n = day + EPOCH_DAYS;
    assert(year_start(10_000) == 3_652_425);
    lemma_year_of(n);
    let y = year_of(n);
    let k = n - year_start(y);
    lemma_year_length(y);
    lemma_month_of(y, k);
    let m = month_of(y, k);
    let d = k - days_before_month(y, m) + 1;
    lemma_two_digits(y / 100);
    lemma_two_digits(y % 100);
    lemma_two_digits(m);
    lemma_two_digits(d);
    let s = date_shown(day);
    assert(s.subrange(0, 2) =~= two_digits(y / 100));
    assert(s.subrange(2, 4) =~= two_digits(y % 100));
    assert(s.subrange(5, 7) =~= two_digits(m));
    assert(s.subrange(8, 10) =~= two_digits(d));
    lemma_part(s, 0);
    lemma_part(s, 2);
    lemma_part(s, 5);
    lemma_part(s, 8);
    assert(100 * (y / 100) + y % 100 == y);
}

/// The parts of a time of day as they are shown.
proof fn lemma_clock_text(rest: int, leap: bool)
    requires
        0 <= rest < 86_400,
        leap ==> ends_minute(rest),
    ensures
        ({
            let s = clock_text(rest, leap);
            let shown = if leap {
                60
            } else {
                rest % 60
            };
            &&& s.len() == 8
            &&& s[2] == ':' && s[5] == ':'
            &&& is_digit(s[0]) && is_digit(s[1]) && is_digit(s[3]) && is_digit(s[4])
            &&& is_digit(s[6]) && is_digit(s[7])
            &&& 0 <= two_at(s, 0) <= 23
            &&& 0 <= two_at(s, 3) <= 59
            &&& two_at(s, 6) == shown
            &&& two_at(s, 0) * 3600 + two_at(s, 3) * 60 + rest % 60 == rest
        }),
{
    let last = if leap {
        60
    } else {
        rest % 60
    };
    lemma_two_digits(rest / 3600);
    lemma_two_digits(rest / 60 % 60);
    lemma_two_digits(last);
    let s = clock_text(rest, leap);
    assert(s.subrange(0, 2) =~= two_digits(rest / 3600));
    assert(s.subrange(3, 5) =~= two_digits(rest / 60 % 60));
    assert(s.subrange(6, 8) =~= two_digits(last));
    lemma_part(s, 0);
    lemma_part(s, 3);
    lemma_part(s, 6);
}

/// A time that is shown reads back as itself, to the second; a leap second as a
/// leap second.
pub proof fn law_shown_times_read_back(second: int, leap: bool)
    requires
        in_calendar(second),
        leap ==> ends_minute(second),
    ensures
        is_iso_shape(iso_shown(second, leap)),
        iso_reading(iso_shown(second, leap)) == Some(
            (
                second as i64,
                if leap {
                    1000u32
                } else {
                    0u32
                },
            ),
        ),
{
    let a = date_shown(second / 86_400);
    let b = clock_text(second % 86_400, leap);
    assert(second % 86_400 % 60 == second % 60);
    lemma_date_shown(second / 86_400);
    lemma_clock_text(second % 86_400, leap);
    let s = iso_shown(second, leap);
    assert(forall|i: int| 0 <= i < 10 ==> s[i] == a[i]);
    assert(s[10] == 'T');
    assert(forall|i: int| 11 <= i < 19 ==> s[i] == b[i - 11]);
    assert(two_at(s, 0) == two_at(a, 0) && two_at(s, 2) == two_at(a, 2));
    assert(two_at(s, 5) == two_at(a, 5) && two_at(s, 8) == two_at(a, 8));
    assert(two_at(s, 11) == two_at(b, 0) && two_at(s, 14) == two_at(b, 3));
    assert(two_at(s, 17) == two_at(b, 6));
}

} // verus!
