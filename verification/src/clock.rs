//! Clip times: read from file names, shown as text, and the time between them.
//!
//! A time is held as a moment, without a zone: two thousand steps to the second,
//! counted from 1970-01-01T00:00:00. The first thousand are the milliseconds of
//! the second, the others those of a leap second behind it. Moments so stand in
//! the order of time, and `12:34:60` is neither `12:34:59` nor `12:35:00`.

use vstd::arithmetic::div_mod::{
    lemma_fundamental_div_mod, lemma_fundamental_div_mod_converse, lemma_mod_bound,
};
use crate::calendar::{
    date_shown, ends_minute, in_calendar, is_iso_shape, iso_reading, iso_shown,
    law_shown_times_read_back,
};
use crate::text::{after_last_slash, base_name, chars_of, is_digit, slashed, slashed_chars, text_of};
use vstd::prelude::*;

verus! {

/// The steps of a day.
pub const DAY_STEPS: i64 = 172_800_000;

/// The second since the epoch that a moment falls in, or the one before its leap
/// second.
pub open spec fn second_of(t: int) -> int {
    t / 2000
}

/// Milliseconds since that second began; from 1000 on in a leap second.
pub open spec fn millis_of(t: int) -> int {
    t % 2000
}

pub open spec fn in_leap_second(t: int) -> bool {
    millis_of(t) >= 1000
}

/// What chrono's `NaiveDateTime::parse_from_str` reads with the pattern
/// `%Y-%m-%dT%H:%M:%S` from a text of another shape: seconds since the epoch and
/// milliseconds within the second.
pub uninterp spec fn loose_parts(text: Seq<char>) -> Option<(i64, u32)>;

/// What chrono's `format` shows for a pattern of a second and its nanoseconds out
/// of the years 0 to 9999; nothing for a time out of its range.
pub uninterp spec fn shown_beyond(second: i64, nanos: u32, pattern: Seq<char>) -> Option<Seq<char>>;

/// `NaiveDateTime::parse_from_str` with the pattern `%Y-%m-%dT%H:%M:%S`, then
/// `timestamp` and `timestamp_subsec_millis` of the result taken as UTC. Claims
/// that a text of that shape with all its digits reads as the date and time it
/// spells, a second 60 as a leap second, or not at all where there is no such date
/// and time; that the outcome for any other text depends on the text alone; that
/// chrono's years (about 262 000 to either side) bound the seconds; and that every
/// time read is a whole second, or a leap second behind the last one of a minute.
/// What a text of another shape reads as is left unsaid.
#[verifier::external_body]
pub(crate) fn read_iso(text: &str) -> (r: Option<(i64, u32)>)
    ensures
        is_iso_shape(text@) ==> r == iso_reading(text@),
        !is_iso_shape(text@) ==> r == loose_parts(text@),
        r matches Some(p) ==> -9_000_000_000_000 <= p.0 <= 9_000_000_000_000 && (p.1 == 0 || p.1
            == 1000 && ends_minute(p.0 as int)),
{
    chrono::NaiveDateTime::parse_from_str(text, "%Y-%m-%dT%H:%M:%S")
        .ok()
        .map(|t| (t.and_utc().timestamp(), t.and_utc().timestamp_subsec_millis()))
}

/// A second in the years 0 to 9999, or the leap second behind it, as the date
/// alone, or as date and time.
pub open spec fn calendar_text(second: int, leap: bool, pattern: Seq<char>) -> Seq<char> {
    if pattern == "%Y-%m-%d"@ {
        date_shown(second / 86_400)
    } else {
        iso_shown(second, leap)
    }
}

/// `DateTime::from_timestamp`, then `format` with the pattern `%Y-%m-%dT%H:%M:%S`
/// or `%Y-%m-%d`. Nanoseconds from a thousand million on are those of a leap
/// second. Claims that there is no such time where the second is not the last one
/// of its minute; that otherwise, in the years 0 to 9999, the text is the date and
/// time of the Gregorian calendar, or the date, in digits, a leap second as second
/// 60; and that it depends on the time and the pattern alone in all other years.
/// Which text it is there is left unsaid.
#[verifier::external_body]
pub(crate) fn show(second: i64, nanos: u32, pattern: &str) -> (r: Option<String>)
    requires
        nanos < 2_000_000_000,
        pattern@ == "%Y-%m-%dT%H:%M:%S"@ || pattern@ == "%Y-%m-%d"@,
    ensures
        nanos >= 1_000_000_000 && !ends_minute(second as int) ==> r is None,
        (nanos < 1_000_000_000 || ends_minute(second as int)) && in_calendar(second as int)
            ==> match r {
            Some(s) => s@ == calendar_text(second as int, nanos >= 1_000_000_000, pattern@),
            None => false,
        },
        (nanos < 1_000_000_000 || ends_minute(second as int)) && !in_calendar(second as int)
            ==> match r {
            Some(s) => shown_beyond(second, nanos, pattern@) == Some(s@),
            None => shown_beyond(second, nanos, pattern@) is None,
        },
{
    chrono::DateTime::from_timestamp(second, nanos).map(|t| t.format(pattern).to_string())
}

/// Seconds since the epoch and milliseconds within the second that a text is read
/// as.
pub open spec fn iso_parts(text: Seq<char>) -> Option<(i64, u32)> {
    if is_iso_shape(text) {
        iso_reading(text)
    } else {
        loose_parts(text)
    }
}

/// The moment of a text `YYYY-MM-DDTHH:MM:SS`.
pub open spec fn iso_moment(text: Seq<char>) -> Option<int> {
    match iso_parts(text) {
        Some(p) => Some(p.0 * 2000 + p.1),
        None => None,
    }
}

/// There is such a time: a leap second follows the last second of a minute only.
pub open spec fn is_moment(t: int) -> bool {
    in_leap_second(t) ==> ends_minute(second_of(t))
}

/// A moment shown by a pattern; empty where there is no such time, or where it is
/// out of range.
pub open spec fn shown(t: int, pattern: Seq<char>) -> Seq<char> {
    if !is_moment(t) {
        Seq::empty()
    } else if in_calendar(second_of(t)) {
        calendar_text(second_of(t), in_leap_second(t), pattern)
    } else {
        match shown_beyond(
            second_of(t) as i64,
            (millis_of(t) * 1_000_000) as u32,
            pattern,
        ) {
            Some(s) => s,
            None => Seq::empty(),
        }
    }
}

/// A moment as `YYYY-MM-DDTHH:MM:SS`.
pub open spec fn stamp_text(t: int) -> Seq<char> {
    shown(t, "%Y-%m-%dT%H:%M:%S"@)
}

/// The day of a moment as `YYYY-MM-DD`.
pub open spec fn date_text(t: int) -> Seq<char> {
    shown(t, "%Y-%m-%d"@)
}

pub fn parse_iso_moment(text: &str) -> (r: Option<i64>)
    ensures
        match r {
            Some(t) => iso_moment(text@) == Some(t as int) && is_clip_time(t as int),
            None => iso_moment(text@) is None,
        },
{
    match read_iso(text) {
        Some(p) => Some(p.0 * 2000 + p.1 as i64),
        None => None,
    }
}

/// Whole seconds since the epoch of a text `YYYY-MM-DDTHH:MM:SS`.
pub open spec fn iso_seconds(text: Seq<char>) -> Option<int> {
    match iso_parts(text) {
        Some(p) => Some(p.0 as int),
        None => None,
    }
}

pub fn parse_iso_seconds(text: &str) -> (r: Option<i64>)
    ensures
        match r {
            Some(s) => iso_seconds(text@) == Some(s as int),
            None => iso_seconds(text@) is None,
        },
{
    match read_iso(text) {
        Some(p) => Some(p.0),
        None => None,
    }
}

/// Quotient and rest, the rest not negative.
fn floor_parts(v: i128, by: i128) -> (r: (i128, i128))
    requires
        0 < by,
    ensures
        r.0 == v as int / by as int,
        r.1 == v as int % by as int,
{
    if v >= 0 {
        return (v / by, v % by);
    }
    let w: i128 = -1 - v;
    let r: (i128, i128) = (-1 - w / by, by - 1 - w % by);
    proof {
        lemma_fundamental_div_mod(w as int, by as int);
        lemma_mod_bound(w as int, by as int);
        assert(v == r.0 * by + r.1) by (nonlinear_arith)
            requires
                w == -1 - v,
                w == by * (w as int / by as int) + w as int % by as int,
                r.0 == -1 - w as int / by as int,
                r.1 == by - 1 - w as int % by as int,
        ;
        lemma_fundamental_div_mod_converse(v as int, by as int, r.0 as int, r.1 as int);
    }
    r
}

/// `second_of` and `millis_of`.
fn parts_of(t: i64) -> (r: (i64, i64))
    ensures
        r.0 == second_of(t as int),
        r.1 == millis_of(t as int),
        0 <= r.1 < 2000,
{
    let p: (i128, i128) = floor_parts(t as i128, 2000);
    (p.0 as i64, p.1 as i64)
}

fn show_moment(t: i64, pattern: &str) -> (r: String)
    requires
        pattern@ == "%Y-%m-%dT%H:%M:%S"@ || pattern@ == "%Y-%m-%d"@,
    ensures
        r@ == shown(t as int, pattern@),
{
    let p: (i64, i64) = parts_of(t);
    let nanos: u32 = p.1 as u32 * 1_000_000;
    match show(p.0, nanos, pattern) {
        Some(s) => s,
        None => {
            let e: String = String::new();
            proof {
                assert(e@ =~= Seq::<char>::empty());
            }
            e
        },
    }
}

pub fn format_stamp(t: i64) -> (r: String)
    ensures
        r@ == stamp_text(t as int),
{
    show_moment(t, "%Y-%m-%dT%H:%M:%S")
}

pub fn format_date(t: i64) -> (r: String)
    ensures
        r@ == date_text(t as int),
{
    show_moment(t, "%Y-%m-%d")
}

// ---------------------------------------------------------------------------
// The time between
// ---------------------------------------------------------------------------

/// `a + b` held within the range of `i64`.
pub open spec fn sat_add(a: int, b: int) -> int {
    if a + b > i64::MAX {
        i64::MAX as int
    } else if a + b < i64::MIN {
        i64::MIN as int
    } else {
        a + b
    }
}

/// From `a` to `b`, held within the range of `i64`.
pub open spec fn gap(a: int, b: int) -> int {
    sat_add(b, -a)
}

fn held(s: i128) -> (r: i64)
    ensures
        r == sat_add(s as int, 0),
{
    if s > i64::MAX as i128 {
        i64::MAX
    } else if s < i64::MIN as i128 {
        i64::MIN
    } else {
        s as i64
    }
}

pub fn sum_held(a: i64, b: i64) -> (r: i64)
    ensures
        r == sat_add(a as int, b as int),
{
    held(a as i128 + b as i128)
}

pub fn gap_held(a: i64, b: i64) -> (r: i64)
    ensures
        r == gap(a as int, b as int),
{
    held(b as i128 - a as i128)
}

/// Milliseconds since the epoch. Those of a leap second are counted as those of
/// the second behind it.
pub open spec fn epoch_ms(t: int) -> int {
    second_of(t) * 1000 + millis_of(t)
}

pub fn to_epoch_ms(t: i64) -> (r: i64)
    ensures
        r == epoch_ms(t as int),
{
    let p: (i64, i64) = parts_of(t);
    p.0 * 1000 + p.1
}

pub open spec fn second_of_day(t: int) -> int {
    second_of(t) % 86_400
}

/// The leap second that a span counts beside the seconds of its two ends: of an
/// end in a leap second, the one that is earlier in the day.
pub open spec fn leap_ms(a: int, b: int) -> int {
    if second_of_day(a) < second_of_day(b) && in_leap_second(a) {
        1000
    } else if second_of_day(b) < second_of_day(a) && in_leap_second(b) {
        -1000
    } else {
        0
    }
}

/// Milliseconds from `a` to `b`, held within the range of `i64`. No leap second is
/// known but one that `a` or `b` falls in.
#[verifier::opaque]
pub open spec fn span(a: int, b: int) -> int {
    sat_add(epoch_ms(b) - epoch_ms(a), leap_ms(a, b))
}

pub fn span_ms(a: i64, b: i64) -> (r: i64)
    ensures
        r == span(a as int, b as int),
{
    proof {
        reveal(span);
    }
    let p: (i64, i64) = parts_of(a);
    let q: (i64, i64) = parts_of(b);
    let early: i128 = floor_parts(p.0 as i128, 86_400).1;
    let late: i128 = floor_parts(q.0 as i128, 86_400).1;
    let leap: i128 = if early < late && p.1 >= 1000 {
        1000
    } else if late < early && q.1 >= 1000 {
        -1000
    } else {
        0
    };
    let whole: i128 = (q.0 as i128 - p.0 as i128) * 1000;
    held(whole + (q.1 - p.1) as i128 + leap)
}

/// The moment of `ms` milliseconds since the epoch, in no leap second.
pub open spec fn plain_moment(ms: int) -> int {
    ms / 1000 * 2000 + ms % 1000
}

/// The moment `ms` milliseconds from `t`, held within the range of `i64`. Less
/// than a second that does not lead past the end of a leap second is counted
/// within it, and any more as though there had been none.
#[verifier::opaque]
pub open spec fn shifted(t: int, ms: int) -> int {
    sat_add(
        if in_leap_second(t) && -1000 < ms < 1000 && millis_of(t) + ms < 2000 {
            t + ms
        } else if in_leap_second(t) && ms > 0 {
            plain_moment(epoch_ms(t) - 1000 + ms)
        } else {
            plain_moment(epoch_ms(t) + ms)
        },
        0,
    )
}

pub fn move_by(t: i64, ms: i64) -> (r: i64)
    ensures
        r == shifted(t as int, ms as int),
{
    proof {
        reveal(shifted);
    }
    let p: (i64, i64) = parts_of(t);
    let leap: bool = p.1 >= 1000;
    if leap && -1000 < ms && ms < 1000 && p.1 + ms < 2000 {
        return held(t as i128 + ms as i128);
    }
    let at: i128 = p.0 as i128 * 1000 + p.1 as i128 + ms as i128;
    let e: i128 = if leap && ms > 0 {
        at - 1000
    } else {
        at
    };
    let f: (i128, i128) = floor_parts(e, 1000);
    held(f.0 * 2000 + f.1)
}

/// A time as a clip's name gives it: a whole second, or a leap second.
pub open spec fn is_clip_time(t: int) -> bool {
    &&& -18_000_000_000_000_000 <= t <= 18_000_000_000_001_000
    &&& t % 1000 == 0
    &&& is_moment(t)
}

// ---------------------------------------------------------------------------
// File names
// ---------------------------------------------------------------------------

/// `s[i..]` opens with `YYYY-MM-DD_HH-MM-SS`.
pub open spec fn stamp_at(s: Seq<char>, i: int) -> bool {
    &&& 0 <= i
    &&& i + 19 <= s.len()
    &&& s[i + 4] == '-' && s[i + 7] == '-' && s[i + 10] == '_' && s[i + 13] == '-' && s[i + 16] == '-'
    &&& is_digit(s[i]) && is_digit(s[i + 1]) && is_digit(s[i + 2]) && is_digit(s[i + 3])
    &&& is_digit(s[i + 5]) && is_digit(s[i + 6]) && is_digit(s[i + 8]) && is_digit(s[i + 9])
    &&& is_digit(s[i + 11]) && is_digit(s[i + 12]) && is_digit(s[i + 14]) && is_digit(s[i + 15])
    &&& is_digit(s[i + 17]) && is_digit(s[i + 18])
}

/// The same stamp written `YYYY-MM-DDTHH:MM:SS`.
pub open spec fn iso_text(s: Seq<char>, i: int) -> Seq<char> {
    s.subrange(i, i + 10) + seq!['T'] + s.subrange(i + 11, i + 13) + seq![':'] + s.subrange(
        i + 14,
        i + 16,
    ) + seq![':'] + s.subrange(i + 17, i + 19)
}

/// The first stamp at or behind position `i` that is a real date and time.
pub open spec fn stamp_from(s: Seq<char>, i: int) -> Option<int>
    decreases s.len() - i,
{
    if i < 0 || i + 19 > s.len() {
        None
    } else if stamp_at(s, i) && iso_moment(iso_text(s, i)) is Some {
        iso_moment(iso_text(s, i))
    } else {
        stamp_from(s, i + 1)
    }
}

/// The time in a path, wherever it stands in it.
pub open spec fn file_stamp(s: Seq<char>) -> Option<int> {
    stamp_from(s, 0)
}

/// The time in a path's file name. Event folders are named by a time too, so the
/// folders in front of it are not looked at.
pub open spec fn clip_stamp(s: Seq<char>) -> Option<int> {
    file_stamp(after_last_slash(slashed(s)))
}

fn digit(c: char) -> (r: bool)
    ensures
        r == is_digit(c),
{
    '0' <= c && c <= '9'
}

fn stamp_here(cs: &[char], i: usize) -> (r: bool)
    requires
        i + 19 <= cs.len(),
    ensures
        r == stamp_at(cs@, i as int),
{
    cs[i + 4] == '-' && cs[i + 7] == '-' && cs[i + 10] == '_' && cs[i + 13] == '-' && cs[i + 16]
        == '-' && digit(cs[i]) && digit(cs[i + 1]) && digit(cs[i + 2]) && digit(cs[i + 3]) && digit(
        cs[i + 5],
    ) && digit(cs[i + 6]) && digit(cs[i + 8]) && digit(cs[i + 9]) && digit(cs[i + 11]) && digit(
        cs[i + 12],
    ) && digit(cs[i + 14]) && digit(cs[i + 15]) && digit(cs[i + 17]) && digit(cs[i + 18])
}

fn iso_here(cs: &[char], i: usize) -> (r: String)
    requires
        i + 19 <= cs.len(),
    ensures
        r@ == iso_text(cs@, i as int),
{
    let mut out: Vec<char> = Vec::new();
    let mut k: usize = 0;
    while k < 19
        invariant
            i + 19 <= cs.len(),
            k <= 19,
            out.len() == k,
            forall|j: int|
                0 <= j < k ==> #[trigger] out@[j] == (if j == 10 {
                    'T'
                } else if j == 13 || j == 16 {
                    ':'
                } else {
                    cs@[i + j]
                }),
        decreases 19 - k,
    {
        if k == 10 {
            out.push('T');
        } else if k == 13 || k == 16 {
            out.push(':');
        } else {
            out.push(cs[i + k]);
        }
        k = k + 1;
    }
    proof {
        assert(out@ =~= iso_text(cs@, i as int));
    }
    text_of(&out)
}

fn scan_stamp(cs: &[char]) -> (r: Option<i64>)
    ensures
        match r {
            Some(t) => file_stamp(cs@) == Some(t as int) && is_clip_time(t as int),
            None => file_stamp(cs@) is None,
        },
{
    let mut i: usize = 0;
    while i < cs.len() && cs.len() - i >= 19
        invariant
            i <= cs.len(),
            file_stamp(cs@) == stamp_from(cs@, i as int),
        decreases cs.len() - i,
    {
        if stamp_here(cs, i) {
            let iso: String = iso_here(cs, i);
            match parse_iso_moment(iso.as_str()) {
                Some(t) => {
                    return Some(t);
                },
                None => {},
            }
        }
        i = i + 1;
    }
    None
}

/// The time in a dashcam path: the first `YYYY-MM-DD_HH-MM-SS` that is a real
/// date and time.
pub fn parse_file_timestamp(file_path: &str) -> (r: Option<i64>)
    ensures
        match r {
            Some(t) => file_stamp(file_path@) == Some(t as int) && is_clip_time(t as int),
            None => file_stamp(file_path@) is None,
        },
{
    let cs: Vec<char> = chars_of(file_path);
    scan_stamp(&cs)
}

/// The time in a dashcam path's file name.
pub fn parse_clip_timestamp(file_path: &str) -> (r: Option<i64>)
    ensures
        match r {
            Some(t) => clip_stamp(file_path@) == Some(t as int) && is_clip_time(t as int),
            None => clip_stamp(file_path@) is None,
        },
{
    let cs: Vec<char> = slashed_chars(file_path);
    let name: Vec<char> = base_name(&cs);
    scan_stamp(&name)
}

/// A moment shown as text is read back to the second, a leap second as a leap
/// second.
pub proof fn law_stamps_read_back(t: int)
    requires
        is_moment(t),
        in_calendar(second_of(t)),
    ensures
        iso_moment(stamp_text(t)) == Some(t - t % 1000),
        iso_seconds(stamp_text(t)) == Some(second_of(t)),
{
    reveal_strlit("%Y-%m-%dT%H:%M:%S");
    reveal_strlit("%Y-%m-%d");
    assert("%Y-%m-%dT%H:%M:%S"@.len() != "%Y-%m-%d"@.len());
    law_shown_times_read_back(second_of(t), in_leap_second(t));
}

/// Two clips with one time shown are of one time: drives are told apart by it.
pub proof fn law_stamps_tell_clip_times_apart(a: int, b: int)
    requires
        is_clip_time(a),
        is_clip_time(b),
        in_calendar(second_of(a)),
        in_calendar(second_of(b)),
        stamp_text(a) == stamp_text(b),
    ensures
        a == b,
{
    law_stamps_read_back(a);
    law_stamps_read_back(b);
}

/// From a moment to itself no time passes.
pub proof fn law_no_time_passes(a: int)
    ensures
        span(a, a) == 0,
{
    reveal(span);
}

/// From `b` back to `a` it is as long as from `a` to `b`.
pub proof fn law_spans_turn_round(a: int, b: int)
    requires
        i64::MIN < span(a, b) < i64::MAX,
    ensures
        span(b, a) == -span(a, b),
{
    reveal(span);
}

/// Of two spans in a row that are longer than `d`, the whole is longer than `d`.
pub proof fn law_spans_add_up(a: int, b: int, c: int, d: int)
    requires
        3000 <= d < i64::MAX,
        span(a, b) > d,
        span(b, c) > d,
    ensures
        span(a, c) > d,
{
    reveal(span);
}

/// The spans between three moments in order agree: none is longer than the whole.
pub open spec fn steady(a: int, b: int, c: int) -> bool {
    a <= b <= c ==> span(a, b) <= span(a, c) && span(b, c) <= span(a, c)
}

/// Of clip times no span is longer than a span around it, as long as no two of
/// them are different leap seconds.
pub proof fn law_spans_are_steady(a: int, b: int, c: int)
    requires
        is_clip_time(a),
        is_clip_time(b),
        is_clip_time(c),
        in_leap_second(a) && in_leap_second(b) ==> a == b,
        in_leap_second(a) && in_leap_second(c) ==> a == c,
        in_leap_second(b) && in_leap_second(c) ==> b == c,
    ensures
        steady(a, b, c),
{
    reveal(span);
}

/// A moment is moved ahead by the time that then lies between, unless that leads
/// from a leap second into another day.
pub proof fn law_shifted_by_the_span(t: int, ms: int)
    requires
        -18_000_000_000_000_000 <= t <= 18_000_000_000_002_000,
        0 <= ms <= 9_000_000_000_000_000,
        in_leap_second(t) ==> second_of(shifted(t, ms)) == second_of(t) || second_of_day(t)
            < second_of_day(shifted(t, ms)),
    ensures
        t <= shifted(t, ms),
        span(t, shifted(t, ms)) == ms,
{
    reveal(span);
    reveal(shifted);
}

pub proof fn lemma_shifted_fits(t: int, ms: int)
    ensures
        i64::MIN <= shifted(t, ms) <= i64::MAX,
{
    reveal(shifted);
}

/// Of two shifts the longer one leads further ahead.
pub proof fn law_longer_shifts_lead_further(t: int, a: int, b: int)
    requires
        -18_000_000_000_000_000 <= t <= 18_000_000_000_002_000,
        0 <= a < b <= 9_000_000_000_000_000,
    ensures
        t <= shifted(t, a) < shifted(t, b),
{
    reveal(shifted);
}

} // verus!
