//! Self-driving statistics over a period.

use crate::calc::{round1, round2, rounded1, rounded2};
use crate::clock::{DAY_STEPS, date_text, format_date, iso_seconds, read_iso};
use crate::float::{F64, fadd, fdiv, fle, flt, fmul, from_int, zero};
use crate::list::{are_rows, group_summaries_fast};
use crate::subclips::summaries_fit;
use crate::summary::{flag_runs_fit, held32, hold32, hold64, imported, text_view, texts};
use crate::text::{
    chars_of, comes_before, decimal, lemma_text_order, lemma_text_order_chains, push_decimal,
    push_text, same_text, text_before,
};
use crate::types::{DriveSummary, FsdAnalytics, FsdDayStats, RouteSummary, TagEntry};
use vstd::prelude::*;

verus! {

/// The earliest day that a calendar date is shown for.
pub const FIRST_DAY: i64 = -100_000_000;

/// The latest.
pub const LAST_DAY: i64 = 100_000_000;

pub const DAY_SECONDS: i64 = 86_400;

// ---------------------------------------------------------------------------
// Days
// ---------------------------------------------------------------------------

/// The day of a time in seconds, counted from 1970-01-01.
pub open spec fn day_of(seconds: int) -> int {
    seconds / (DAY_SECONDS as int)
}

/// The weekday of a day; 1970-01-01 was a Thursday.
pub open spec fn weekday_name(day: int) -> Seq<char> {
    let w = (day + 3) % 7;
    if w == 0 {
        "Mon"@
    } else if w == 1 {
        "Tue"@
    } else if w == 2 {
        "Wed"@
    } else if w == 3 {
        "Thu"@
    } else if w == 4 {
        "Fri"@
    } else if w == 5 {
        "Sat"@
    } else {
        "Sun"@
    }
}

/// The date of a day.
pub open spec fn day_text(day: int) -> Seq<char> {
    date_text(day * DAY_STEPS)
}

fn day_number(seconds: i64) -> (r: i64)
    requires
        -9_000_000_000_000 <= seconds <= 9_000_000_000_000,
    ensures
        r == day_of(seconds as int),
        -200_000_000 <= r <= 200_000_000,
{
    let shifted: i64 = seconds + 200_000_000 * DAY_SECONDS;
    let r: i64 = shifted / DAY_SECONDS - 200_000_000;
    proof {
        assert(day_of(seconds as int) == (seconds + 200_000_000 * 86_400) / 86_400 - 200_000_000);
    }
    r
}

fn name_of_day(day: i64) -> (r: String)
    requires
        -200_000_000 <= day <= 200_000_000,
    ensures
        r@ == weekday_name(day as int),
{
    let w: i64 = (day + 3 + 210_000_000) % 7;
    proof {
        assert(210_000_000int % 7 == 0);
        assert(w == (day + 3) % 7);
    }
    if w == 0 {
        "Mon".to_string()
    } else if w == 1 {
        "Tue".to_string()
    } else if w == 2 {
        "Wed".to_string()
    } else if w == 3 {
        "Thu".to_string()
    } else if w == 4 {
        "Fri".to_string()
    } else if w == 5 {
        "Sat".to_string()
    } else {
        "Sun".to_string()
    }
}

// ---------------------------------------------------------------------------
// The period
// ---------------------------------------------------------------------------

/// The first day of the period; `None` for no limit.
pub open spec fn period_start(period: Seq<char>, today: int) -> Option<int> {
    if period == "day"@ {
        Some(today)
    } else if period == "week"@ {
        Some(today - 7)
    } else {
        None
    }
}

/// Drives of the car's own recording, driven by someone, within the period.
pub open spec fn in_period(d: DriveSummary, start: Option<int>) -> bool {
    &&& !imported(text_view(d.source))
    &&& !d.summon
    &&& match start {
        None => true,
        Some(first) => match iso_seconds(d.start_time@) {
            Some(t) => day_of(t) >= first,
            None => false,
        },
    }
}

/// Which drives count.
pub open spec fn of_period(ds: Seq<DriveSummary>, start: Option<int>) -> spec_fn(int) -> bool {
    |i: int| in_period(ds[i], start)
}

/// The date of a drive that counts; nothing where its start is no time.
pub open spec fn date_of(ds: Seq<DriveSummary>, start: Option<int>, i: int) -> Option<Seq<char>> {
    if in_period(ds[i], start) {
        match iso_seconds(ds[i].start_time@) {
            Some(t) => Some(date_text(t * 2000)),
            None => None,
        }
    } else {
        None
    }
}

/// Which drives count for a date.
pub open spec fn of_date(
    ds: Seq<DriveSummary>,
    start: Option<int>,
    date: Seq<char>,
) -> spec_fn(int) -> bool {
    |i: int| date_of(ds, start, i) == Some(date)
}

// ---------------------------------------------------------------------------
// Sums
// ---------------------------------------------------------------------------

/// Distances of a row.
#[derive(Clone, Copy, Debug)]
pub enum Distance {
    TotalKm,
    TotalMi,
    FsdKm,
    FsdMi,
    AutosteerKm,
    AutosteerMi,
    TaccKm,
    TaccMi,
}

/// Whole numbers of a row.
#[derive(Clone, Copy, Debug)]
pub enum Tally {
    DurationMs,
    FsdMs,
    AutosteerMs,
    TaccMs,
    Disengagements,
    AccelPushes,
}

pub open spec fn distance_in(d: DriveSummary, what: Distance) -> F64 {
    match what {
        Distance::TotalKm => d.distance_km,
        Distance::TotalMi => d.distance_mi,
        Distance::FsdKm => d.fsd_distance_km,
        Distance::FsdMi => d.fsd_distance_mi,
        Distance::AutosteerKm => d.autosteer_distance_km,
        Distance::AutosteerMi => d.autosteer_distance_mi,
        Distance::TaccKm => d.tacc_distance_km,
        Distance::TaccMi => d.tacc_distance_mi,
    }
}

pub open spec fn tally_in(d: DriveSummary, what: Tally) -> int {
    match what {
        Tally::DurationMs => d.duration_ms as int,
        Tally::FsdMs => d.fsd_engaged_ms as int,
        Tally::AutosteerMs => d.autosteer_engaged_ms as int,
        Tally::TaccMs => d.tacc_engaged_ms as int,
        Tally::Disengagements => d.fsd_disengagements as int,
        Tally::AccelPushes => d.fsd_accel_pushes as int,
    }
}

/// A distance added up over the first `n` drives that `keep`, in order.
pub open spec fn distance_sum(
    ds: Seq<DriveSummary>,
    keep: spec_fn(int) -> bool,
    what: Distance,
    n: int,
) -> F64
    decreases n,
{
    if n <= 0 {
        zero()
    } else if keep(n - 1) {
        fadd(distance_sum(ds, keep, what, n - 1), distance_in(ds[n - 1], what))
    } else {
        distance_sum(ds, keep, what, n - 1)
    }
}

/// A whole number added up over the first `n` drives that `keep`.
pub open spec fn tally_sum(
    ds: Seq<DriveSummary>,
    keep: spec_fn(int) -> bool,
    what: Tally,
    n: int,
) -> int
    decreases n,
{
    if n <= 0 {
        0
    } else if keep(n - 1) {
        tally_sum(ds, keep, what, n - 1) + tally_in(ds[n - 1], what)
    } else {
        tally_sum(ds, keep, what, n - 1)
    }
}

/// Share of a distance in percent, to one decimal; zero where nothing was driven.
pub open spec fn share_percent(part: F64, whole: F64) -> F64 {
    if flt(zero(), whole) {
        rounded1(fmul(fdiv(part, whole), from_int(100)))
    } else {
        zero()
    }
}

/// Share of a distance in percent; zero where nothing was driven.
pub(crate) fn percentage(part: F64, whole: F64) -> (r: F64)
    ensures
        r == share_percent(part, whole),
{
    if F64::from_bits(0).lt(whole) {
        round1(part.over(whole).times(F64::of_u64(100)))
    } else {
        F64::from_bits(0)
    }
}

/// How many of the first `n` drives `keep`.
pub open spec fn drive_count(keep: spec_fn(int) -> bool, n: int) -> int
    decreases n,
{
    if n <= 0 {
        0
    } else if keep(n - 1) {
        drive_count(keep, n - 1) + 1
    } else {
        drive_count(keep, n - 1)
    }
}

/// The first drive from `i` on to `keep`.
pub open spec fn first_drive(keep: spec_fn(int) -> bool, n: int, i: int) -> int
    decreases n - i,
{
    if i >= n || keep(i) {
        i
    } else {
        first_drive(keep, n, i + 1)
    }
}

/// `kept` marks the drives to `keep`.
pub open spec fn marks(kept: Seq<bool>, keep: spec_fn(int) -> bool) -> bool {
    forall|i: int| 0 <= i < kept.len() ==> #[trigger] kept[i] == keep(i)
}

fn distance_at(d: &DriveSummary, what: Distance) -> (r: F64)
    ensures
        r == distance_in(*d, what),
{
    match what {
        Distance::TotalKm => d.distance_km,
        Distance::TotalMi => d.distance_mi,
        Distance::FsdKm => d.fsd_distance_km,
        Distance::FsdMi => d.fsd_distance_mi,
        Distance::AutosteerKm => d.autosteer_distance_km,
        Distance::AutosteerMi => d.autosteer_distance_mi,
        Distance::TaccKm => d.tacc_distance_km,
        Distance::TaccMi => d.tacc_distance_mi,
    }
}

fn tally_at(d: &DriveSummary, what: Tally) -> (r: i64)
    ensures
        r == tally_in(*d, what),
{
    match what {
        Tally::DurationMs => d.duration_ms,
        Tally::FsdMs => d.fsd_engaged_ms,
        Tally::AutosteerMs => d.autosteer_engaged_ms,
        Tally::TaccMs => d.tacc_engaged_ms,
        Tally::Disengagements => d.fsd_disengagements as i64,
        Tally::AccelPushes => d.fsd_accel_pushes as i64,
    }
}

/// A distance added up over the marked drives.
pub(crate) fn add_distances(
    ds: &[DriveSummary],
    kept: &Vec<bool>,
    Ghost(keep): Ghost<spec_fn(int) -> bool>,
    what: Distance,
) -> (r: F64)
    requires
        kept@.len() == ds@.len(),
        marks(kept@, keep),
    ensures
        r == distance_sum(ds@, keep, what, ds@.len() as int),
{
    let mut sum: F64 = F64::from_bits(0);
    let mut i: usize = 0;
    while i < ds.len()
        invariant
            i <= ds@.len(),
            kept@.len() == ds@.len(),
            marks(kept@, keep),
            sum == distance_sum(ds@, keep, what, i as int),
        decreases ds.len() - i,
    {
        if kept[i] {
            sum = sum.plus(distance_at(&ds[i], what));
        }
        i = i + 1;
    }
    sum
}

/// A whole number added up over the marked drives.
pub(crate) fn add_tallies(
    ds: &[DriveSummary],
    kept: &Vec<bool>,
    Ghost(keep): Ghost<spec_fn(int) -> bool>,
    what: Tally,
) -> (r: i128)
    requires
        kept@.len() == ds@.len(),
        marks(kept@, keep),
    ensures
        r == tally_sum(ds@, keep, what, ds@.len() as int),
{
    let n: usize = ds.len();
    let mut sum: i128 = 0;
    let mut i: usize = 0;
    while i < n
        invariant
            i <= n,
            n == ds@.len(),
            kept@.len() == ds@.len(),
            marks(kept@, keep),
            sum == tally_sum(ds@, keep, what, i as int),
            -0x8000_0000_0000_0000 * i <= sum <= 0x8000_0000_0000_0000 * i,
        decreases n - i,
    {
        if kept[i] {
            sum = sum + tally_at(&ds[i], what) as i128;
        }
        i = i + 1;
    }
    sum
}

fn count_drives(kept: &Vec<bool>, Ghost(keep): Ghost<spec_fn(int) -> bool>) -> (r: usize)
    requires
        marks(kept@, keep),
    ensures
        r == drive_count(keep, kept@.len() as int),
{
    let mut sum: usize = 0;
    let mut i: usize = 0;
    while i < kept.len()
        invariant
            i <= kept@.len(),
            marks(kept@, keep),
            sum == drive_count(keep, i as int),
            sum <= i,
        decreases kept.len() - i,
    {
        if kept[i] {
            sum = sum + 1;
        }
        i = i + 1;
    }
    sum
}

// ---------------------------------------------------------------------------
// Days of the period
// ---------------------------------------------------------------------------

/// `row` tells what was driven on its date.
pub open spec fn is_day(ds: Seq<DriveSummary>, start: Option<int>, row: FsdDayStats) -> bool {
    let n = ds.len() as int;
    let keep = of_date(ds, start, row.date@);
    let first = first_drive(keep, n, 0);
    let fsd_km = distance_sum(ds, keep, Distance::FsdKm, n);
    &&& first < n
    &&& row.day_name@ == weekday_name(day_of(iso_seconds(ds[first].start_time@)->0))
    &&& row.disengagements == hold32(tally_sum(ds, keep, Tally::Disengagements, n))
    &&& row.accel_pushes == hold32(tally_sum(ds, keep, Tally::AccelPushes, n))
    &&& row.drives == hold32(drive_count(keep, n))
    &&& row.total_duration_ms == hold64(tally_sum(ds, keep, Tally::DurationMs, n))
    &&& row.fsd_engaged_ms == hold64(tally_sum(ds, keep, Tally::FsdMs, n))
    &&& row.fsd_percent == share_percent(fsd_km, distance_sum(ds, keep, Distance::TotalKm, n))
    &&& row.fsd_distance_km == rounded2(fsd_km)
    &&& row.fsd_distance_mi == rounded2(distance_sum(ds, keep, Distance::FsdMi, n))
}

/// `rows` are the days of the period on which was driven, each once, by date.
pub open spec fn are_days(
    ds: Seq<DriveSummary>,
    start: Option<int>,
    rows: Seq<FsdDayStats>,
) -> bool {
    &&& forall|i: int| 0 <= i < rows.len() ==> is_day(ds, start, #[trigger] rows[i])
    &&& forall|i: int, j: int|
        0 <= i < j < rows.len() ==> text_before(
            (#[trigger] rows[i]).date@,
            (#[trigger] rows[j]).date@,
        )
    &&& forall|k: int|
        0 <= k < ds.len() && (#[trigger] date_of(ds, start, k)) is Some ==> exists|i: int|
            0 <= i < rows.len() && Some((#[trigger] rows[i]).date@) == date_of(ds, start, k)
}

/// The row of a date, from row `i` on.
pub open spec fn day_at(rows: Seq<FsdDayStats>, date: Seq<char>, i: int) -> Option<FsdDayStats>
    decreases rows.len() - i,
{
    if i < 0 || i >= rows.len() {
        None
    } else if rows[i].date@ == date {
        Some(rows[i])
    } else {
        day_at(rows, date, i + 1)
    }
}

pub open spec fn percent_on(rows: Seq<FsdDayStats>, date: Seq<char>) -> F64 {
    match day_at(rows, date, 0) {
        Some(row) => row.fsd_percent,
        None => zero(),
    }
}

pub open spec fn engaged_on(rows: Seq<FsdDayStats>, date: Seq<char>) -> bool {
    day_at(rows, date, 0) matches Some(row) && row.fsd_engaged_ms > 0
}

/// The greatest percentage above zero among the first `n` rows, and the first
/// date that reached it.
pub open spec fn best_of(rows: Seq<FsdDayStats>, n: int) -> (F64, Seq<char>)
    decreases n,
{
    if n <= 0 {
        (zero(), Seq::empty())
    } else {
        let before = best_of(rows, n - 1);
        if flt(before.0, rows[n - 1].fsd_percent) {
            (rows[n - 1].fsd_percent, rows[n - 1].date@)
        } else {
            before
        }
    }
}

/// Consecutive days with self-driving, backwards from `day`; at most `left`.
pub open spec fn streak(rows: Seq<FsdDayStats>, day: int, left: int) -> int
    decreases left,
{
    if left <= 0 || day < FIRST_DAY || !engaged_on(rows, day_text(day)) {
        0
    } else {
        1 + streak(rows, day - 1, left - 1)
    }
}

// ---------------------------------------------------------------------------
// Texts
// ---------------------------------------------------------------------------

/// The grade of a percentage.
pub open spec fn grade(percent: F64) -> Seq<char> {
    if fle(from_int(90), percent) {
        "Great"@
    } else if fle(from_int(70), percent) {
        "Good"@
    } else if fle(from_int(40), percent) {
        "Okay"@
    } else {
        "Bad"@
    }
}

/// Hours and minutes in a time, both counted towards zero.
pub open spec fn duration_text(ms: int) -> Seq<char> {
    let seconds = (if ms < 0 {
        -ms
    } else {
        ms
    }) / 1000;
    let hours = seconds / 3600;
    let minutes = (seconds % 3600) / 60;
    if ms >= 0 && hours > 0 {
        decimal(hours as nat) + "h "@ + decimal(minutes as nat) + "m"@
    } else if ms < 0 && minutes > 0 {
        "-"@ + decimal(minutes as nat) + "m"@
    } else {
        decimal(minutes as nat) + "m"@
    }
}

fn format_duration(ms: i64) -> (r: String)
    ensures
        r@ == duration_text(ms as int),
{
    let size: u64 = if ms < 0 {
        (-(ms as i128)) as u64
    } else {
        ms as u64
    };
    let seconds: u64 = size / 1000;
    let hours: u64 = seconds / 3600;
    let minutes: u64 = (seconds % 3600) / 60;
    let mut out: String = String::new();
    if ms >= 0 && hours > 0 {
        push_decimal(&mut out, hours);
        push_text(&mut out, "h ");
    } else if ms < 0 && minutes > 0 {
        push_text(&mut out, "-");
    }
    push_decimal(&mut out, minutes);
    push_text(&mut out, "m");
    proof {
        assert(out@ =~= duration_text(ms as int));
    }
    out
}

fn grade_of(percent: F64) -> (r: String)
    ensures
        r@ == grade(percent),
{
    if F64::of_u64(90).le(percent) {
        "Great".to_string()
    } else if F64::of_u64(70).le(percent) {
        "Good".to_string()
    } else if F64::of_u64(40).le(percent) {
        "Okay".to_string()
    } else {
        "Bad".to_string()
    }
}

// ---------------------------------------------------------------------------
// Building
// ---------------------------------------------------------------------------

/// A drive's place in the period.
struct Placed {
    /// It counts.
    counts: bool,
    /// Its day and date, where it counts and its start is a time.
    day: Option<i64>,
    date: Option<String>,
}

spec fn is_placed(d: DriveSummary, start: Option<int>, p: Placed) -> bool {
    &&& p.counts == in_period(d, start)
    &&& p.day is Some <==> p.date is Some
    &&& match iso_seconds(d.start_time@) {
        Some(t) if p.counts => p.date is Some && p.date->0@ == date_text(t * 2000) && p.day->0
            == day_of(t) && -200_000_000 <= p.day->0 <= 200_000_000,
        _ => p.date is None,
    }
}

spec fn are_placed(ds: Seq<DriveSummary>, start: Option<int>, ps: Seq<Placed>) -> bool {
    &&& ps.len() == ds.len()
    &&& forall|i: int| 0 <= i < ds.len() ==> is_placed(ds[i], start, #[trigger] ps[i])
}

/// Whether a source is another than the car's own recording.
pub(crate) fn is_imported(source: &Option<String>) -> (r: bool)
    ensures
        r == imported(text_view(*source)),
{
    match source {
        Some(t) => !same_text(t.as_str(), "sei"),
        None => false,
    }
}

fn place(d: &DriveSummary, start: Option<i64>) -> (p: Placed)
    ensures
        is_placed(
            *d,
            match start {
                Some(s) => Some(s as int),
                None => None,
            },
            p,
        ),
{
    let own: bool = !is_imported(&d.source) && !d.summon;
    match read_iso(d.start_time.as_str()) {
        None => Placed { counts: own && start.is_none(), day: None, date: None },
        Some(parts) => {
            let day: i64 = day_number(parts.0);
            let counts: bool = own && match start {
                None => true,
                Some(first) => day >= first,
            };
            if counts {
                let date: String = format_date(parts.0 * 2000);
                Placed { counts, day: Some(day), date: Some(date) }
            } else {
                Placed { counts, day: None, date: None }
            }
        },
    }
}

fn place_all(ds: &[DriveSummary], start: Option<i64>) -> (ps: Vec<Placed>)
    ensures
        are_placed(
            ds@,
            match start {
                Some(s) => Some(s as int),
                None => None,
            },
            ps@,
        ),
{
    let mut out: Vec<Placed> = Vec::new();
    let mut i: usize = 0;
    while i < ds.len()
        invariant
            i <= ds@.len(),
            out@.len() == i,
            forall|k: int|
                0 <= k < i ==> is_placed(
                    ds@[k],
                    match start {
                        Some(s) => Some(s as int),
                        None => None,
                    },
                    #[trigger] out@[k],
                ),
        decreases ds.len() - i,
    {
        let p: Placed = place(&ds[i], start);
        out.push(p);
        i = i + 1;
    }
    out
}

/// Ascending, each once.
pub open spec fn is_ascending(keys: Seq<Seq<char>>) -> bool {
    forall|i: int, j: int|
        0 <= i < j < keys.len() ==> text_before(#[trigger] keys[i], #[trigger] keys[j])
}

/// Puts a text among texts that ascend, unless it stands there.
pub(crate) fn insert_text(keys: &mut Vec<String>, date: &String)
    requires
        is_ascending(texts(old(keys)@)),
    ensures
        is_ascending(texts(final(keys)@)),
        texts(final(keys)@).contains(date@),
        forall|k: Seq<char>|
            texts(final(keys)@).contains(k) <==> texts(old(keys)@).contains(k) || k == date@,
{
    let ghost before = texts(keys@);
    let cs: Vec<char> = chars_of(date.as_str());
    let mut p: usize = 0;
    let mut going: bool = true;
    while going && p < keys.len()
        invariant
            p <= keys@.len(),
            before == texts(keys@),
            cs@ == date@,
            forall|a: int| 0 <= a < p ==> text_before(#[trigger] before[a], date@),
            !going ==> p < keys@.len() && !text_before(before[p as int], date@),
        decreases keys.len() - p + (if going { 1int } else { 0int }),
    {
        let k: Vec<char> = chars_of(keys[p].as_str());
        proof {
            assert(before[p as int] == keys@[p as int]@);
        }
        if comes_before(k.as_slice(), cs.as_slice()) {
            p = p + 1;
        } else {
            going = false;
        }
    }
    if p < keys.len() && same_text(keys[p].as_str(), date.as_str()) {
        proof {
            assert(before[p as int] == date@);
        }
        return ;
    }
    let copy: String = date.clone();
    keys.insert(p, copy);
    proof {
        assert(texts(keys@) =~= before.insert(p as int, date@));
        let after = before.insert(p as int, date@);
        if p < before.len() {
            lemma_text_order(before[p as int], date@);
        }
        assert forall|i: int, j: int| 0 <= i < j < after.len() implies text_before(
            #[trigger] after[i],
            #[trigger] after[j],
        ) by {
            if i == p {
                if j - 1 > p {
                    assert(text_before(before[p as int], before[j - 1]));
                    lemma_text_order_chains(date@, before[p as int], before[j - 1]);
                }
            }
        }
        assert(after[p as int] == date@);
        assert forall|k: Seq<char>| #[trigger] after.contains(k) <==> before.contains(k) || k
            == date@ by {
            if before.contains(k) {
                let a = choose|a: int| 0 <= a < before.len() && before[a] == k;
                if a < p {
                    assert(after[a] == k);
                } else {
                    assert(after[a + 1] == k);
                }
            }
            if after.contains(k) {
                let a = choose|a: int| 0 <= a < after.len() && after[a] == k;
                if a < p {
                    assert(before[a] == k);
                } else if a > p {
                    assert(before[a - 1] == k);
                }
            }
        }
    }
}

/// Some drive that counts has this date.
spec fn is_dated(ds: Seq<DriveSummary>, start: Option<int>, date: Seq<char>) -> bool {
    exists|k: int| 0 <= k < ds.len() && #[trigger] date_of(ds, start, k) == Some(date)
}

/// The dates of the drives that count, ascending.
fn collect_dates(
    ds: &[DriveSummary],
    Ghost(start): Ghost<Option<int>>,
    ps: &Vec<Placed>,
) -> (keys: Vec<String>)
    requires
        are_placed(ds@, start, ps@),
    ensures
        is_ascending(texts(keys@)),
        forall|k: int|
            0 <= k < ds@.len() && (#[trigger] date_of(ds@, start, k)) is Some ==> texts(
                keys@,
            ).contains(date_of(ds@, start, k)->0),
        forall|a: int| 0 <= a < keys@.len() ==> is_dated(ds@, start, (#[trigger] keys@[a])@),
{
    let mut keys: Vec<String> = Vec::new();
    let mut i: usize = 0;
    while i < ps.len()
        invariant
            i <= ps@.len(),
            are_placed(ds@, start, ps@),
            is_ascending(texts(keys@)),
            forall|k: int|
                0 <= k < i && (#[trigger] date_of(ds@, start, k)) is Some ==> texts(
                    keys@,
                ).contains(date_of(ds@, start, k)->0),
            forall|t: Seq<char>|
                #[trigger] texts(keys@).contains(t) ==> exists|k: int|
                    0 <= k < i && #[trigger] date_of(ds@, start, k) == Some(t),
        decreases ps.len() - i,
    {
        proof {
            assert(is_placed(ds@[i as int], start, ps@[i as int]));
        }
        let ghost before = texts(keys@);
        match &ps[i].date {
            Some(d) => {
                insert_text(&mut keys, d);
                proof {
                    assert(date_of(ds@, start, i as int) == Some(d@));
                    assert forall|t: Seq<char>| #[trigger]
                        texts(keys@).contains(t) implies exists|k: int|
                        0 <= k < i + 1 && #[trigger] date_of(ds@, start, k) == Some(t) by {
                        if before.contains(t) {
                            let k = choose|k: int|
                                0 <= k < i && #[trigger] date_of(ds@, start, k) == Some(t);
                            assert(date_of(ds@, start, k) == Some(t));
                        }
                    }
                }
            },
            None => {
                proof {
                    assert(date_of(ds@, start, i as int) is None);
                }
            },
        }
        i = i + 1;
    }
    proof {
        assert forall|a: int| 0 <= a < keys@.len() implies is_dated(
            ds@,
            start,
            (#[trigger] keys@[a])@,
        ) by {
            assert(texts(keys@)[a] == keys@[a]@);
            assert(texts(keys@).contains(keys@[a]@));
        }
    }
    keys
}

fn marks_of_date(
    ds: &[DriveSummary],
    Ghost(start): Ghost<Option<int>>,
    ps: &Vec<Placed>,
    date: &String,
) -> (r: (Vec<bool>, Option<i64>))
    requires
        are_placed(ds@, start, ps@),
    ensures
        r.0@.len() == ds@.len(),
        marks(r.0@, of_date(ds@, start, date@)),
        ({
            let first = first_drive(of_date(ds@, start, date@), ds@.len() as int, 0);
            match r.1 {
                Some(day) => first < ds@.len() && day == day_of(
                    iso_seconds(ds@[first].start_time@)->0,
                ) && -200_000_000 <= day <= 200_000_000,
                None => first >= ds@.len(),
            }
        }),
{
    let ghost keep = of_date(ds@, start, date@);
    let mut out: Vec<bool> = Vec::new();
    let mut found: Option<i64> = None;
    let mut i: usize = 0;
    while i < ps.len()
        invariant
            i <= ps@.len(),
            are_placed(ds@, start, ps@),
            keep == of_date(ds@, start, date@),
            out@.len() == i,
            forall|k: int| 0 <= k < i ==> #[trigger] out@[k] == keep(k),
            match found {
                Some(day) => ({
                    let first = first_drive(keep, ds@.len() as int, 0);
                    first < ds@.len() && day == day_of(iso_seconds(ds@[first].start_time@)->0)
                        && -200_000_000 <= day <= 200_000_000
                }),
                None => first_drive(keep, ds@.len() as int, 0) == first_drive(
                    keep,
                    ds@.len() as int,
                    i as int,
                ),
            },
        decreases ps.len() - i,
    {
        proof {
            assert(is_placed(ds@[i as int], start, ps@[i as int]));
        }
        let here: bool = match &ps[i].date {
            Some(d) => same_text(d.as_str(), date.as_str()),
            None => false,
        };
        proof {
            assert(here == keep(i as int));
        }
        if here && found.is_none() {
            found = ps[i].day;
        }
        out.push(here);
        i = i + 1;
    }
    (out, found)
}

/// `v` held within the range of `i64`.
pub fn held64(v: i128) -> (r: i64)
    ensures
        r == hold64(v as int),
{
    if v > i64::MAX as i128 {
        i64::MAX
    } else if v < i64::MIN as i128 {
        i64::MIN
    } else {
        v as i64
    }
}

proof fn lemma_first_drive(keep: spec_fn(int) -> bool, n: int, i: int, k: int)
    requires
        0 <= i <= k < n,
        keep(k),
    ensures
        first_drive(keep, n, i) <= k,
    decreases k - i,
{
    if i < k && !keep(i) {
        lemma_first_drive(keep, n, i + 1, k);
    }
}

/// The row of one date.
fn build_day(
    ds: &[DriveSummary],
    Ghost(start): Ghost<Option<int>>,
    ps: &Vec<Placed>,
    date: &String,
) -> (row: FsdDayStats)
    requires
        are_placed(ds@, start, ps@),
        is_dated(ds@, start, date@),
    ensures
        row.date@ == date@,
        is_day(ds@, start, row),
{
    let ghost keep = of_date(ds@, start, date@);
    let kept: (Vec<bool>, Option<i64>) = marks_of_date(ds, Ghost(start), ps, date);
    proof {
        let k = choose|k: int|
            0 <= k < ds@.len() && #[trigger] date_of(ds@, start, k) == Some(date@);
        assert(keep(k));
        lemma_first_drive(keep, ds@.len() as int, 0, k);
    }
    let day: i64 = kept.1.unwrap();
    let fsd_km: F64 = add_distances(ds, &kept.0, Ghost(keep), Distance::FsdKm);
    let fsd_mi: F64 = add_distances(ds, &kept.0, Ghost(keep), Distance::FsdMi);
    let total_km: F64 = add_distances(ds, &kept.0, Ghost(keep), Distance::TotalKm);
    FsdDayStats {
        date: date.clone(),
        day_name: name_of_day(day),
        disengagements: held32(add_tallies(ds, &kept.0, Ghost(keep), Tally::Disengagements)),
        accel_pushes: held32(add_tallies(ds, &kept.0, Ghost(keep), Tally::AccelPushes)),
        fsd_percent: percentage(fsd_km, total_km),
        drives: held32(count_drives(&kept.0, Ghost(keep)) as i128),
        fsd_distance_km: round2(fsd_km),
        fsd_distance_mi: round2(fsd_mi),
        total_duration_ms: held64(add_tallies(ds, &kept.0, Ghost(keep), Tally::DurationMs)),
        fsd_engaged_ms: held64(add_tallies(ds, &kept.0, Ghost(keep), Tally::FsdMs)),
    }
}

fn build_days(
    ds: &[DriveSummary],
    Ghost(start): Ghost<Option<int>>,
    ps: &Vec<Placed>,
) -> (rows: Vec<FsdDayStats>)
    requires
        are_placed(ds@, start, ps@),
    ensures
        are_days(ds@, start, rows@),
{
    let keys: Vec<String> = collect_dates(ds, Ghost(start), ps);
    let mut rows: Vec<FsdDayStats> = Vec::new();
    let mut i: usize = 0;
    while i < keys.len()
        invariant
            i <= keys@.len(),
            are_placed(ds@, start, ps@),
            forall|a: int| 0 <= a < keys@.len() ==> is_dated(ds@, start, (#[trigger] keys@[a])@),
            rows@.len() == i,
            forall|a: int|
                0 <= a < i ==> (#[trigger] rows@[a]).date@ == keys@[a]@ && is_day(
                    ds@,
                    start,
                    rows@[a],
                ),
        decreases keys.len() - i,
    {
        let row: FsdDayStats = build_day(ds, Ghost(start), ps, &keys[i]);
        rows.push(row);
        i = i + 1;
    }
    proof {
        assert forall|a: int, b: int| 0 <= a < b < rows@.len() implies text_before(
            (#[trigger] rows@[a]).date@,
            (#[trigger] rows@[b]).date@,
        ) by {
            assert(texts(keys@)[a] == keys@[a]@);
            assert(texts(keys@)[b] == keys@[b]@);
        }
        assert forall|k: int|
            0 <= k < ds@.len() && (#[trigger] date_of(ds@, start, k)) is Some implies exists|i: int|
            0 <= i < rows@.len() && Some((#[trigger] rows@[i]).date@) == date_of(ds@, start, k) by {
            let t = date_of(ds@, start, k)->0;
            let a = choose|a: int| 0 <= a < texts(keys@).len() && texts(keys@)[a] == t;
            assert(rows@[a].date@ == t);
        }
    }
    rows
}

/// The place of a date among the rows.
fn find_day(rows: &Vec<FsdDayStats>, date: &str) -> (r: Option<usize>)
    ensures
        match r {
            Some(i) => i < rows@.len() && day_at(rows@, date@, 0) == Some(rows@[i as int]),
            None => day_at(rows@, date@, 0) is None,
        },
{
    let mut i: usize = 0;
    while i < rows.len()
        invariant
            i <= rows@.len(),
            day_at(rows@, date@, 0) == day_at(rows@, date@, i as int),
        decreases rows.len() - i,
    {
        if same_text(rows[i].date.as_str(), date) {
            return Some(i);
        }
        i = i + 1;
    }
    None
}

fn find_best(rows: &Vec<FsdDayStats>) -> (r: (F64, String))
    ensures
        (r.0, r.1@) == best_of(rows@, rows@.len() as int),
{
    let mut percent: F64 = F64::from_bits(0);
    let mut at: Option<usize> = None;
    let mut i: usize = 0;
    while i < rows.len()
        invariant
            i <= rows@.len(),
            match at {
                Some(k) => k < i && best_of(rows@, i as int) == (percent, rows@[k as int].date@),
                None => best_of(rows@, i as int) == (percent, Seq::<char>::empty()),
            },
        decreases rows.len() - i,
    {
        if percent.lt(rows[i].fsd_percent) {
            percent = rows[i].fsd_percent;
            at = Some(i);
        }
        i = i + 1;
    }
    match at {
        Some(k) => (percent, rows[k].date.clone()),
        None => {
            let e: String = String::new();
            proof {
                assert(e@ =~= Seq::<char>::empty());
            }
            (percent, e)
        },
    }
}

fn count_streak(rows: &Vec<FsdDayStats>, today: i64) -> (r: i32)
    requires
        FIRST_DAY <= today <= LAST_DAY,
    ensures
        r == hold32(streak(rows@, today as int, rows@.len() as int)),
{
    let mut day: i64 = today;
    let mut left: usize = rows.len();
    let mut found: i128 = 0;
    let mut going: bool = true;
    while going && left > 0 && day >= FIRST_DAY
        invariant
            FIRST_DAY - 1 <= day <= LAST_DAY,
            0 <= found,
            found + left <= usize::MAX,
            streak(rows@, today as int, rows@.len() as int) == found + if going {
                streak(rows@, day as int, left as int)
            } else {
                0
            },
        decreases left + (if going { 1int } else { 0int }),
    {
        let date: String = format_date(day * DAY_STEPS);
        let engaged: bool = match find_day(rows, date.as_str()) {
            Some(i) => rows[i].fsd_engaged_ms > 0,
            None => false,
        };
        if engaged {
            found = found + 1;
            day = day - 1;
            left = left - 1;
        } else {
            going = false;
        }
    }
    held32(found)
}

/// An average per drive; zero without drives.
pub open spec fn per_drive(sum: int, drives: int) -> F64 {
    if drives > 0 {
        rounded2(fdiv(from_int(sum), from_int(drives)))
    } else {
        zero()
    }
}

fn average(sum: i32, drives: usize) -> (r: F64)
    ensures
        r == per_drive(sum as int, drives as int),
{
    if drives > 0 {
        round2(F64::of_i64(sum as i64).over(F64::of_usize(drives)))
    } else {
        F64::from_bits(0)
    }
}

/// How many of the drives that `keep` drove themselves at all.
pub open spec fn sessions(ds: Seq<DriveSummary>, keep: spec_fn(int) -> bool) -> spec_fn(
    int,
) -> bool {
    |i: int| keep(i) && ds[i].fsd_engaged_ms > 0
}

/// `a` are the statistics of the drives `ds` on the day `today`.
pub open spec fn are_analytics(
    ds: Seq<DriveSummary>,
    period: Seq<char>,
    today: int,
    a: FsdAnalytics,
) -> bool {
    let n = ds.len() as int;
    let start = period_start(period, today);
    let keep = of_period(ds, start);
    let total_km = distance_sum(ds, keep, Distance::TotalKm, n);
    let fsd_km = distance_sum(ds, keep, Distance::FsdKm, n);
    let steer_km = distance_sum(ds, keep, Distance::AutosteerKm, n);
    let tacc_km = distance_sum(ds, keep, Distance::TaccKm, n);
    &&& a.period@ == period
    &&& a.period_start@ == match start {
        Some(day) => day_text(day),
        None => Seq::<char>::empty(),
    }
    &&& a.total_drives == hold32(drive_count(keep, n))
    &&& a.fsd_sessions == hold32(drive_count(sessions(ds, keep), n))
    &&& a.fsd_percent == share_percent(fsd_km, total_km)
    &&& a.today_percent == percent_on(a.daily@, day_text(today))
    &&& (a.best_day_percent, a.best_day@) == best_of(a.daily@, a.daily@.len() as int)
    &&& a.fsd_engaged_ms == hold64(tally_sum(ds, keep, Tally::FsdMs, n))
    &&& a.fsd_distance_km == rounded2(fsd_km)
    &&& a.fsd_distance_mi == rounded2(distance_sum(ds, keep, Distance::FsdMi, n))
    &&& a.total_distance_km == rounded2(total_km)
    &&& a.total_distance_mi == rounded2(distance_sum(ds, keep, Distance::TotalMi, n))
    &&& a.disengagements == hold32(tally_sum(ds, keep, Tally::Disengagements, n))
    &&& a.accel_pushes == hold32(tally_sum(ds, keep, Tally::AccelPushes, n))
    &&& are_days(ds, start, a.daily@)
    &&& a.fsd_grade@ == grade(a.fsd_percent)
    &&& a.streak_days == hold32(streak(a.daily@, today, a.daily@.len() as int))
    &&& a.fsd_time_formatted@ == duration_text(a.fsd_engaged_ms as int)
    &&& a.avg_disengagements_per_drive == per_drive(
        a.disengagements as int,
        drive_count(keep, n),
    )
    &&& a.avg_accel_pushes_per_drive == per_drive(a.accel_pushes as int, drive_count(keep, n))
    &&& a.autosteer_engaged_ms == hold64(tally_sum(ds, keep, Tally::AutosteerMs, n))
    &&& a.autosteer_distance_km == rounded2(steer_km)
    &&& a.autosteer_distance_mi == rounded2(distance_sum(ds, keep, Distance::AutosteerMi, n))
    &&& a.tacc_engaged_ms == hold64(tally_sum(ds, keep, Tally::TaccMs, n))
    &&& a.tacc_distance_km == rounded2(tacc_km)
    &&& a.tacc_distance_mi == rounded2(distance_sum(ds, keep, Distance::TaccMi, n))
    &&& a.assisted_percent == share_percent(fadd(fadd(fsd_km, steer_km), tacc_km), total_km)
}

/// Self-driving statistics for the period `day`, `week` or any other name for no
/// limit. `today` is the current day, counted from 1970-01-01.
#[verifier::rlimit(40)]
pub fn build_fsd_analytics(ds: &[DriveSummary], period: &str, today: i64) -> (a: FsdAnalytics)
    requires
        FIRST_DAY <= today <= LAST_DAY,
    ensures
        are_analytics(ds@, period@, today as int, a),
{
    let first: Option<i64> = if same_text(period, "day") {
        Some(today)
    } else if same_text(period, "week") {
        Some(today - 7)
    } else {
        None
    };
    let ghost start = period_start(period@, today as int);
    proof {
        assert(start == match first {
            Some(s) => Some(s as int),
            None => None,
        });
    }
    let ps: Vec<Placed> = place_all(ds, first);
    let mut kept: Vec<bool> = Vec::new();
    let mut engaged: Vec<bool> = Vec::new();
    let ghost keep = of_period(ds@, start);
    let ghost drove = sessions(ds@, keep);
    let mut i: usize = 0;
    while i < ds.len()
        invariant
            i <= ds@.len(),
            are_placed(ds@, start, ps@),
            keep == of_period(ds@, start),
            drove == sessions(ds@, keep),
            kept@.len() == i,
            engaged@.len() == i,
            marks(kept@, keep),
            marks(engaged@, drove),
        decreases ds.len() - i,
    {
        proof {
            assert(is_placed(ds@[i as int], start, ps@[i as int]));
        }
        kept.push(ps[i].counts);
        engaged.push(ps[i].counts && ds[i].fsd_engaged_ms > 0);
        i = i + 1;
    }
    let period_start: String = match first {
        Some(day) => format_date(day * DAY_STEPS),
        None => {
            let e: String = String::new();
            proof {
                assert(e@ =~= Seq::<char>::empty());
            }
            e
        },
    };
    let total_km: F64 = add_distances(ds, &kept, Ghost(keep), Distance::TotalKm);
    let fsd_km: F64 = add_distances(ds, &kept, Ghost(keep), Distance::FsdKm);
    let steer_km: F64 = add_distances(ds, &kept, Ghost(keep), Distance::AutosteerKm);
    let tacc_km: F64 = add_distances(ds, &kept, Ghost(keep), Distance::TaccKm);
    let drives: usize = count_drives(&kept, Ghost(keep));
    let disengagements: i32 = held32(add_tallies(ds, &kept, Ghost(keep), Tally::Disengagements));
    let accel_pushes: i32 = held32(add_tallies(ds, &kept, Ghost(keep), Tally::AccelPushes));
    let fsd_engaged_ms: i64 = held64(add_tallies(ds, &kept, Ghost(keep), Tally::FsdMs));
    let daily: Vec<FsdDayStats> = build_days(ds, Ghost(start), &ps);
    let today_text: String = format_date(today * DAY_STEPS);
    let today_percent: F64 = match find_day(&daily, today_text.as_str()) {
        Some(k) => daily[k].fsd_percent,
        None => F64::from_bits(0),
    };
    let best: (F64, String) = find_best(&daily);
    let streak_days: i32 = count_streak(&daily, today);
    let fsd_percent: F64 = percentage(fsd_km, total_km);
    FsdAnalytics {
        period: period.to_string(),
        period_start,
        total_drives: held32(drives as i128),
        fsd_sessions: held32(count_drives(&engaged, Ghost(drove)) as i128),
        fsd_percent,
        today_percent,
        best_day: best.1,
        best_day_percent: best.0,
        fsd_engaged_ms,
        fsd_distance_km: round2(fsd_km),
        fsd_distance_mi: round2(add_distances(ds, &kept, Ghost(keep), Distance::FsdMi)),
        total_distance_km: round2(total_km),
        total_distance_mi: round2(add_distances(ds, &kept, Ghost(keep), Distance::TotalMi)),
        disengagements,
        accel_pushes,
        daily,
        fsd_grade: grade_of(fsd_percent),
        streak_days,
        fsd_time_formatted: format_duration(fsd_engaged_ms),
        avg_disengagements_per_drive: average(disengagements, drives),
        avg_accel_pushes_per_drive: average(accel_pushes, drives),
        autosteer_engaged_ms: held64(add_tallies(ds, &kept, Ghost(keep), Tally::AutosteerMs)),
        autosteer_distance_km: round2(steer_km),
        autosteer_distance_mi: round2(
            add_distances(ds, &kept, Ghost(keep), Distance::AutosteerMi),
        ),
        tacc_engaged_ms: held64(add_tallies(ds, &kept, Ghost(keep), Tally::TaccMs)),
        tacc_distance_km: round2(tacc_km),
        tacc_distance_mi: round2(add_distances(ds, &kept, Ghost(keep), Distance::TaccMi)),
        assisted_percent: percentage(fsd_km.plus(steer_km).plus(tacc_km), total_km),
    }
}

/// Statistics of the week from rows at hand.
pub fn fsd_analytics_from_drives(drives: &[DriveSummary], today: i64) -> (a: FsdAnalytics)
    requires
        FIRST_DAY <= today <= LAST_DAY,
    ensures
        are_analytics(drives@, "week"@, today as int, a),
{
    build_fsd_analytics(drives, "week", today)
}

/// Statistics of a period from stored clips.
pub fn fsd_analytics_from_summaries_for_period<G: Fn(F64, F64, F64, F64) -> F64>(
    summaries: &[RouteSummary],
    period: &str,
    today: i64,
    geodesic: G,
) -> (a: FsdAnalytics)
    requires
        FIRST_DAY <= today <= LAST_DAY,
        summaries_fit(summaries@),
        flag_runs_fit(summaries@),
        forall|w: F64, x: F64, y: F64, z: F64| call_requires(geodesic, (w, x, y, z)),
    ensures
        exists|ds: Seq<DriveSummary>|
            #[trigger] are_rows(summaries@, Seq::<TagEntry>::empty(), geodesic, ds)
                && are_analytics(ds, period@, today as int, a),
{
    let tags: Vec<TagEntry> = Vec::new();
    proof {
        assert(tags@ =~= Seq::<TagEntry>::empty());
    }
    let rows: Vec<DriveSummary> = group_summaries_fast(summaries, tags.as_slice(), geodesic);
    let a: FsdAnalytics = build_fsd_analytics(rows.as_slice(), period, today);
    proof {
        assert(are_rows(summaries@, Seq::<TagEntry>::empty(), geodesic, rows@));
    }
    a
}

// ---------------------------------------------------------------------------
// Laws
// ---------------------------------------------------------------------------

/// A drive that does not count leaves every sum as it is: imported drives,
/// summons and drives before the period cannot move a score.
pub proof fn law_others_do_not_count(
    ds: Seq<DriveSummary>,
    d: DriveSummary,
    start: Option<int>,
    distance: Distance,
    tally: Tally,
    n: int,
)
    requires
        !in_period(d, start),
        0 <= n <= ds.len() + 1,
    ensures
        ({
            let more = ds.push(d);
            let m = if n <= ds.len() {
                n
            } else {
                ds.len() as int
            };
            &&& distance_sum(more, of_period(more, start), distance, n) == distance_sum(
                ds,
                of_period(ds, start),
                distance,
                m,
            )
            &&& tally_sum(more, of_period(more, start), tally, n) == tally_sum(
                ds,
                of_period(ds, start),
                tally,
                m,
            )
            &&& drive_count(of_period(more, start), n) == drive_count(of_period(ds, start), m)
        }),
    decreases n,
{
    if n > 0 {
        law_others_do_not_count(ds, d, start, distance, tally, n - 1);
    }
}

/// A streak is no longer than the number of days with a row.
pub proof fn law_streak_is_bounded(rows: Seq<FsdDayStats>, day: int, left: int)
    requires
        0 <= left,
    ensures
        0 <= streak(rows, day, left) <= left,
    decreases left,
{
    if left > 0 {
        law_streak_is_bounded(rows, day - 1, left - 1);
    }
}

} // verus!
