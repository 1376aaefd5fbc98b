//! What statistics and totals tell of the drives.

use crate::analytics::{
    Distance, Tally, are_analytics, best_of, date_of, day_at, day_text, distance_in, distance_sum,
    drive_count, duration_text, engaged_on, first_drive, in_period, is_day, of_date, of_period,
    period_start, sessions, share_percent, streak, tally_in, tally_sum, weekday_name,
};
use crate::calc::rounded2;
use crate::clock::{date_text, iso_seconds};
use crate::float::{F64, fadd, fdiv, fle, flt, from_int, is_nan, zero};
use crate::nearness::{
    lemma_near_itself, lemma_near_more, lemma_near_sum, lemma_total_within, lemma_within_more,
    near, total, within,
};
use crate::rounding::{lemma_one, one, size_of};
use crate::row_laws::tally;
use crate::summary::{hold32, hold64};
use crate::summary_laws::tame;
use crate::text::{decimal, lemma_text_order, text_before};
use crate::totals::{DriveTotals, are_totals, every_drive, recorded};
use crate::types::{DriveSummary, FsdAnalytics, FsdDayStats};
use vstd::prelude::*;

verus! {

// ---------------------------------------------------------------------------
// Sums over drives
// ---------------------------------------------------------------------------

/// The drives of the first `n` that are kept.
pub open spec fn drives_where(keep: spec_fn(int) -> bool, n: int) -> Set<int> {
    Set::new(|i: int| 0 <= i < n && keep(i))
}

proof fn lemma_drive_count(keep: spec_fn(int) -> bool, n: int)
    ensures
        drives_where(keep, n).finite(),
        drive_count(keep, n) == drives_where(keep, n).len(),
    decreases n,
{
    let s = drives_where(keep, n);
    if n <= 0 {
        assert(s =~= Set::empty());
    } else {
        lemma_drive_count(keep, n - 1);
        if keep(n - 1) {
            assert(s =~= drives_where(keep, n - 1).insert(n - 1));
        } else {
            assert(s =~= drives_where(keep, n - 1));
        }
    }
}

/// Whole numbers of the drives that are kept.
pub open spec fn whole_where(
    f: spec_fn(int) -> int,
    keep: spec_fn(int) -> bool,
) -> spec_fn(int) -> int {
    |i: int|
        if keep(i) {
            f(i)
        } else {
            0
        }
}

proof fn lemma_tally_sum(
    ds: Seq<DriveSummary>,
    keep: spec_fn(int) -> bool,
    what: Tally,
    f: spec_fn(int) -> int,
    n: int,
)
    requires
        0 <= n <= ds.len(),
        forall|i: int| 0 <= i < ds.len() ==> #[trigger] f(i) == tally_in(ds[i], what),
    ensures
        tally_sum(ds, keep, what, n) == tally(whole_where(f, keep), n),
    decreases n,
{
    if n > 0 {
        lemma_tally_sum(ds, keep, what, f, n - 1);
        assert(f(n - 1) == tally_in(ds[n - 1], what));
    }
}

/// Units of the drives that are kept.
pub open spec fn drive_units(
    f: spec_fn(int) -> F64,
    keep: spec_fn(int) -> bool,
) -> spec_fn(int) -> nat {
    |i: int|
        if keep(i) {
            size_of(f(i))
        } else {
            0
        }
}

/// `m` is the sum of the drives that are kept, up to rounding.
pub open spec fn is_sum_of(m: F64, f: spec_fn(int) -> F64, keep: spec_fn(int) -> bool, n: int) -> bool {
    near(m, total(drive_units(f, keep), n), one(), n as nat)
}

proof fn lemma_distance_sum(
    ds: Seq<DriveSummary>,
    keep: spec_fn(int) -> bool,
    what: Distance,
    f: spec_fn(int) -> F64,
    n: int,
)
    requires
        0 <= n <= ds.len(),
        n <= 0x8000_0000,
        forall|i: int| 0 <= i < ds.len() ==> #[trigger] f(i) == distance_in(ds[i], what),
        forall|i: int| 0 <= i < ds.len() ==> tame(#[trigger] f(i)),
    ensures
        is_sum_of(distance_sum(ds, keep, what, n), f, keep, n),
    decreases n,
{
    let u = one();
    let q = drive_units(f, keep);
    lemma_one();
    if n <= 0 {
        assert(size_of(zero()) == 0);
        assert(0 * one() == 0) by (nonlinear_arith);
    } else {
        lemma_distance_sum(ds, keep, what, f, n - 1);
        assert(f(n - 1) == distance_in(ds[n - 1], what));
        assert forall|i: int| 0 <= i < n - 1 implies within(#[trigger] q(i), u, 100) by {
            assert(tame(f(i)));
            vstd::arithmetic::power2::lemma_pow2_pos(100);
        }
        lemma_total_within(q, n - 1, u, 100);
        let a = distance_sum(ds, keep, what, n - 1);
        let e = (n - 1) as nat;
        if keep(n - 1) {
            let b = f(n - 1);
            assert(tame(b));
            lemma_near_itself(b);
            lemma_near_more(b, size_of(b), u, 0, e);
            lemma_within_more(total(q, n - 1), u, 132, 900);
            lemma_within_more(size_of(b), u, 100, 900);
            lemma_near_sum(a, b, total(q, n - 1), size_of(b), u, e);
        } else {
            lemma_near_more(a, total(q, n - 1), u, e, n as nat);
        }
    }
}

pub open spec fn km_of(ds: Seq<DriveSummary>) -> spec_fn(int) -> F64 {
    |i: int| ds[i].distance_km
}

pub open spec fn mi_of(ds: Seq<DriveSummary>) -> spec_fn(int) -> F64 {
    |i: int| ds[i].distance_mi
}

pub open spec fn fsd_km_of(ds: Seq<DriveSummary>) -> spec_fn(int) -> F64 {
    |i: int| ds[i].fsd_distance_km
}

pub open spec fn fsd_mi_of(ds: Seq<DriveSummary>) -> spec_fn(int) -> F64 {
    |i: int| ds[i].fsd_distance_mi
}

pub open spec fn steer_km_of(ds: Seq<DriveSummary>) -> spec_fn(int) -> F64 {
    |i: int| ds[i].autosteer_distance_km
}

pub open spec fn steer_mi_of(ds: Seq<DriveSummary>) -> spec_fn(int) -> F64 {
    |i: int| ds[i].autosteer_distance_mi
}

pub open spec fn tacc_km_of(ds: Seq<DriveSummary>) -> spec_fn(int) -> F64 {
    |i: int| ds[i].tacc_distance_km
}

pub open spec fn tacc_mi_of(ds: Seq<DriveSummary>) -> spec_fn(int) -> F64 {
    |i: int| ds[i].tacc_distance_mi
}

/// Distances of the drives are in order.
pub open spec fn drives_tame(ds: Seq<DriveSummary>) -> bool {
    &&& ds.len() <= 0x8000_0000
    &&& forall|i: int|
        0 <= i < ds.len() ==> tame((#[trigger] ds[i]).distance_km) && tame(ds[i].distance_mi) && tame(
            ds[i].fsd_distance_km,
        ) && tame(ds[i].fsd_distance_mi) && tame(ds[i].autosteer_distance_km) && tame(
            ds[i].autosteer_distance_mi,
        ) && tame(ds[i].tacc_distance_km) && tame(ds[i].tacc_distance_mi)
}

proof fn lemma_all_sums(ds: Seq<DriveSummary>, keep: spec_fn(int) -> bool)
    requires
        drives_tame(ds),
    ensures
        ({
            let n = ds.len() as int;
            &&& is_sum_of(distance_sum(ds, keep, Distance::TotalKm, n), km_of(ds), keep, n)
            &&& is_sum_of(distance_sum(ds, keep, Distance::TotalMi, n), mi_of(ds), keep, n)
            &&& is_sum_of(distance_sum(ds, keep, Distance::FsdKm, n), fsd_km_of(ds), keep, n)
            &&& is_sum_of(distance_sum(ds, keep, Distance::FsdMi, n), fsd_mi_of(ds), keep, n)
            &&& is_sum_of(distance_sum(ds, keep, Distance::AutosteerKm, n), steer_km_of(ds), keep, n)
            &&& is_sum_of(distance_sum(ds, keep, Distance::AutosteerMi, n), steer_mi_of(ds), keep, n)
            &&& is_sum_of(distance_sum(ds, keep, Distance::TaccKm, n), tacc_km_of(ds), keep, n)
            &&& is_sum_of(distance_sum(ds, keep, Distance::TaccMi, n), tacc_mi_of(ds), keep, n)
        }),
{
    let n = ds.len() as int;
    lemma_one_sum(ds, keep, Distance::TotalKm, km_of(ds));
    lemma_one_sum(ds, keep, Distance::TotalMi, mi_of(ds));
    lemma_one_sum(ds, keep, Distance::FsdKm, fsd_km_of(ds));
    lemma_one_sum(ds, keep, Distance::FsdMi, fsd_mi_of(ds));
    lemma_one_sum(ds, keep, Distance::AutosteerKm, steer_km_of(ds));
    lemma_one_sum(ds, keep, Distance::AutosteerMi, steer_mi_of(ds));
    lemma_one_sum(ds, keep, Distance::TaccKm, tacc_km_of(ds));
    lemma_one_sum(ds, keep, Distance::TaccMi, tacc_mi_of(ds));
}

proof fn lemma_one_sum(
    ds: Seq<DriveSummary>,
    keep: spec_fn(int) -> bool,
    what: Distance,
    f: spec_fn(int) -> F64,
)
    requires
        drives_tame(ds),
        forall|i: int| 0 <= i < ds.len() ==> #[trigger] f(i) == distance_in(ds[i], what),
    ensures
        is_sum_of(distance_sum(ds, keep, what, ds.len() as int), f, keep, ds.len() as int),
{
    assert forall|i: int| 0 <= i < ds.len() implies tame(#[trigger] f(i)) by {
        assert(f(i) == distance_in(ds[i], what));
        assert(tame(ds[i].distance_km));
    }
    lemma_distance_sum(ds, keep, what, f, ds.len() as int);
}

pub open spec fn lasting(ds: Seq<DriveSummary>) -> spec_fn(int) -> int {
    |i: int| ds[i].duration_ms as int
}

pub open spec fn fsd_lasting(ds: Seq<DriveSummary>) -> spec_fn(int) -> int {
    |i: int| ds[i].fsd_engaged_ms as int
}

pub open spec fn steer_lasting(ds: Seq<DriveSummary>) -> spec_fn(int) -> int {
    |i: int| ds[i].autosteer_engaged_ms as int
}

pub open spec fn tacc_lasting(ds: Seq<DriveSummary>) -> spec_fn(int) -> int {
    |i: int| ds[i].tacc_engaged_ms as int
}

pub open spec fn times_left(ds: Seq<DriveSummary>) -> spec_fn(int) -> int {
    |i: int| ds[i].fsd_disengagements as int
}

pub open spec fn times_pushed(ds: Seq<DriveSummary>) -> spec_fn(int) -> int {
    |i: int| ds[i].fsd_accel_pushes as int
}

proof fn lemma_all_tallies(ds: Seq<DriveSummary>, keep: spec_fn(int) -> bool)
    ensures
        ({
            let n = ds.len() as int;
            &&& tally_sum(ds, keep, Tally::DurationMs, n) == tally(whole_where(lasting(ds), keep), n)
            &&& tally_sum(ds, keep, Tally::FsdMs, n) == tally(whole_where(fsd_lasting(ds), keep), n)
            &&& tally_sum(ds, keep, Tally::AutosteerMs, n) == tally(
                whole_where(steer_lasting(ds), keep),
                n,
            )
            &&& tally_sum(ds, keep, Tally::TaccMs, n) == tally(
                whole_where(tacc_lasting(ds), keep),
                n,
            )
            &&& tally_sum(ds, keep, Tally::Disengagements, n) == tally(
                whole_where(times_left(ds), keep),
                n,
            )
            &&& tally_sum(ds, keep, Tally::AccelPushes, n) == tally(
                whole_where(times_pushed(ds), keep),
                n,
            )
        }),
{
    let n = ds.len() as int;
    lemma_tally_sum(ds, keep, Tally::DurationMs, lasting(ds), n);
    lemma_tally_sum(ds, keep, Tally::FsdMs, fsd_lasting(ds), n);
    lemma_tally_sum(ds, keep, Tally::AutosteerMs, steer_lasting(ds), n);
    lemma_tally_sum(ds, keep, Tally::TaccMs, tacc_lasting(ds), n);
    lemma_tally_sum(ds, keep, Tally::Disengagements, times_left(ds), n);
    lemma_tally_sum(ds, keep, Tally::AccelPushes, times_pushed(ds), n);
}

// ---------------------------------------------------------------------------
// Statistics of a period
// ---------------------------------------------------------------------------

/// Drive `i` is the car's own recording.
pub open spec fn own_drive(d: DriveSummary) -> bool {
    d.source is None || d.source->0@ == "sei"@
}

/// Drives that count: the car's own, with someone in it, from day `start` on.
pub open spec fn counting(ds: Seq<DriveSummary>, start: Option<int>) -> spec_fn(int) -> bool {
    |i: int|
        own_drive(ds[i]) && !ds[i].summon && (start is None || iso_seconds(ds[i].start_time@) is Some
            && iso_seconds(ds[i].start_time@)->0 >= start->0 * 86_400)
}

/// The period begins today, seven days ago, or at no day.
pub open spec fn begins(period: Seq<char>, today: int) -> Option<int> {
    if period == "day"@ {
        Some(today)
    } else if period == "week"@ {
        Some(today - 7)
    } else {
        None
    }
}

proof fn lemma_counting(ds: Seq<DriveSummary>, start: Option<int>, i: int)
    ensures
        of_period(ds, start)(i) == counting(ds, start)(i),
{
    if start is Some && iso_seconds(ds[i].start_time@) is Some {
        let t = iso_seconds(ds[i].start_time@)->0;
        let first = start->0;
        assert((t / 86_400 >= first) == (t >= first * 86_400));
    }
}

/// Statistics count the drives of the period, those that drove themselves at all, and add
/// up their times and what their drivers did.
pub proof fn law_statistics_count_the_period(
    ds: Seq<DriveSummary>,
    period: Seq<char>,
    today: int,
    a: FsdAnalytics,
)
    requires
        are_analytics(ds, period, today, a),
    ensures
        ({
            let n = ds.len() as int;
            let keep = counting(ds, begins(period, today));
            let drives = drives_where(keep, n).len() as int;
            &&& a.total_drives == hold32(drives)
            &&& a.fsd_sessions == hold32(
                drives_where(|i: int| keep(i) && ds[i].fsd_engaged_ms > 0, n).len() as int,
            )
            &&& a.fsd_engaged_ms == hold64(tally(whole_where(fsd_lasting(ds), keep), n))
            &&& a.autosteer_engaged_ms == hold64(tally(whole_where(steer_lasting(ds), keep), n))
            &&& a.tacc_engaged_ms == hold64(tally(whole_where(tacc_lasting(ds), keep), n))
            &&& a.disengagements == hold32(tally(whole_where(times_left(ds), keep), n))
            &&& a.accel_pushes == hold32(tally(whole_where(times_pushed(ds), keep), n))
            &&& drives > 0 ==> a.avg_disengagements_per_drive == rounded2(
                fdiv(from_int(a.disengagements as int), from_int(drives)),
            )
            &&& drives > 0 ==> a.avg_accel_pushes_per_drive == rounded2(
                fdiv(from_int(a.accel_pushes as int), from_int(drives)),
            )
            &&& drives == 0 ==> a.avg_disengagements_per_drive == zero()
                && a.avg_accel_pushes_per_drive == zero()
        }),
{
    let n = ds.len() as int;
    let start = begins(period, today);
    let (keep, hold) = (counting(ds, start), of_period(ds, start));
    assert(start == period_start(period, today));
    assert forall|i: int| #[trigger] keep(i) == hold(i) by {
        lemma_counting(ds, start, i);
    }
    assert(keep =~= hold);
    lemma_all_tallies(ds, keep);
    lemma_drive_count(keep, n);
    let some = |i: int| keep(i) && ds[i].fsd_engaged_ms > 0;
    assert(some =~= sessions(ds, hold));
    lemma_drive_count(some, n);
}

/// The distances in the statistics are the sums over the drives of the period, up to
/// rounding; the shares are taken of the whole distance.
pub proof fn law_statistics_add_up_the_distances(
    ds: Seq<DriveSummary>,
    period: Seq<char>,
    today: int,
    a: FsdAnalytics,
)
    requires
        are_analytics(ds, period, today, a),
        drives_tame(ds),
    ensures
        exists|km: F64, fsd: F64, steer: F64, tacc: F64|
            {
                let n = ds.len() as int;
                let keep = counting(ds, begins(period, today));
                &&& #[trigger] statistics_show(a, km, fsd, steer, tacc)
                &&& is_sum_of(km, km_of(ds), keep, n)
                &&& is_sum_of(fsd, fsd_km_of(ds), keep, n)
                &&& is_sum_of(steer, steer_km_of(ds), keep, n)
                &&& is_sum_of(tacc, tacc_km_of(ds), keep, n)
            },
        exists|mi: F64|
            #[trigger] is_sum_of(
                mi,
                mi_of(ds),
                counting(ds, begins(period, today)),
                ds.len() as int,
            ) && a.total_distance_mi == rounded2(mi),
        exists|mi: F64|
            #[trigger] is_sum_of(
                mi,
                fsd_mi_of(ds),
                counting(ds, begins(period, today)),
                ds.len() as int,
            ) && a.fsd_distance_mi == rounded2(mi),
        exists|mi: F64|
            #[trigger] is_sum_of(
                mi,
                steer_mi_of(ds),
                counting(ds, begins(period, today)),
                ds.len() as int,
            ) && a.autosteer_distance_mi == rounded2(mi),
        exists|mi: F64|
            #[trigger] is_sum_of(
                mi,
                tacc_mi_of(ds),
                counting(ds, begins(period, today)),
                ds.len() as int,
            ) && a.tacc_distance_mi == rounded2(mi),
{
    let n = ds.len() as int;
    let start = begins(period, today);
    let (keep, hold) = (counting(ds, start), of_period(ds, start));
    assert(start == period_start(period, today));
    assert forall|i: int| #[trigger] keep(i) == hold(i) by {
        lemma_counting(ds, start, i);
    }
    assert(keep =~= hold);
    lemma_all_sums(ds, keep);
    assert(statistics_show(
        a,
        distance_sum(ds, keep, Distance::TotalKm, n),
        distance_sum(ds, keep, Distance::FsdKm, n),
        distance_sum(ds, keep, Distance::AutosteerKm, n),
        distance_sum(ds, keep, Distance::TaccKm, n),
    ));
}

/// These kilometres stand in the statistics, and as shares of the whole.
pub open spec fn statistics_show(a: FsdAnalytics, km: F64, fsd: F64, steer: F64, tacc: F64) -> bool {
    &&& a.total_distance_km == rounded2(km)
    &&& a.fsd_distance_km == rounded2(fsd)
    &&& a.autosteer_distance_km == rounded2(steer)
    &&& a.tacc_distance_km == rounded2(tacc)
    &&& a.fsd_percent == share_percent(fsd, km)
    &&& a.assisted_percent == share_percent(fadd(fadd(fsd, steer), tacc), km)
}

/// Statistics grade the share of full self-driving: 90 percent is great, 70 good, 40 okay.
pub proof fn law_shares_are_graded(ds: Seq<DriveSummary>, period: Seq<char>, today: int, a: FsdAnalytics)
    requires
        are_analytics(ds, period, today, a),
    ensures
        a.fsd_grade@ == "Great"@ <==> fle(from_int(90), a.fsd_percent),
        a.fsd_grade@ == "Good"@ <==> fle(from_int(70), a.fsd_percent) && !fle(
            from_int(90),
            a.fsd_percent,
        ),
        a.fsd_grade@ == "Okay"@ <==> fle(from_int(40), a.fsd_percent) && !fle(
            from_int(70),
            a.fsd_percent,
        ) && !fle(from_int(90), a.fsd_percent),
        a.fsd_grade@ == "Bad"@ <==> !fle(from_int(40), a.fsd_percent) && !fle(
            from_int(70),
            a.fsd_percent,
        ) && !fle(from_int(90), a.fsd_percent),
{
    reveal_strlit("Great");
    reveal_strlit("Good");
    reveal_strlit("Okay");
    reveal_strlit("Bad");
    assert("Great"@.len() == 5 && "Good"@.len() == 4 && "Okay"@.len() == 4 && "Bad"@.len() == 3);
    assert("Good"@[0] == 'G' && "Okay"@[0] == 'O');
}

// ---------------------------------------------------------------------------
// Days
// ---------------------------------------------------------------------------

proof fn lemma_day_at(rows: Seq<FsdDayStats>, date: Seq<char>, i: int)
    requires
        0 <= i <= rows.len(),
        forall|j: int| 0 <= j < i ==> (#[trigger] rows[j]).date@ != date,
    ensures
        match day_at(rows, date, i) {
            Some(row) => exists|j: int| 0 <= j < rows.len() && #[trigger] rows[j] == row && row.date@ == date,
            None => forall|j: int| 0 <= j < rows.len() ==> (#[trigger] rows[j]).date@ != date,
        },
    decreases rows.len() - i,
{
    if i < rows.len() {
        if rows[i].date@ != date {
            lemma_day_at(rows, date, i + 1);
        } else {
            assert(rows[i] == day_at(rows, date, i)->0);
        }
    }
}

proof fn lemma_dates_differ(rows: Seq<FsdDayStats>, i: int, j: int)
    requires
        0 <= i < rows.len(),
        0 <= j < rows.len(),
        rows[i].date@ == rows[j].date@,
        forall|i: int, j: int|
            0 <= i < j < rows.len() ==> text_before(
                (#[trigger] rows[i]).date@,
                (#[trigger] rows[j]).date@,
            ),
    ensures
        i == j,
{
    lemma_text_order(rows[i].date@, rows[j].date@);
}

/// Today's share is that of the row of today, or zero without one.
pub proof fn law_today_is_told_by_its_row(
    ds: Seq<DriveSummary>,
    period: Seq<char>,
    today: int,
    a: FsdAnalytics,
)
    requires
        are_analytics(ds, period, today, a),
    ensures
        forall|i: int|
            0 <= i < a.daily@.len() && (#[trigger] a.daily@[i]).date@ == date_text(
                today * 172_800_000,
            ) ==> a.today_percent == a.daily@[i].fsd_percent,
        (forall|i: int|
            0 <= i < a.daily@.len() ==> (#[trigger] a.daily@[i]).date@ != date_text(
                today * 172_800_000,
            )) ==> a.today_percent == zero(),
{
    let rows = a.daily@;
    let date = day_text(today);
    lemma_day_at(rows, date, 0);
    assert forall|i: int| 0 <= i < rows.len() && (#[trigger] rows[i]).date@ == date implies a.today_percent
        == rows[i].fsd_percent by {
        let row = day_at(rows, date, 0)->0;
        let j = choose|j: int| 0 <= j < rows.len() && #[trigger] rows[j] == row && row.date@ == date;
        lemma_dates_differ(rows, i, j);
    }
}

/// `best` and `date` are the greatest share of a day and the first day that reached it.
pub open spec fn is_best(rows: Seq<FsdDayStats>, best: F64, date: Seq<char>, n: int) -> bool {
    &&& fle(zero(), best)
    &&& forall|i: int|
        0 <= i < n && !is_nan(rows[i].fsd_percent) ==> fle((#[trigger] rows[i]).fsd_percent, best)
    &&& best == zero() && date.len() == 0 || exists|i: int|
        0 <= i < n && (#[trigger] rows[i]).fsd_percent == best && rows[i].date@ == date && forall|
            j: int,
        |
            0 <= j < i ==> !fle(best, (#[trigger] rows[j]).fsd_percent)
}

proof fn lemma_best_of(rows: Seq<FsdDayStats>, n: int)
    requires
        0 <= n <= rows.len(),
    ensures
        is_best(rows, best_of(rows, n).0, best_of(rows, n).1, n),
    decreases n,
{
    if n > 0 {
        lemma_best_of(rows, n - 1);
        let before = best_of(rows, n - 1);
        let now = best_of(rows, n);
        if flt(before.0, rows[n - 1].fsd_percent) {
            assert(rows[n - 1].fsd_percent == now.0);
            assert forall|j: int| 0 <= j < n - 1 implies !fle(now.0, (#[trigger] rows[j]).fsd_percent) by {
                if !is_nan(rows[j].fsd_percent) {
                    assert(fle(rows[j].fsd_percent, before.0));
                }
            }
        } else if !(now.0 == zero() && now.1.len() == 0) {
            let i = choose|i: int|
                0 <= i < n - 1 && (#[trigger] rows[i]).fsd_percent == before.0 && rows[i].date@
                    == before.1 && forall|j: int|
                    0 <= j < i ==> !fle(before.0, (#[trigger] rows[j]).fsd_percent);
            assert(rows[i].fsd_percent == now.0);
        }
    }
}

/// The best day is the first with the greatest share.
pub proof fn law_best_day_is_the_first_of_the_best(
    ds: Seq<DriveSummary>,
    period: Seq<char>,
    today: int,
    a: FsdAnalytics,
)
    requires
        are_analytics(ds, period, today, a),
    ensures
        is_best(a.daily@, a.best_day_percent, a.best_day@, a.daily@.len() as int),
{
    lemma_best_of(a.daily@, a.daily@.len() as int);
}

/// On the day a drive was in full self-driving.
pub open spec fn drove_itself(rows: Seq<FsdDayStats>, day: int) -> bool {
    exists|i: int|
        0 <= i < rows.len() && (#[trigger] rows[i]).date@ == date_text(day * 172_800_000)
            && rows[i].fsd_engaged_ms > 0
}

proof fn lemma_engaged_on(rows: Seq<FsdDayStats>, day: int)
    requires
        forall|i: int, j: int|
            0 <= i < j < rows.len() ==> text_before(
                (#[trigger] rows[i]).date@,
                (#[trigger] rows[j]).date@,
            ),
    ensures
        engaged_on(rows, day_text(day)) == drove_itself(rows, day),
{
    let date = day_text(day);
    lemma_day_at(rows, date, 0);
    if drove_itself(rows, day) {
        let i = choose|i: int|
            0 <= i < rows.len() && (#[trigger] rows[i]).date@ == date_text(day * 172_800_000)
                && rows[i].fsd_engaged_ms > 0;
        let row = day_at(rows, date, 0)->0;
        let j = choose|j: int| 0 <= j < rows.len() && #[trigger] rows[j] == row && row.date@ == date;
        lemma_dates_differ(rows, i, j);
    }
}

proof fn lemma_streak(rows: Seq<FsdDayStats>, day: int, left: int)
    requires
        0 <= left,
        forall|i: int, j: int|
            0 <= i < j < rows.len() ==> text_before(
                (#[trigger] rows[i]).date@,
                (#[trigger] rows[j]).date@,
            ),
    ensures
        ({
            let k = streak(rows, day, left);
            &&& 0 <= k <= left
            &&& forall|b: int| day - k < b <= day ==> #[trigger] drove_itself(rows, b)
            &&& k == left || day - k < -100_000_000 || !drove_itself(rows, day - k)
        }),
    decreases left,
{
    lemma_engaged_on(rows, day);
    if left > 0 {
        lemma_streak(rows, day - 1, left - 1);
    }
}

/// The streak is the days in a row with full self-driving, up to today: on each of them a
/// drive was in it, and on the day before them none, unless every day of the period was.
pub proof fn law_streak_is_days_in_a_row(
    ds: Seq<DriveSummary>,
    period: Seq<char>,
    today: int,
    a: FsdAnalytics,
)
    requires
        are_analytics(ds, period, today, a),
        a.daily@.len() <= i32::MAX,
        -90_000_000 <= today - a.daily@.len(),
    ensures
        0 <= a.streak_days <= a.daily@.len(),
        forall|b: int| today - a.streak_days < b <= today ==> #[trigger] drove_itself(a.daily@, b),
        a.streak_days < a.daily@.len() ==> !drove_itself(a.daily@, today - a.streak_days),
{
    lemma_streak(a.daily@, today, a.daily@.len() as int);
}

/// The drives of a row's date.
pub open spec fn on_date(ds: Seq<DriveSummary>, start: Option<int>, date: Seq<char>) -> spec_fn(int) -> bool {
    |i: int|
        counting(ds, start)(i) && iso_seconds(ds[i].start_time@) is Some && date_text(
            iso_seconds(ds[i].start_time@)->0 * 2000,
        ) == date
}

/// Every row of the days tells of the drives of its date; its weekday is that of its
/// drives.
pub proof fn law_days_tell_of_their_drives(
    ds: Seq<DriveSummary>,
    period: Seq<char>,
    today: int,
    a: FsdAnalytics,
    k: int,
)
    requires
        are_analytics(ds, period, today, a),
        0 <= k < a.daily@.len(),
    ensures
        ({
            let n = ds.len() as int;
            let row = a.daily@[k];
            let keep = on_date(ds, begins(period, today), row.date@);
            &&& row.drives == hold32(drives_where(keep, n).len() as int)
            &&& row.total_duration_ms == hold64(tally(whole_where(lasting(ds), keep), n))
            &&& row.fsd_engaged_ms == hold64(tally(whole_where(fsd_lasting(ds), keep), n))
            &&& row.disengagements == hold32(tally(whole_where(times_left(ds), keep), n))
            &&& row.accel_pushes == hold32(tally(whole_where(times_pushed(ds), keep), n))
            &&& exists|i: int|
                0 <= i < n && #[trigger] keep(i) && row.day_name@ == weekday_name(
                    iso_seconds(ds[i].start_time@)->0 / 86_400,
                )
            &&& drives_tame(ds) ==> exists|km: F64, fsd: F64|
                #[trigger] is_sum_of(km, km_of(ds), keep, n) && #[trigger] is_sum_of(
                    fsd,
                    fsd_km_of(ds),
                    keep,
                    n,
                ) && row.fsd_percent == share_percent(fsd, km) && row.fsd_distance_km == rounded2(fsd)
            &&& drives_tame(ds) ==> exists|mi: F64|
                #[trigger] is_sum_of(mi, fsd_mi_of(ds), keep, n) && row.fsd_distance_mi == rounded2(mi)
        }),
{
    let n = ds.len() as int;
    let row = a.daily@[k];
    let start = begins(period, today);
    assert(start == period_start(period, today));
    let (keep, hold) = (on_date(ds, start, row.date@), of_date(ds, start, row.date@));
    assert(is_day(ds, start, row));
    assert forall|i: int| #[trigger] keep(i) == hold(i) by {
        lemma_counting(ds, start, i);
        assert(of_period(ds, start)(i) == in_period(ds[i], start));
    }
    assert(keep =~= hold);
    lemma_drive_count(keep, n);
    lemma_all_tallies(ds, keep);
    lemma_first_drive(keep, n, 0);
    if drives_tame(ds) {
        lemma_all_sums(ds, keep);
    }
}

proof fn lemma_first_drive(keep: spec_fn(int) -> bool, n: int, i: int)
    requires
        0 <= i,
    ensures
        first_drive(keep, n, i) < n ==> i <= first_drive(keep, n, i) && keep(first_drive(keep, n, i)),
    decreases n - i,
{
    if i < n && !keep(i) {
        lemma_first_drive(keep, n, i + 1);
    }
}

/// The first of January 1970 was a Thursday, and weekdays come round after seven days, in
/// their order.
pub proof fn law_weekdays_come_round(day: int)
    ensures
        weekday_name(0) == "Thu"@,
        weekday_name(day + 7) == weekday_name(day),
        weekday_name(day) == "Mon"@ ==> weekday_name(day + 1) == "Tue"@ && weekday_name(day + 2)
            == "Wed"@ && weekday_name(day + 3) == "Thu"@ && weekday_name(day + 4) == "Fri"@
            && weekday_name(day + 5) == "Sat"@ && weekday_name(day + 6) == "Sun"@,
        (day + 3) % 7 == 0 ==> weekday_name(day) == "Mon"@,
{
    reveal_strlit("Mon");
    reveal_strlit("Tue");
    reveal_strlit("Wed");
    reveal_strlit("Thu");
    reveal_strlit("Fri");
    reveal_strlit("Sat");
    reveal_strlit("Sun");
    assert("Mon"@[0] == 'M' && "Tue"@[0] == 'T' && "Wed"@[0] == 'W' && "Thu"@[0] == 'T' && "Fri"@[0]
        == 'F' && "Sat"@[0] == 'S' && "Sun"@[0] == 'S');
    assert((day + 10) % 7 == (day + 3) % 7);
}

/// Time is shown in whole hours and minutes.
pub proof fn law_times_are_shown_in_hours_and_minutes(ms: int)
    requires
        ms >= 0,
    ensures
        exists|h: nat, m: nat|
            {
                &&& m < 60
                &&& #[trigger] spells_time(ms, h, m)
                &&& duration_text(ms) == if h > 0 {
                    decimal(h) + "h "@ + decimal(m) + "m"@
                } else {
                    decimal(m) + "m"@
                }
            },
{
    let s = ms / 1000;
    let (h, m) = ((s / 3600) as nat, ((s % 3600) / 60) as nat);
    assert(spells_time(ms, h, m));
}

/// `h` hours and `m` minutes are `ms` milliseconds, but for less than a minute.
pub open spec fn spells_time(ms: int, h: nat, m: nat) -> bool {
    h * 3_600_000 + m * 60_000 <= ms < h * 3_600_000 + m * 60_000 + 60_000
}

// ---------------------------------------------------------------------------
// Totals
// ---------------------------------------------------------------------------

/// Totals count every drive, its way and its time; assistance is that of the car's own
/// recordings alone.
pub proof fn law_totals_add_up_the_drives(ds: Seq<DriveSummary>, routes: int, t: DriveTotals)
    requires
        are_totals(ds, routes, t),
        drives_tame(ds),
    ensures
        ({
            let n = ds.len() as int;
            let all = |i: int| true;
            let own = |i: int| own_drive(ds[i]);
            &&& t.drives_count == hold64(n)
            &&& t.routes_count == hold64(routes)
            &&& t.total_duration_ms == hold64(tally(lasting(ds), n))
            &&& t.fsd_engaged_ms == hold64(tally(whole_where(fsd_lasting(ds), own), n))
            &&& t.autosteer_engaged_ms == hold64(tally(whole_where(steer_lasting(ds), own), n))
            &&& t.tacc_engaged_ms == hold64(tally(whole_where(tacc_lasting(ds), own), n))
            &&& t.fsd_disengagements == hold32(tally(whole_where(times_left(ds), own), n))
            &&& t.fsd_accel_pushes == hold32(tally(whole_where(times_pushed(ds), own), n))
        }),
        exists|km: F64, mi: F64|
            is_sum_of(km, km_of(ds), every_drive(), ds.len() as int) && is_sum_of(
                mi,
                mi_of(ds),
                every_drive(),
                ds.len() as int,
            ) && t.total_distance_km == #[trigger] rounded2(km) && t.total_distance_mi
                == #[trigger] rounded2(mi),
        exists|km: F64, fsd: F64, steer: F64, tacc: F64|
            {
                let n = ds.len() as int;
                let own = recorded(ds);
                &&& #[trigger] totals_show(t, km, fsd, steer, tacc)
                &&& is_sum_of(km, km_of(ds), own, n)
                &&& is_sum_of(fsd, fsd_km_of(ds), own, n)
                &&& is_sum_of(steer, steer_km_of(ds), own, n)
                &&& is_sum_of(tacc, tacc_km_of(ds), own, n)
            },
        forall|i: int| #[trigger] recorded(ds)(i) == own_drive(ds[i]),
        forall|i: int| #[trigger] every_drive()(i),
{
    let n = ds.len() as int;
    let all = |i: int| true;
    let own = |i: int| own_drive(ds[i]);
    assert(own =~= recorded(ds));
    assert(all =~= every_drive());
    lemma_all_tallies(ds, all);
    lemma_all_tallies(ds, own);
    lemma_all_sums(ds, all);
    lemma_all_sums(ds, own);
    assert(whole_where(lasting(ds), all) =~= lasting(ds));
    assert(totals_show(
        t,
        distance_sum(ds, own, Distance::TotalKm, n),
        distance_sum(ds, own, Distance::FsdKm, n),
        distance_sum(ds, own, Distance::AutosteerKm, n),
        distance_sum(ds, own, Distance::TaccKm, n),
    ));
}

/// These kilometres stand in the totals, and as shares of the recorded distance.
pub open spec fn totals_show(t: DriveTotals, km: F64, fsd: F64, steer: F64, tacc: F64) -> bool {
    &&& t.fsd_distance_km == rounded2(fsd)
    &&& t.autosteer_distance_km == rounded2(steer)
    &&& t.tacc_distance_km == rounded2(tacc)
    &&& t.fsd_percent == share_percent(fsd, km)
    &&& t.assisted_percent == share_percent(fadd(fadd(fsd, steer), tacc), km)
}

/// Statistics name their period and the day it begins.
pub proof fn law_statistics_name_their_period(
    ds: Seq<DriveSummary>,
    period: Seq<char>,
    today: int,
    a: FsdAnalytics,
)
    requires
        are_analytics(ds, period, today, a),
    ensures
        a.period@ == period,
        period == "day"@ ==> a.period_start@ == date_text(today * 172_800_000),
        period == "week"@ ==> a.period_start@ == date_text((today - 7) * 172_800_000),
        period != "day"@ && period != "week"@ ==> a.period_start@.len() == 0,
{
    reveal_strlit("day");
    reveal_strlit("week");
    assert("day"@.len() != "week"@.len());
}

/// Days come in order, each once, and every drive that counts and has a time is on one.
pub proof fn law_days_come_in_order(
    ds: Seq<DriveSummary>,
    period: Seq<char>,
    today: int,
    a: FsdAnalytics,
    k: int,
)
    requires
        are_analytics(ds, period, today, a),
        0 <= k < ds.len(),
        counting(ds, begins(period, today))(k),
        iso_seconds(ds[k].start_time@) is Some,
    ensures
        forall|i: int, j: int|
            0 <= i < j < a.daily@.len() ==> text_before(
                (#[trigger] a.daily@[i]).date@,
                (#[trigger] a.daily@[j]).date@,
            ),
        exists|i: int|
            0 <= i < a.daily@.len() && (#[trigger] a.daily@[i]).date@ == date_text(
                iso_seconds(ds[k].start_time@)->0 * 2000,
            ),
{
    let start = begins(period, today);
    assert(start == period_start(period, today));
    lemma_counting(ds, start, k);
    assert(of_period(ds, start)(k) == in_period(ds[k], start));
    assert(date_of(ds, start, k) is Some);
}

} // verus!
