//! What a drive in full tells of its samples.

use crate::aggregate::{count_where, peak_where, sum_where};
use crate::aggregate_laws::step_lengths;
use crate::calc::{MPS_TO_KMH, MPS_TO_MPH, M_PER_MILE, lit, rounded2};
use crate::drive::{
    FsdMark, Sample, any_assisted, autopilots, decide, drive_measured, ends_assisted, ends_in,
    gears, hop_lengths, is_event_of, mark_count, marks_of, mean_pace, metres_in, ms_in, pace,
    pace_counts, pedal_percent, push_pedal, speeds_recorded, step_seconds, switch, top_pace,
    walk_drive,
};
use crate::float::{
    F32, F64, fdiv, fle, flt, flt32, fmul, from_int, fsub, is_nan, to_int, widen, zero,
};
use crate::nearness::{
    is_mean, is_top, lemma_count_where, lemma_mean_where, lemma_peak_where, lemma_sum_where,
    lemma_where_alike, moderate, near, plain, units_where,
};
use crate::rounding::{lemma_from_int_exact, lemma_one, lemma_order, one, size_of};
use crate::summary::{hold32, hold64, percent_of};
use crate::types::{AUTOPILOT_OFF, Drive, GEAR_PARK, GpsPoint};
use vstd::prelude::*;

verus! {

/// Some sample of the drive carries a speed above zero.
pub open spec fn carries_speeds(pts: Seq<Sample>) -> bool {
    exists|i: int| 0 <= i < pts.len() && flt32(F32 { bits: 0 }, (#[trigger] pts[i]).speed)
}

/// Seconds from sample `i - 1` to sample `i`.
pub open spec fn seconds_into(pts: Seq<Sample>, i: int) -> F64 {
    fdiv(fsub(pts[i].time_ms, pts[i - 1].time_ms), from_int(1000))
}

/// The speed at sample `i`: the recorded one, or else that of the step into it.
pub open spec fn sample_speed(pts: Seq<Sample>, hops: Seq<F64>) -> spec_fn(int) -> F64 {
    |i: int|
        if carries_speeds(pts) {
            widen(pts[i].speed)
        } else {
            fdiv(hops[i], seconds_into(pts, i))
        }
}

/// That speed is believable: recorded ones from zero to below 100 m/s, others below
/// 70 m/s over a step that takes time.
pub open spec fn believable(pts: Seq<Sample>, hops: Seq<F64>) -> spec_fn(int) -> bool {
    |i: int|
        if carries_speeds(pts) {
            fle(zero(), widen(pts[i].speed)) && flt(widen(pts[i].speed), from_int(100))
        } else {
            flt(zero(), seconds_into(pts, i)) && flt(
                fdiv(hops[i], seconds_into(pts, i)),
                from_int(70),
            )
        }
}

proof fn lemma_paces_alike(pts: Seq<Sample>, hops: Seq<F64>)
    ensures
        ({
            let n = pts.len() as int;
            let (v, keep) = (sample_speed(pts, hops), believable(pts, hops));
            &&& top_pace(pts, hops) == peak_where(v, keep, n)
            &&& count_where(pace_counts(pts, hops), n) == count_where(keep, n)
            &&& mean_pace(pts, hops) == if count_where(keep, n) > 0 {
                fdiv(sum_where(v, keep, n), from_int(count_where(keep, n) as int))
            } else {
                zero()
            }
        }),
{
    let n = pts.len() as int;
    let (v, keep) = (sample_speed(pts, hops), believable(pts, hops));
    let (w, hold) = (pace(pts, hops), pace_counts(pts, hops));
    assert(carries_speeds(pts) == speeds_recorded(pts));
    assert forall|i: int| 1 <= i < n implies #[trigger] keep(i) == hold(i) by {
        assert(seconds_into(pts, i) == step_seconds(pts, i));
    }
    assert forall|i: int| 1 <= i < n && #[trigger] keep(i) implies v(i) == w(i) by {
        assert(seconds_into(pts, i) == step_seconds(pts, i));
    }
    lemma_where_alike(v, keep, w, hold, n);
}

/// The top speed of a drive is its greatest believable speed: none is above it, and it
/// is one of them, or zero.
pub proof fn law_top_speed_is_the_greatest(pts: Seq<Sample>, hops: Seq<F64>, start: int, d: Drive)
    requires
        drive_measured(pts, hops, start, d),
    ensures
        exists|top: F64|
            #[trigger] is_top(
                top,
                sample_speed(pts, hops),
                believable(pts, hops),
                pts.len() as int,
            ) && d.max_speed_kmh == rounded2(fmul(top, lit(MPS_TO_KMH))) && d.max_speed_mph
                == rounded2(fmul(top, lit(MPS_TO_MPH))),
{
    let n = pts.len() as int;
    let (v, keep) = (sample_speed(pts, hops), believable(pts, hops));
    lemma_paces_alike(pts, hops);
    assert forall|i: int| 1 <= i < n && #[trigger] keep(i) implies !is_nan(v(i)) by {}
    lemma_peak_where(v, keep, n);
    assert(is_top(top_pace(pts, hops), v, keep, n));
}

/// The average speed of a drive is the mean of its believable speeds, up to rounding;
/// zero where there are none.
pub proof fn law_average_speed_is_the_mean(pts: Seq<Sample>, hops: Seq<F64>, start: int, d: Drive)
    requires
        drive_measured(pts, hops, start, d),
        pts.len() <= i32::MAX,
        forall|i: int|
            1 <= i < pts.len() && #[trigger] believable(pts, hops)(i) ==> plain(
                sample_speed(pts, hops)(i),
            ),
    ensures
        exists|mean: F64|
            #[trigger] is_mean(
                mean,
                sample_speed(pts, hops),
                believable(pts, hops),
                pts.len() as int,
            ) && d.avg_speed_kmh == rounded2(fmul(mean, lit(MPS_TO_KMH))) && d.avg_speed_mph
                == rounded2(fmul(mean, lit(MPS_TO_MPH))),
{
    let n = pts.len() as int;
    let (v, keep) = (sample_speed(pts, hops), believable(pts, hops));
    lemma_paces_alike(pts, hops);
    lemma_count_where(keep, n);
    if count_where(keep, n) > 0 {
        lemma_mean_where(v, keep, n);
    }
    assert(is_mean(mean_pace(pts, hops), v, keep, n));
}

/// Steps into samples in `mode`; all steps for `None`.
pub open spec fn steps_of(pts: Seq<Sample>, mode: Option<u8>) -> spec_fn(int) -> bool {
    |i: int|
        match mode {
            Some(m) => pts[i].autopilot == m,
            None => true,
        }
}

/// Steps into samples with any assistance.
pub open spec fn helped_steps(pts: Seq<Sample>) -> spec_fn(int) -> bool {
    |i: int| pts[i].autopilot != 0
}

/// `m` metres are the steps that are kept, up to rounding.
pub open spec fn is_length(m: F64, hops: Seq<F64>, keep: spec_fn(int) -> bool, n: int) -> bool {
    near(
        m,
        units_where(step_lengths(hops), keep, n),
        one(),
        if n <= 1 {
            0
        } else {
            (n - 1) as nat
        },
    )
}

/// These metres stand in the drive, in kilometres, in miles and as shares of the whole.
pub open spec fn shows_lengths(d: Drive, all: F64, fsd: F64, steer: F64, tacc: F64, helped: F64) -> bool {
    &&& d.distance_km == rounded2(fdiv(all, from_int(1000)))
    &&& d.distance_mi == rounded2(fdiv(all, lit(M_PER_MILE)))
    &&& d.fsd_distance_km == rounded2(fdiv(fsd, from_int(1000)))
    &&& d.fsd_distance_mi == rounded2(fdiv(fsd, lit(M_PER_MILE)))
    &&& d.autosteer_distance_km == rounded2(fdiv(steer, from_int(1000)))
    &&& d.autosteer_distance_mi == rounded2(fdiv(steer, lit(M_PER_MILE)))
    &&& d.tacc_distance_km == rounded2(fdiv(tacc, from_int(1000)))
    &&& d.tacc_distance_mi == rounded2(fdiv(tacc, lit(M_PER_MILE)))
    &&& d.fsd_percent == percent_of(fsd, all)
    &&& d.autosteer_percent == percent_of(steer, all)
    &&& d.tacc_percent == percent_of(tacc, all)
    &&& d.assisted_percent == percent_of(helped, all)
}

/// The distance of a drive is the sum of its steps, up to rounding, in kilometres and in
/// miles; that of each mode is the sum of the steps that end in it, and its share is
/// taken of the whole.
pub proof fn law_drive_distances(pts: Seq<Sample>, hops: Seq<F64>, start: int, d: Drive)
    requires
        drive_measured(pts, hops, start, d),
        pts.len() <= i32::MAX,
        hops.len() == pts.len(),
        forall|i: int| 1 <= i < hops.len() ==> moderate(#[trigger] hops[i]),
    ensures
        exists|all: F64, fsd: F64, steer: F64, tacc: F64, helped: F64|
            #[trigger] shows_lengths(d, all, fsd, steer, tacc, helped) && {
                let n = pts.len() as int;
                &&& is_length(all, hops, steps_of(pts, None), n)
                &&& is_length(fsd, hops, steps_of(pts, Some(1u8)), n)
                &&& is_length(steer, hops, steps_of(pts, Some(2u8)), n)
                &&& is_length(tacc, hops, steps_of(pts, Some(3u8)), n)
                &&& is_length(helped, hops, helped_steps(pts), n)
            },
{
    let n = pts.len() as int;
    let v = step_lengths(hops);
    assert forall|i: int| 1 <= i < n implies moderate(#[trigger] v(i)) by {
        assert(moderate(hops[i]));
    }
    lemma_lengths_alike(pts, hops, None);
    lemma_lengths_alike(pts, hops, Some(1u8));
    lemma_lengths_alike(pts, hops, Some(2u8));
    lemma_lengths_alike(pts, hops, Some(3u8));
    let (keep, hold) = (helped_steps(pts), ends_assisted(pts));
    lemma_where_alike(v, keep, hop_lengths(hops), hold, n);
    lemma_sum_where(v, keep, n);
    assert(is_length(sum_where(hop_lengths(hops), hold, n), hops, keep, n));
    assert(shows_lengths(
        d,
        metres_in(pts, hops, None),
        metres_in(pts, hops, Some(1u8)),
        metres_in(pts, hops, Some(2u8)),
        metres_in(pts, hops, Some(3u8)),
        sum_where(hop_lengths(hops), hold, n),
    ));
}

proof fn lemma_lengths_alike(pts: Seq<Sample>, hops: Seq<F64>, mode: Option<u8>)
    requires
        pts.len() <= i32::MAX,
        hops.len() == pts.len(),
        forall|i: int| 1 <= i < hops.len() ==> moderate(#[trigger] hops[i]),
    ensures
        is_length(metres_in(pts, hops, mode), hops, steps_of(pts, mode), pts.len() as int),
{
    let n = pts.len() as int;
    let v = step_lengths(hops);
    let (keep, hold) = (steps_of(pts, mode), ends_in(pts, mode));
    assert forall|i: int| 1 <= i < n implies moderate(#[trigger] v(i)) by {
        assert(moderate(hops[i]));
    }
    lemma_where_alike(v, keep, hop_lengths(hops), hold, n);
    lemma_sum_where(v, keep, n);
}

/// Whole milliseconds of the steps `1 <= i < n` into samples in `mode`.
pub open spec fn time_in(pts: Seq<Sample>, mode: u8, n: int) -> int
    decreases n,
{
    if n <= 1 {
        0
    } else {
        time_in(pts, mode, n - 1) + if pts[n - 1].autopilot == mode {
            to_int(
                fsub(pts[n - 1].time_ms, pts[n - 2].time_ms),
                i64::MIN as int,
                i64::MAX as int,
            )
        } else {
            0
        }
    }
}

proof fn lemma_time_in(pts: Seq<Sample>, mode: u8, n: int)
    ensures
        time_in(pts, mode, n) == ms_in(pts, mode, n),
    decreases n,
{
    if n > 1 {
        lemma_time_in(pts, mode, n - 1);
    }
}

/// The time of a drive in a mode is that of the steps that end in it.
pub proof fn law_drive_times(pts: Seq<Sample>, hops: Seq<F64>, start: int, d: Drive)
    requires
        drive_measured(pts, hops, start, d),
    ensures
        d.fsd_engaged_ms == hold64(time_in(pts, 1u8, pts.len() as int)),
        d.autosteer_engaged_ms == hold64(time_in(pts, 2u8, pts.len() as int)),
        d.tacc_engaged_ms == hold64(time_in(pts, 3u8, pts.len() as int)),
{
    let n = pts.len() as int;
    lemma_time_in(pts, 1u8, n);
    lemma_time_in(pts, 2u8, n);
    lemma_time_in(pts, 3u8, n);
}

/// The line of a drive has a point for every sample, at its place, timed from the start
/// of the drive, with its speed; gears and modes stand beside it, or are left out where
/// they are zero throughout.
pub proof fn law_drive_line(pts: Seq<Sample>, hops: Seq<F64>, start: int, d: Drive)
    requires
        drive_measured(pts, hops, start, d),
    ensures
        d.point_count == pts.len(),
        d.points@.len() == pts.len(),
        forall|i: int|
            0 <= i < pts.len() ==> (#[trigger] d.points@[i]).lat == pts[i].lat && d.points@[i].lng
                == pts[i].lng && d.points@[i].time_ms == fsub(pts[i].time_ms, from_int(start)) && (
            carries_speeds(pts) ==> d.points@[i].speed_mps == rounded2(widen(pts[i].speed))),
        d.gear_states@.len() == 0 && (forall|i: int|
            0 <= i < pts.len() ==> (#[trigger] pts[i]).gear == 0) || d.gear_states@.len()
            == pts.len() && (forall|i: int|
            0 <= i < pts.len() ==> #[trigger] d.gear_states@[i] == pts[i].gear),
        d.fsd_states@.len() == 0 && (forall|i: int|
            0 <= i < pts.len() ==> (#[trigger] pts[i]).autopilot == 0) || d.fsd_states@.len()
            == pts.len() && (forall|i: int|
            0 <= i < pts.len() ==> #[trigger] d.fsd_states@[i] == pts[i].autopilot),
{
    assert(carries_speeds(pts) == speeds_recorded(pts));
    assert forall|i: int| 0 <= i < pts.len() && d.gear_states@.len() == 0 implies (
    #[trigger] pts[i]).gear == 0 by {
        assert(gears(pts)[i] == pts[i].gear);
    }
    assert forall|i: int| 0 <= i < pts.len() && d.fsd_states@.len() == 0 implies (
    #[trigger] pts[i]).autopilot == 0 by {
        assert(autopilots(pts)[i] == pts[i].autopilot);
    }
}

// ---------------------------------------------------------------------------
// Disengagements
// ---------------------------------------------------------------------------

/// How an end of full self-driving is judged.
pub enum Judged {
    Open,
    Counted,
    Cancelled,
}

/// Full self-driving ends at sample `i`.
pub open spec fn ends_at(pts: Seq<Sample>, i: int) -> bool {
    1 <= i < pts.len() && pts[i - 1].autopilot == 1 && pts[i].autopilot != 1
}

/// The end at sample `i`, judged by the samples up to `n`: the first of them that is in
/// Park within two seconds cancels it; the first later than two seconds, or back in full
/// self-driving, counts it.
pub open spec fn judged(pts: Seq<Sample>, i: int, n: int) -> Judged
    decreases n - i,
{
    if n <= i + 1 {
        Judged::Open
    } else if judged(pts, i, n - 1) != Judged::Open {
        judged(pts, i, n - 1)
    } else if pts[n - 1].gear == 0 && fle(
        fsub(pts[n - 1].time_ms, pts[i].time_ms),
        from_int(2000),
    ) {
        Judged::Cancelled
    } else if pts[n - 1].autopilot == 1 || flt(
        from_int(2000),
        fsub(pts[n - 1].time_ms, pts[i].time_ms),
    ) {
        Judged::Counted
    } else {
        Judged::Open
    }
}

/// The ends among the first `n` samples that are judged so.
pub open spec fn ends_judged(pts: Seq<Sample>, n: int, how: Judged) -> Set<int> {
    Set::new(|i: int| 0 <= i < n && ends_at(pts, i) && judged(pts, i, n) == how)
}

spec fn left(marks: Seq<FsdMark>) -> int {
    mark_count(marks, true, marks.len() as int)
}

proof fn lemma_mark_count(marks: Seq<FsdMark>, m: FsdMark, what: bool, n: int)
    requires
        0 <= n <= marks.len(),
    ensures
        mark_count(marks.push(m), what, n) == mark_count(marks, what, n),
    decreases n,
{
    if n > 0 {
        lemma_mark_count(marks, m, what, n - 1);
    }
}

proof fn lemma_marked_once(marks: Seq<FsdMark>, m: FsdMark)
    ensures
        left(marks.push(m)) == left(marks) + if m.disengagement {
            1int
        } else {
            0int
        },
{
    lemma_mark_count(marks, m, true, marks.len() as int);
}

proof fn lemma_judging(pts: Seq<Sample>, n: int)
    requires
        1 <= n <= pts.len(),
    ensures
        ({
            let w = walk_drive(pts, n);
            let counted = ends_judged(pts, n, Judged::Counted);
            &&& counted.finite()
            &&& left(w.marks) == counted.len()
            &&& w.pending is None ==> ends_judged(pts, n, Judged::Open) =~= Set::empty()
            &&& w.pending matches Some(p) ==> exists|i: int|
                #[trigger] ends_at(pts, i) && i < n && p.0 == pts[i].time_ms && ends_judged(
                    pts,
                    n,
                    Judged::Open,
                ) =~= set![i]
        }),
    decreases n,
{
    let now = ends_judged(pts, n, Judged::Counted);
    let open_now = ends_judged(pts, n, Judged::Open);
    if n == 1 {
        assert(now =~= Set::empty());
        assert(open_now =~= Set::empty());
        assert(left(Seq::<FsdMark>::empty()) == 0);
    } else {
        lemma_judging(pts, n - 1);
        let w = walk_drive(pts, n - 1);
        let (prev, cur) = (pts[n - 2], pts[n - 1]);
        let was = ends_judged(pts, n - 1, Judged::Counted);
        let open = ends_judged(pts, n - 1, Judged::Open);
        let a = decide(w, cur);
        let b = switch(a, prev, cur);
        let c = push_pedal(b, cur);
        assert(walk_drive(pts, n) == c);
        // The pedal adds no disengagement.
        assert(left(c.marks) == left(b.marks)) by {
            if c.marks.len() > b.marks.len() {
                lemma_marked_once(b.marks, c.marks.last());
                assert(c.marks =~= b.marks.push(c.marks.last()));
            }
        }
        assert(left(b.marks) == left(a.marks));
        // Ends before this sample keep their verdict, but for an open one.
        assert forall|i: int| 0 <= i < n - 1 && #[trigger] ends_at(pts, i) && judged(pts, i, n - 1)
            != Judged::Open implies judged(pts, i, n) == judged(pts, i, n - 1) by {}
        let new = ends_at(pts, n - 1);
        assert(new == (prev.autopilot == 1 && cur.autopilot != 1));
        assert(new ==> judged(pts, n - 1, n) == Judged::Open);
        match w.pending {
            None => {
                assert forall|j: int| 0 <= j < n - 1 && #[trigger] ends_at(pts, j) implies judged(
                    pts,
                    j,
                    n - 1,
                ) != Judged::Open by {
                    assert(!open.contains(j));
                }
                assert(now =~= was);
                if new {
                    assert(open_now =~= set![n - 1]);
                } else {
                    assert(open_now =~= Set::empty());
                }
            },
            Some(p) => {
                let i = choose|i: int|
                    #[trigger] ends_at(pts, i) && i < n - 1 && p.0 == pts[i].time_ms && open =~= set![i];
                assert(open.contains(i));
                assert(judged(pts, i, n - 1) == Judged::Open);
                // Still open: the sample before was not back in full self-driving.
                assert(prev.autopilot != 1) by {
                    if i == n - 2 {
                        assert(pts[i].autopilot != 1);
                    } else {
                        assert(judged(pts, i, n - 1) == Judged::Open);
                    }
                }
                assert(!new);
                assert forall|j: int| 0 <= j < n - 1 && #[trigger] ends_at(pts, j) && j != i implies judged(
                    pts,
                    j,
                    n - 1,
                ) != Judged::Open by {
                    if judged(pts, j, n - 1) == Judged::Open {
                        assert(open.contains(j));
                    }
                }
                if a.pending is None {
                    assert(open_now =~= Set::empty());
                    if a.marks.len() > w.marks.len() {
                        lemma_marked_once(w.marks, a.marks.last());
                        assert(a.marks =~= w.marks.push(a.marks.last()));
                        assert(judged(pts, i, n) == Judged::Counted);
                        assert(now =~= was.insert(i));
                        assert(!was.contains(i));
                    } else {
                        assert(judged(pts, i, n) == Judged::Cancelled);
                        assert(now =~= was);
                    }
                } else {
                    assert(judged(pts, i, n) == Judged::Open);
                    assert(now =~= was);
                    assert(open_now =~= set![i]);
                }
            },
        }
    }
}

/// A drive counts the ends of full self-driving, but for those that Park cancels within
/// two seconds. One still open at the end counts unless the car is parked there.
pub proof fn law_drive_disengagements(pts: Seq<Sample>, hops: Seq<F64>, start: int, d: Drive)
    requires
        drive_measured(pts, hops, start, d),
        pts.len() > 0,
    ensures
        ({
            let n = pts.len() as int;
            let open = ends_judged(pts, n, Judged::Open);
            let counted = ends_judged(pts, n, Judged::Counted);
            &&& counted.finite()
            &&& d.fsd_disengagements == hold32(
                counted.len() as int + if pts.last().gear != 0 && open != Set::<int>::empty() {
                    1int
                } else {
                    0int
                },
            )
        }),
{
    let n = pts.len() as int;
    let open = ends_judged(pts, n, Judged::Open);
    let counted = ends_judged(pts, n, Judged::Counted);
    lemma_judging(pts, n);
    let marks = marks_of(pts);
    if !any_assisted(pts) || n <= 1 {
        assert forall|i: int| !(#[trigger] ends_at(pts, i)) by {
            if ends_at(pts, i) {
                assert(pts[i - 1].autopilot != AUTOPILOT_OFF);
            }
        }
        assert(open =~= Set::empty());
        assert(counted =~= Set::empty());
        assert(left(marks) == 0);
    } else {
        let w = walk_drive(pts, n);
        if w.pending is Some {
            let p = w.pending->0;
            let i = choose|i: int|
                #[trigger] ends_at(pts, i) && i < n && p.0 == pts[i].time_ms && open =~= set![i];
            assert(open.contains(i));
            assert(!Set::<int>::empty().contains(i));
            if pts.last().gear != GEAR_PARK {
                lemma_marked_once(w.marks, marks.last());
                assert(marks =~= w.marks.push(marks.last()));
            }
        } else {
            assert(open =~= Set::empty());
        }
    }
}

// ---------------------------------------------------------------------------
// Pedal pushes
// ---------------------------------------------------------------------------

/// When full self-driving, on at sample `k`, was engaged; zero where the drive began so.
pub open spec fn engaged_when(pts: Seq<Sample>, k: int) -> F64
    decreases k,
{
    if k <= 0 {
        zero()
    } else if pts[k - 1].autopilot != 1 {
        pts[k].time_ms
    } else {
        engaged_when(pts, k - 1)
    }
}

/// The pedal: up to 1 it is a fraction, of which a hundred make one.
pub open spec fn pedal_of(s: Sample) -> F64 {
    let v = widen(s.accel);
    if fle(v, from_int(1)) {
        fmul(v, from_int(100))
    } else {
        v
    }
}

/// Where the push under way at sample `k` began: in full self-driving, with the pedal above
/// one percent, three seconds after engaging or later; it lasts until the pedal is released
/// or the mode is left.
pub open spec fn pushed_from(pts: Seq<Sample>, k: int) -> Option<int>
    decreases k,
{
    if k < 1 || pts[k].autopilot != 1 {
        None
    } else if pts[k - 1].autopilot == 1 && pushed_from(pts, k - 1) is Some {
        if fle(pedal_of(pts[k]), zero()) {
            None
        } else {
            pushed_from(pts, k - 1)
        }
    } else if flt(from_int(1), pedal_of(pts[k])) && fle(
        from_int(3000),
        fsub(pts[k].time_ms, engaged_when(pts, k)),
    ) {
        Some(k)
    } else {
        None
    }
}

/// The samples at which a push ends by the pedal's release.
pub open spec fn pushes_ended(pts: Seq<Sample>, n: int) -> Set<int> {
    Set::new(
        |k: int|
            1 <= k < n && pts[k].autopilot == 1 && pts[k - 1].autopilot == 1 && fle(
                pedal_of(pts[k]),
                zero(),
            ) && pushed_from(pts, k - 1) is Some,
    )
}

spec fn pushed(marks: Seq<FsdMark>) -> int {
    mark_count(marks, false, marks.len() as int)
}

proof fn lemma_pushed_once(marks: Seq<FsdMark>, m: FsdMark)
    ensures
        pushed(marks.push(m)) == pushed(marks) + if m.disengagement {
            0int
        } else {
            1int
        },
{
    lemma_mark_count(marks, m, false, marks.len() as int);
}

proof fn lemma_drive_pushing(pts: Seq<Sample>, n: int)
    requires
        1 <= n <= pts.len(),
    ensures
        ({
            let w = walk_drive(pts, n);
            let k = n - 1;
            &&& pushes_ended(pts, n).finite()
            &&& pushed(w.marks) == pushes_ended(pts, n).len()
            &&& pts[k].autopilot == 1 ==> w.engaged == engaged_when(pts, k)
            &&& w.pressing is Some == (pushed_from(pts, k) is Some)
        }),
    decreases n,
{
    let now = pushes_ended(pts, n);
    if n == 1 {
        assert(now =~= Set::empty());
    } else {
        lemma_drive_pushing(pts, n - 1);
        let k = n - 1;
        let w = walk_drive(pts, k);
        let was = pushes_ended(pts, k);
        let (prev, cur) = (pts[k - 1], pts[k]);
        let a = decide(w, cur);
        let b = switch(a, prev, cur);
        let c = push_pedal(b, cur);
        assert(walk_drive(pts, n) == c);
        if a.marks.len() > w.marks.len() {
            lemma_pushed_once(w.marks, a.marks.last());
            assert(a.marks =~= w.marks.push(a.marks.last()));
        }
        assert(pushed(b.marks) == pushed(w.marks));
        assert(pedal_percent(cur.accel) == pedal_of(cur));
        lemma_nothing_between(pedal_of(cur));
        assert(!was.contains(k));
        if c.marks.len() > b.marks.len() {
            lemma_pushed_once(b.marks, c.marks.last());
            assert(c.marks =~= b.marks.push(c.marks.last()));
            assert(now =~= was.insert(k));
        } else {
            assert(now =~= was);
        }
    }
}

/// Nothing is above one and not above zero.
proof fn lemma_nothing_between(v: F64)
    ensures
        !(flt(from_int(1), v) && fle(v, zero())),
{
    lemma_from_int_exact(1);
    lemma_one();
    assert(size_of(zero()) == 0);
    lemma_order(zero(), from_int(1));
}

/// A drive has a push of the pedal for every release that ends one.
pub proof fn law_drive_pushes(pts: Seq<Sample>, hops: Seq<F64>, start: int, d: Drive)
    requires
        drive_measured(pts, hops, start, d),
        pts.len() > 0,
    ensures
        pushes_ended(pts, pts.len() as int).finite(),
        d.fsd_accel_pushes == hold32(pushes_ended(pts, pts.len() as int).len() as int),
{
    let n = pts.len() as int;
    lemma_drive_pushing(pts, n);
    let marks = marks_of(pts);
    let w = walk_drive(pts, n);
    if !any_assisted(pts) || n <= 1 {
        assert forall|k: int| 0 <= k < n implies (#[trigger] pts[k]).autopilot != 1 || n <= 1 by {}
        assert(pushes_ended(pts, n) =~= Set::empty());
    } else if marks.len() > w.marks.len() {
        lemma_pushed_once(w.marks, marks.last());
        assert(marks =~= w.marks.push(marks.last()));
    }
}

/// Where no sample carries a speed, the speed shown at a sample is that of the step into
/// it, at most 70 m/s; zero at the first, and where the step takes no time.
pub proof fn law_shown_speeds_follow_the_steps(pts: Seq<Sample>, hops: Seq<F64>, start: int, d: Drive, i: int)
    requires
        drive_measured(pts, hops, start, d),
        !carries_speeds(pts),
        0 <= i < pts.len(),
    ensures
        i == 0 || !flt(zero(), seconds_into(pts, i)) ==> d.points@[i].speed_mps == rounded2(zero()),
        i > 0 && flt(zero(), seconds_into(pts, i)) && flt(
            from_int(70),
            fdiv(hops[i], seconds_into(pts, i)),
        ) ==> d.points@[i].speed_mps == rounded2(from_int(70)),
        i > 0 && flt(zero(), seconds_into(pts, i)) && fle(
            fdiv(hops[i], seconds_into(pts, i)),
            from_int(70),
        ) ==> d.points@[i].speed_mps == rounded2(fdiv(hops[i], seconds_into(pts, i))),
{
    assert(carries_speeds(pts) == speeds_recorded(pts));
    if i > 0 {
        assert(seconds_into(pts, i) == step_seconds(pts, i));
    }
}

/// An event stands where it happened: a disengagement where full self-driving ended, a
/// push where it began.
pub open spec fn stands_right(pts: Seq<Sample>, m: FsdMark) -> bool {
    exists|i: int|
        0 <= i < pts.len() && m.at.lat == (#[trigger] pts[i]).lat && m.at.lng == pts[i].lng && if m.disengagement {
            ends_at(pts, i)
        } else {
            pushed_from(pts, i) == Some(i)
        }
}

/// Where a sample was taken.
pub open spec fn place_of(s: Sample) -> GpsPoint {
    GpsPoint { lat: s.lat, lng: s.lng }
}

proof fn lemma_stands_right(pts: Seq<Sample>, i: int, m: FsdMark)
    requires
        0 <= i < pts.len(),
        m.at == place_of(pts[i]),
        if m.disengagement {
            ends_at(pts, i)
        } else {
            pushed_from(pts, i) == Some(i)
        },
    ensures
        stands_right(pts, m),
{
    assert(m.at.lat == pts[i].lat);
}

proof fn lemma_push_begins(pts: Seq<Sample>, k: int)
    requires
        0 <= k < pts.len(),
        pushed_from(pts, k) is Some,
    ensures
        0 <= pushed_from(pts, k)->0 <= k,
        pushed_from(pts, pushed_from(pts, k)->0) == pushed_from(pts, k),
    decreases k,
{
    if k >= 1 && pushed_from(pts, k) != Some(k) {
        lemma_push_begins(pts, k - 1);
    }
}

proof fn lemma_marks_stand_right(pts: Seq<Sample>, n: int)
    requires
        1 <= n <= pts.len(),
    ensures
        ({
            let w = walk_drive(pts, n);
            &&& forall|j: int| 0 <= j < w.marks.len() ==> stands_right(pts, #[trigger] w.marks[j])
            &&& w.pending matches Some(p) ==> exists|i: int|
                #[trigger] ends_at(pts, i) && p.1 == place_of(pts[i])
            &&& w.pressing matches Some(p) ==> pushed_from(pts, n - 1) is Some && p
                == place_of(pts[pushed_from(pts, n - 1)->0])
        }),
    decreases n,
{
    if n > 1 {
        lemma_marks_stand_right(pts, n - 1);
        lemma_drive_pushing(pts, n - 1);
        let k = n - 1;
        let w = walk_drive(pts, k);
        let (prev, cur) = (pts[k - 1], pts[k]);
        let a = decide(w, cur);
        let b = switch(a, prev, cur);
        let c = push_pedal(b, cur);
        assert(walk_drive(pts, n) == c);
        assert(pedal_percent(cur.accel) == pedal_of(cur));
        lemma_nothing_between(pedal_of(cur));
        assert forall|j: int| 0 <= j < a.marks.len() implies stands_right(pts, #[trigger] a.marks[j]) by {
            if j >= w.marks.len() {
                let p = w.pending->0;
                let i = choose|i: int| #[trigger] ends_at(pts, i) && p.1 == place_of(pts[i]);
                lemma_stands_right(pts, i, a.marks[j]);
            } else {
                assert(a.marks[j] == w.marks[j]);
            }
        }
        assert(b.marks == a.marks);
        assert forall|j: int| 0 <= j < c.marks.len() implies stands_right(pts, #[trigger] c.marks[j]) by {
            if j >= b.marks.len() {
                let i = pushed_from(pts, k - 1)->0;
                lemma_push_begins(pts, k - 1);
                lemma_stands_right(pts, i, c.marks[j]);
            } else {
                assert(c.marks[j] == b.marks[j]);
            }
        }
        if c.pending is Some {
            let p = c.pending->0;
            if prev.autopilot == 1 && cur.autopilot != 1 {
                assert(ends_at(pts, k) && p.1 == place_of(pts[k]));
            } else {
                let i = choose|i: int| #[trigger] ends_at(pts, i) && p.1 == place_of(pts[i]);
                assert(ends_at(pts, i));
            }
        }
        lemma_drive_pushing(pts, n);
    }
}

/// The events of a drive stand where they happened, and are named for what they are; there
/// are as many of each as the drive counts.
pub proof fn law_events_stand_where_they_happened(pts: Seq<Sample>, hops: Seq<F64>, start: int, d: Drive, j: int)
    requires
        drive_measured(pts, hops, start, d),
        0 <= j < d.fsd_events@.len(),
    ensures
        exists|i: int|
            0 <= i < pts.len() && d.fsd_events@[j].lat == (#[trigger] pts[i]).lat
                && d.fsd_events@[j].lng == pts[i].lng && ((ends_at(pts, i)
                && d.fsd_events@[j].event_type@ == "disengagement"@) || (pushed_from(pts, i) == Some(i)
                && d.fsd_events@[j].event_type@ == "accel_push"@)),
{
    let marks = marks_of(pts);
    let n = pts.len() as int;
    assert(is_event_of(d.fsd_events@[j], marks[j]));
    lemma_marks_stand_right(pts, n);
    let w = walk_drive(pts, n);
    if j >= w.marks.len() {
        let p = w.pending->0;
        let i = choose|i: int| #[trigger] ends_at(pts, i) && p.1 == place_of(pts[i]);
        lemma_stands_right(pts, i, marks[j]);
    } else {
        assert(marks[j] == w.marks[j]);
    }
    let m = marks[j];
    assert(stands_right(pts, m));
    let i = choose|i: int|
        0 <= i < pts.len() && m.at.lat == (#[trigger] pts[i]).lat && m.at.lng == pts[i].lng && if m.disengagement {
            ends_at(pts, i)
        } else {
            pushed_from(pts, i) == Some(i)
        };
    assert(d.fsd_events@[j].lat == pts[i].lat);
}

} // verus!
