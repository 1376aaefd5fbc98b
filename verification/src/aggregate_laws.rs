//! What the scalars of a clip tell of its points.

use crate::aggregate::{
    aggregates_of, assisted, between, count_where, counted, driven_in, dt_ms, dt_sec, early_park,
    engaged_from_start, engaged_ms, first_real, frames_before, has_sei_speeds, last_real,
    mode_distance, open_park, park_intervals, parked_at, pedal, point_parks, real_points,
    run_parks, sampled, sat_mul, speed_at, step_ms, walk, walk_step,
};
use crate::calc::null_island;
use crate::drive_laws::Judged;
use crate::float::{
    F32, F64, fdiv, fle, flt, flt32, fmul, from_int, fsub, is_nan, to_int, widen, zero,
};
use crate::nearness::{
    is_top, lemma_count_where, lemma_mean_where, lemma_peak_where, lemma_sum_where,
    lemma_where_alike, moderate, near, places_where, plain, units_where,
};
use crate::rounding::{lemma_from_int_exact, lemma_one, lemma_order, one, size_of};
use crate::types::{AUTOPILOT_OFF, GEAR_PARK, GearRun, Route};
use vstd::prelude::*;

verus! {

// ---------------------------------------------------------------------------
// Park
// ---------------------------------------------------------------------------

/// Frames in front of run `k`.
pub proof fn law_frames_add_up(runs: Seq<GearRun>, k: int)
    requires
        0 <= k < runs.len(),
    ensures
        frames_before(runs, 0) == 0,
        frames_before(runs, k + 1) - frames_before(runs, k) == runs[k].frames,
{
}

/// Interval `j` of `parks` is run `k`: it begins where the frames in front of the run
/// end and lasts as long as the run.
pub open spec fn is_run(parks: Seq<(F64, F64)>, runs: Seq<GearRun>, per: F64, j: int, k: int) -> bool {
    &&& 0 <= j < parks.len()
    &&& 0 <= k < runs.len()
    &&& runs[k].gear == GEAR_PARK
    &&& runs[k].frames > 0
    &&& parks[j].0 == fmul(from_int(frames_before(runs, k)), per)
    &&& parks[j].1 == fmul(from_int(frames_before(runs, k) + runs[k].frames), per)
}

/// Interval `j` is some run.
pub open spec fn is_some_run(parks: Seq<(F64, F64)>, runs: Seq<GearRun>, per: F64, j: int) -> bool {
    exists|k: int| is_run(parks, runs, per, j, k)
}

proof fn lemma_run_parks(runs: Seq<GearRun>, per: F64, n: int) -> (at: Seq<int>)
    requires
        0 <= n <= runs.len(),
    ensures
        at.len() == run_parks(runs, per, n).len(),
        forall|j: int|
            0 <= j < at.len() ==> is_run(run_parks(runs, per, n), runs, per, j, #[trigger] at[j])
                && at[j] < n,
        forall|i: int, j: int| 0 <= i < j < at.len() ==> #[trigger] at[i] < #[trigger] at[j],
        forall|k: int|
            0 <= k < n && (#[trigger] runs[k]).gear == GEAR_PARK && runs[k].frames > 0
                ==> at.contains(k),
    decreases n,
{
    if n <= 0 {
        Seq::empty()
    } else {
        let head = lemma_run_parks(runs, per, n - 1);
        let parks = run_parks(runs, per, n);
        let before = run_parks(runs, per, n - 1);
        if runs[n - 1].gear == GEAR_PARK && runs[n - 1].frames > 0 {
            let at = head.push(n - 1);
            assert forall|j: int| 0 <= j < at.len() implies is_run(parks, runs, per, j, #[trigger] at[j])
                && at[j] < n by {
                if j < head.len() {
                    assert(is_run(before, runs, per, j, head[j]));
                    assert(parks[j] == before[j]);
                }
            }
            assert forall|k: int|
                0 <= k < n && (#[trigger] runs[k]).gear == GEAR_PARK && runs[k].frames > 0 implies
                at.contains(k) by {
                if k < n - 1 {
                    assert(head.contains(k));
                    let i = choose|i: int| 0 <= i < head.len() && head[i] == k;
                    assert(at[i] == k);
                } else {
                    assert(at[head.len() as int] == k);
                }
            }
            at
        } else {
            assert forall|j: int| 0 <= j < head.len() implies is_run(
                parks,
                runs,
                per,
                j,
                #[trigger] head[j],
            ) && head[j] < n by {
                assert(is_run(before, runs, per, j, head[j]));
            }
            head
        }
    }
}

/// The Park intervals of a clip with gear runs are its Park runs, each where its frames
/// lie in the minute of the clip, in their order, and no others: for run `k` there is
/// an interval from the frames in front of it on for as long as it lasts.
pub proof fn law_park_is_where_its_frames_are(r: Route)
    requires
        frames_before(r.gear_runs@, r.gear_runs@.len() as int) > 0,
    ensures
        ({
            let runs = r.gear_runs@;
            let per = fdiv(from_int(60_000), from_int(frames_before(runs, runs.len() as int)));
            let parks = park_intervals(r);
            &&& forall|k: int|
                0 <= k < runs.len() && (#[trigger] runs[k]).gear == GEAR_PARK && runs[k].frames > 0
                    ==> exists|j: int| is_run(parks, runs, per, j, k)
            &&& forall|j: int| 0 <= j < parks.len() ==> #[trigger] is_some_run(parks, runs, per, j)
        }),
{
    let runs = r.gear_runs@;
    let n = runs.len() as int;
    let per = fdiv(from_int(60_000), from_int(frames_before(runs, n)));
    let parks = park_intervals(r);
    let at = lemma_run_parks(runs, per, n);
    assert forall|k: int|
        0 <= k < n && (#[trigger] runs[k]).gear == GEAR_PARK && runs[k].frames > 0 implies exists|
        j: int,
    | is_run(parks, runs, per, j, k) by {
        assert(at.contains(k));
        let j = choose|j: int| 0 <= j < at.len() && at[j] == k;
        assert(is_run(parks, runs, per, j, at[j]));
    }
    assert forall|j: int| 0 <= j < parks.len() implies #[trigger] is_some_run(parks, runs, per, j) by {
        assert(is_run(parks, runs, per, j, at[j]));
    }
}

/// Points `s..e` are a Park stretch, as long as it can be.
pub open spec fn is_park_stretch(gears: Seq<u8>, s: int, e: int) -> bool {
    &&& 0 <= s < e <= gears.len()
    &&& forall|i: int| s <= i < e ==> #[trigger] gears[i] == GEAR_PARK
    &&& s > 0 ==> gears[s - 1] != GEAR_PARK
    &&& e < gears.len() ==> gears[e] != GEAR_PARK
}

/// Interval `j` is the stretch `s..e`; one that reaches the last point lasts to the end
/// of the minute.
pub open spec fn is_stretch(parks: Seq<(F64, F64)>, gears: Seq<u8>, per: F64, j: int, s: int, e: int) -> bool {
    &&& 0 <= j < parks.len()
    &&& is_park_stretch(gears, s, e)
    &&& parks[j].0 == fmul(from_int(s), per)
    &&& parks[j].1 == if e < gears.len() {
        fmul(from_int(e), per)
    } else {
        from_int(60_000)
    }
}

/// Interval `j` is some stretch that ends before point `n`.
pub open spec fn is_some_stretch(parks: Seq<(F64, F64)>, gears: Seq<u8>, per: F64, j: int, n: int) -> bool {
    exists|s: int, e: int| is_stretch(parks, gears, per, j, s, e) && e < n
}

proof fn lemma_open_park(gears: Seq<u8>, n: int)
    requires
        0 <= n <= gears.len(),
    ensures
        open_park(gears, n) is Some <==> n > 0 && gears[n - 1] == GEAR_PARK,
        open_park(gears, n) matches Some(s) ==> {
            &&& 0 <= s < n
            &&& forall|i: int| s <= i < n ==> #[trigger] gears[i] == GEAR_PARK
            &&& s > 0 ==> gears[s - 1] != GEAR_PARK
        },
    decreases n,
{
    if n > 0 && gears[n - 1] == GEAR_PARK {
        lemma_open_park(gears, n - 1);
    }
}

proof fn lemma_point_parks(gears: Seq<u8>, per: F64, n: int)
    requires
        0 <= n <= gears.len(),
    ensures
        forall|j: int|
            0 <= j < point_parks(gears, per, n).len() ==> #[trigger] is_some_stretch(
                point_parks(gears, per, n),
                gears,
                per,
                j,
                n,
            ),
        forall|s: int, e: int|
            #[trigger] is_park_stretch(gears, s, e) && e < n ==> exists|j: int|
                is_stretch(point_parks(gears, per, n), gears, per, j, s, e),
    decreases n,
{
    if n > 0 {
        lemma_point_parks(gears, per, n - 1);
        lemma_open_park(gears, n - 1);
        let b = point_parks(gears, per, n - 1);
        let p = point_parks(gears, per, n);
        let grows = open_park(gears, n - 1) is Some && gears[n - 1] != GEAR_PARK;
        if grows {
            let s = open_park(gears, n - 1)->0;
            assert(is_park_stretch(gears, s, n - 1));
            assert(is_stretch(p, gears, per, b.len() as int, s, n - 1));
        }
        assert forall|j: int| 0 <= j < p.len() implies #[trigger] is_some_stretch(
            p,
            gears,
            per,
            j,
            n,
        ) by {
            if j < b.len() {
                assert(is_some_stretch(b, gears, per, j, n - 1));
                let (s, e) = choose|s: int, e: int|
                    is_stretch(b, gears, per, j, s, e) && e < n - 1;
                assert(p[j] == b[j]);
                assert(is_stretch(p, gears, per, j, s, e));
            }
        }
        assert forall|s: int, e: int| #[trigger] is_park_stretch(gears, s, e) && e < n implies exists|
            j: int,
        | is_stretch(p, gears, per, j, s, e) by {
            if e < n - 1 {
                let j = choose|j: int| is_stretch(b, gears, per, j, s, e);
                assert(p[j] == b[j]);
                assert(is_stretch(p, gears, per, j, s, e));
            } else {
                assert(gears[e - 1] == GEAR_PARK);
                let o = open_park(gears, n - 1)->0;
                if o < s {
                    assert(gears[s - 1] == GEAR_PARK);
                } else if s < o {
                    assert(gears[o - 1] == GEAR_PARK);
                }
                assert(is_stretch(p, gears, per, b.len() as int, s, e));
            }
        }
    }
}

/// Without gear runs the Park intervals of a clip are the stretches of its points in
/// Park: every interval is one, and every one is an interval.
pub proof fn law_park_is_where_its_points_are(r: Route)
    requires
        frames_before(r.gear_runs@, r.gear_runs@.len() as int) <= 0,
        r.gear_states@.len() == r.points@.len(),
    ensures
        ({
            let gears = r.gear_states@;
            let parks = park_intervals(r);
            &&& forall|j: int|
                0 <= j < parks.len() ==> #[trigger] is_some_stretch(
                    parks,
                    gears,
                    dt_ms(r),
                    j,
                    gears.len() as int + 1,
                )
            &&& forall|s: int, e: int|
                #[trigger] is_park_stretch(gears, s, e) ==> exists|j: int|
                    is_stretch(parks, gears, dt_ms(r), j, s, e)
        }),
{
    let gears = r.gear_states@;
    let n = gears.len() as int;
    let per = dt_ms(r);
    let parks = park_intervals(r);
    let b = point_parks(gears, per, n);
    lemma_point_parks(gears, per, n);
    lemma_open_park(gears, n);
    let open = open_park(gears, n);
    if open is Some {
        assert(is_park_stretch(gears, open->0, n));
        assert(is_stretch(parks, gears, per, b.len() as int, open->0, n));
    }
    assert forall|j: int| 0 <= j < parks.len() implies #[trigger] is_some_stretch(
        parks,
        gears,
        per,
        j,
        gears.len() as int + 1,
    ) by {
        if j < b.len() {
            assert(is_some_stretch(b, gears, per, j, n));
            let (s, e) = choose|s: int, e: int| is_stretch(b, gears, per, j, s, e) && e < n;
            assert(parks[j] == b[j]);
            assert(is_stretch(parks, gears, per, j, s, e));
        }
    }
    assert forall|s: int, e: int| #[trigger] is_park_stretch(gears, s, e) implies exists|j: int|
        is_stretch(parks, gears, per, j, s, e) by {
        if e < n {
            let j = choose|j: int| is_stretch(b, gears, per, j, s, e);
            assert(parks[j] == b[j]);
            assert(is_stretch(parks, gears, per, j, s, e));
        } else {
            assert(gears[e - 1] == GEAR_PARK);
            let o = open->0;
            if o < s {
                assert(gears[s - 1] == GEAR_PARK);
            } else if s < o {
                assert(gears[o - 1] == GEAR_PARK);
            }
            assert(is_stretch(parks, gears, per, b.len() as int, s, e));
        }
    }
}

/// A clip tells of the first Park that begins within its first two seconds.
pub proof fn law_early_park_is_the_first(r: Route, hops: Seq<F64>)
    requires
        r.points@.len() >= 2,
    ensures
        ({
            let parks = park_intervals(r);
            match aggregates_of(r, hops).park_ms_start {
                Some(ms) => exists|k: int|
                    0 <= k < parks.len() && (#[trigger] parks[k]).0 == ms && flt(ms, from_int(2000))
                        && forall|j: int| 0 <= j < k ==> !flt((#[trigger] parks[j]).0, from_int(2000)),
                None => forall|k: int|
                    0 <= k < parks.len() ==> !flt((#[trigger] parks[k]).0, from_int(2000)),
            }
        }),
{
    lemma_early_park(park_intervals(r), 0);
}

proof fn lemma_early_park(parks: Seq<(F64, F64)>, k: int)
    requires
        0 <= k <= parks.len(),
        forall|j: int| 0 <= j < k ==> !flt((#[trigger] parks[j]).0, from_int(2000)),
    ensures
        match early_park(parks, k) {
            Some(ms) => exists|i: int|
                0 <= i < parks.len() && (#[trigger] parks[i]).0 == ms && flt(ms, from_int(2000))
                    && forall|j: int| 0 <= j < i ==> !flt((#[trigger] parks[j]).0, from_int(2000)),
            None => forall|i: int|
                0 <= i < parks.len() ==> !flt((#[trigger] parks[i]).0, from_int(2000)),
        },
    decreases parks.len() - k,
{
    if k < parks.len() {
        if flt(parks[k].0, from_int(2000)) {
            assert(parks[k].0 == early_park(parks, k)->0);
        } else {
            lemma_early_park(parks, k + 1);
        }
    }
}

// ---------------------------------------------------------------------------
// Positions
// ---------------------------------------------------------------------------

/// Point `i` has a fix.
pub open spec fn has_fix(r: Route, i: int) -> bool {
    !null_island(r.points@[i].lat, r.points@[i].lng)
}

proof fn lemma_first_real(r: Route, i: int)
    requires
        0 <= i <= r.points@.len(),
        forall|j: int| 0 <= j < i ==> !#[trigger] has_fix(r, j),
    ensures
        match first_real(r, i) {
            Some(p) => exists|k: int|
                0 <= k < r.points@.len() && #[trigger] has_fix(r, k) && r.points@[k] == p
                    && forall|j: int| 0 <= j < k ==> !#[trigger] has_fix(r, j),
            None => forall|k: int| 0 <= k < r.points@.len() ==> !#[trigger] has_fix(r, k),
        },
    decreases r.points@.len() - i,
{
    if i < r.points@.len() {
        if has_fix(r, i) {
            assert(r.points@[i] == first_real(r, i)->0);
        } else {
            lemma_first_real(r, i + 1);
        }
    }
}

proof fn lemma_last_real(r: Route, n: int)
    requires
        0 <= n <= r.points@.len(),
        forall|j: int| n <= j < r.points@.len() ==> !#[trigger] has_fix(r, j),
    ensures
        match last_real(r, n) {
            Some(p) => exists|k: int|
                0 <= k < r.points@.len() && #[trigger] has_fix(r, k) && r.points@[k] == p
                    && forall|j: int| k < j < r.points@.len() ==> !#[trigger] has_fix(r, j),
            None => forall|k: int| 0 <= k < r.points@.len() ==> !#[trigger] has_fix(r, k),
        },
    decreases n,
{
    if n > 0 {
        if has_fix(r, n - 1) {
            assert(r.points@[n - 1] == last_real(r, n)->0);
        } else {
            lemma_last_real(r, n - 1);
        }
    }
}

proof fn lemma_real_points(r: Route, n: int)
    requires
        0 <= n,
    ensures
        Set::new(|i: int| 0 <= i < n && has_fix(r, i)).finite(),
        real_points(r, n) == Set::new(|i: int| 0 <= i < n && has_fix(r, i)).len(),
        real_points(r, n) <= n,
    decreases n,
{
    let s = Set::new(|i: int| 0 <= i < n && has_fix(r, i));
    if n <= 0 {
        assert(s =~= Set::empty());
    } else {
        lemma_real_points(r, n - 1);
        let t = Set::new(|i: int| 0 <= i < n - 1 && has_fix(r, i));
        if has_fix(r, n - 1) {
            assert(s =~= t.insert(n - 1));
        } else {
            assert(s =~= t);
        }
    }
}

/// A clip starts at its first point with a fix and ends at its last one, and counts the
/// points that have one.
pub proof fn law_clips_lead_from_fix_to_fix(r: Route, hops: Seq<F64>)
    requires
        r.points@.len() <= i32::MAX,
    ensures
        ({
            let a = aggregates_of(r, hops);
            let n = r.points@.len() as int;
            &&& a.start_lat is Some <==> a.start_lng is Some
            &&& a.end_lat is Some <==> a.end_lng is Some
            &&& a.start_lat is Some <==> a.end_lat is Some
            &&& a.start_lat is None ==> forall|k: int| 0 <= k < n ==> !#[trigger] has_fix(r, k)
            &&& a.start_lat is Some ==> exists|k: int|
                0 <= k < n && #[trigger] has_fix(r, k) && r.points@[k].lat == a.start_lat->0
                    && r.points@[k].lng == a.start_lng->0 && forall|j: int|
                    0 <= j < k ==> !#[trigger] has_fix(r, j)
            &&& a.end_lat is Some ==> exists|k: int|
                0 <= k < n && #[trigger] has_fix(r, k) && r.points@[k].lat == a.end_lat->0
                    && r.points@[k].lng == a.end_lng->0 && forall|j: int|
                    k < j < n ==> !#[trigger] has_fix(r, j)
            &&& a.valid_point_count == Set::new(|i: int| 0 <= i < n && has_fix(r, i)).len()
        }),
{
    let n = r.points@.len() as int;
    lemma_first_real(r, 0);
    lemma_last_real(r, n);
    lemma_real_points(r, n);
}

// ---------------------------------------------------------------------------
// Speeds and distances
// ---------------------------------------------------------------------------

/// The car recorded speeds: one per point, and one above zero.
pub open spec fn records_speeds(r: Route) -> bool {
    &&& r.speeds@.len() == r.points@.len()
    &&& exists|i: int| 0 <= i < r.speeds@.len() && flt32(F32 { bits: 0 }, #[trigger] r.speeds@[i])
}

/// Seconds from point to point: the minute of the clip in equal parts.
pub open spec fn seconds_apart_in(r: Route) -> F64 {
    fdiv(
        fdiv(from_int(60_000), fsub(from_int(r.points@.len() as int), from_int(1))),
        from_int(1000),
    )
}

/// The speed at point `i`: the recorded one, or else that of the step into it.
pub open spec fn clip_speed(r: Route, hops: Seq<F64>) -> spec_fn(int) -> F64 {
    |i: int|
        if records_speeds(r) {
            widen(r.speeds@[i])
        } else {
            fdiv(hops[i], seconds_apart_in(r))
        }
}

/// That speed is believable, between two points with a fix: recorded ones from zero to
/// below 100 m/s, others below 70 m/s.
pub open spec fn believable_in_clip(r: Route, hops: Seq<F64>) -> spec_fn(int) -> bool {
    |i: int|
        {
            &&& has_fix(r, i - 1)
            &&& has_fix(r, i)
            &&& if records_speeds(r) {
                fle(zero(), widen(r.speeds@[i])) && flt(widen(r.speeds@[i]), from_int(100))
            } else {
                flt(zero(), seconds_apart_in(r)) && flt(
                    fdiv(hops[i], seconds_apart_in(r)),
                    from_int(70),
                )
            }
        }
}

/// The step into point `i` counts: both ends have a fix, and without recorded speeds it
/// is not faster than 70 m/s.
pub open spec fn step_counts(r: Route, hops: Seq<F64>, i: int) -> bool {
    &&& has_fix(r, i - 1)
    &&& has_fix(r, i)
    &&& records_speeds(r) || !flt(zero(), seconds_apart_in(r)) || !flt(
        from_int(70),
        fdiv(hops[i], seconds_apart_in(r)),
    )
}

/// Steps that count, in `mode`; in any mode for `None`.
pub open spec fn steps_in(r: Route, hops: Seq<F64>, mode: Option<u8>) -> spec_fn(int) -> bool {
    |i: int|
        step_counts(r, hops, i) && match mode {
            Some(m) => r.autopilot_states@[i] == m,
            None => true,
        }
}

/// Steps that count, with any assistance.
pub open spec fn assisted_steps(r: Route, hops: Seq<F64>) -> spec_fn(int) -> bool {
    |i: int| step_counts(r, hops, i) && r.autopilot_states@[i] != AUTOPILOT_OFF
}

pub open spec fn step_lengths(hops: Seq<F64>) -> spec_fn(int) -> F64 {
    |i: int| hops[i]
}

proof fn lemma_clip_terms(r: Route, hops: Seq<F64>)
    ensures
        has_sei_speeds(r) == records_speeds(r),
        dt_sec(r) == seconds_apart_in(r),
        forall|i: int| #[trigger] speed_at(r, hops, i) == clip_speed(r, hops)(i),
        forall|i: int| #[trigger] counted(r, hops, i) == step_counts(r, hops, i),
{
}

/// The greatest speed of a clip is the greatest believable one; the average is their
/// mean, up to rounding, and the count is how many there are.
pub proof fn law_clip_speeds(r: Route, hops: Seq<F64>)
    requires
        2 <= r.points@.len() <= i32::MAX,
    ensures
        ({
            let a = aggregates_of(r, hops);
            let n = r.points@.len() as int;
            let (v, keep) = (clip_speed(r, hops), believable_in_clip(r, hops));
            let c = places_where(keep, n).len();
            &&& is_top(a.max_speed_mps, v, keep, n)
            &&& places_where(keep, n).finite()
            &&& a.speed_sample_count == c
            &&& c == 0 ==> a.avg_speed_mps == zero()
            &&& c > 0 && (forall|i: int| 1 <= i < n && #[trigger] keep(i) ==> plain(v(i))) ==> near(
                a.avg_speed_mps,
                units_where(v, keep, n),
                one() * c,
                (n + 1) as nat,
            )
        }),
{
    let n = r.points@.len() as int;
    let (v, keep) = (clip_speed(r, hops), believable_in_clip(r, hops));
    let w = |i: int| speed_at(r, hops, i);
    let hold = |i: int| sampled(r, hops, i);
    lemma_clip_terms(r, hops);
    lemma_from_int_exact(70);
    assert forall|i: int| 1 <= i < n implies #[trigger] keep(i) == hold(i) by {
        assert(speed_at(r, hops, i) == v(i));
        assert(counted(r, hops, i) == step_counts(r, hops, i));
    }
    assert forall|i: int| 1 <= i < n && #[trigger] keep(i) implies v(i) == w(i) by {
        assert(speed_at(r, hops, i) == v(i));
    }
    lemma_where_alike(v, keep, w, hold, n);
    assert forall|i: int| 1 <= i < n && #[trigger] keep(i) implies !is_nan(v(i)) by {}
    lemma_peak_where(v, keep, n);
    lemma_count_where(keep, n);
    if count_where(keep, n) > 0 && (forall|i: int|
        1 <= i < n && #[trigger] keep(i) ==> plain(v(i))) {
        lemma_mean_where(v, keep, n);
    }
}

/// The distance of a clip, as a whole, in each mode and with any assistance, is the sum
/// of the steps that count, up to rounding; the time in a mode is the number of steps in
/// it times the whole milliseconds of a step.
pub proof fn law_clip_distances(r: Route, hops: Seq<F64>)
    requires
        2 <= r.points@.len() <= i32::MAX,
        forall|i: int| 1 <= i < hops.len() ==> moderate(#[trigger] hops[i]),
        hops.len() == r.points@.len(),
    ensures
        ({
            let a = aggregates_of(r, hops);
            let n = r.points@.len() as int;
            let v = step_lengths(hops);
            let e = (n - 1) as nat;
            let step = to_int(
                fdiv(from_int(60_000), fsub(from_int(n), from_int(1))),
                i64::MIN as int,
                i64::MAX as int,
            );
            let fsd = steps_in(r, hops, Some(1u8));
            let steer = steps_in(r, hops, Some(2u8));
            let tacc = steps_in(r, hops, Some(3u8));
            let known = r.autopilot_states@.len() == n;
            &&& near(a.distance_m, units_where(v, steps_in(r, hops, None), n), one(), e)
            &&& known ==> near(a.fsd_distance_m, units_where(v, fsd, n), one(), e)
            &&& known ==> near(a.autosteer_distance_m, units_where(v, steer, n), one(), e)
            &&& known ==> near(a.tacc_distance_m, units_where(v, tacc, n), one(), e)
            &&& known ==> near(
                a.assisted_distance_m,
                units_where(v, assisted_steps(r, hops), n),
                one(),
                e,
            )
            &&& known ==> a.fsd_engaged_ms == sat_mul(places_where(fsd, n).len() as int, step)
            &&& known ==> a.autosteer_engaged_ms == sat_mul(
                places_where(steer, n).len() as int,
                step,
            )
            &&& known ==> a.tacc_engaged_ms == sat_mul(places_where(tacc, n).len() as int, step)
            &&& !known ==> a.fsd_distance_m == zero() && a.autosteer_distance_m == zero()
                && a.tacc_distance_m == zero() && a.assisted_distance_m == zero()
                && a.fsd_engaged_ms == 0 && a.autosteer_engaged_ms == 0 && a.tacc_engaged_ms == 0
        }),
{
    let n = r.points@.len() as int;
    let v = step_lengths(hops);
    let w = |i: int| hops[i];
    lemma_clip_terms(r, hops);
    assert forall|i: int| 1 <= i < n implies moderate(#[trigger] v(i)) by {
        assert(moderate(hops[i]));
    }
    let all = steps_in(r, hops, None);
    let counts = |i: int| counted(r, hops, i);
    assert forall|i: int| 1 <= i < n implies #[trigger] all(i) == counts(i) by {
        assert(counted(r, hops, i) == step_counts(r, hops, i));
    }
    lemma_where_alike(v, all, w, counts, n);
    lemma_sum_where(v, all, n);
    lemma_mode_alike(r, hops, 1u8);
    lemma_mode_alike(r, hops, 2u8);
    lemma_mode_alike(r, hops, 3u8);
    let helped = assisted_steps(r, hops);
    let was = |i: int| assisted(r, hops, i);
    assert forall|i: int| 1 <= i < n implies #[trigger] helped(i) == was(i) by {
        assert(counted(r, hops, i) == step_counts(r, hops, i));
    }
    lemma_where_alike(v, helped, w, was, n);
    lemma_sum_where(v, helped, n);
}

proof fn lemma_mode_alike(r: Route, hops: Seq<F64>, mode: u8)
    requires
        2 <= r.points@.len() <= i32::MAX,
        forall|i: int| 1 <= i < hops.len() ==> moderate(#[trigger] hops[i]),
        hops.len() == r.points@.len(),
    ensures
        ({
            let n = r.points@.len() as int;
            let v = step_lengths(hops);
            let keep = steps_in(r, hops, Some(mode));
            &&& r.autopilot_states@.len() == n ==> near(
                mode_distance(r, hops, mode),
                units_where(v, keep, n),
                one(),
                (n - 1) as nat,
            )
            &&& r.autopilot_states@.len() == n ==> engaged_ms(r, hops, mode) == sat_mul(
                places_where(keep, n).len() as int,
                step_ms(r),
            )
            &&& places_where(keep, n).finite()
        }),
{
    let n = r.points@.len() as int;
    let v = step_lengths(hops);
    let w = |i: int| hops[i];
    let keep = steps_in(r, hops, Some(mode));
    let hold = |i: int| driven_in(r, hops, i, mode);
    lemma_clip_terms(r, hops);
    assert forall|i: int| 1 <= i < n implies moderate(#[trigger] v(i)) by {
        assert(moderate(hops[i]));
    }
    assert forall|i: int| 1 <= i < n implies #[trigger] keep(i) == hold(i) by {
        assert(counted(r, hops, i) == step_counts(r, hops, i));
    }
    lemma_where_alike(v, keep, w, hold, n);
    lemma_sum_where(v, keep, n);
    lemma_count_where(keep, n);
}

// ---------------------------------------------------------------------------
// Disengagements
// ---------------------------------------------------------------------------

/// Full self-driving ends at point `i` of the clip.
pub open spec fn clip_ends_at(r: Route, i: int) -> bool {
    1 <= i < r.points@.len() && r.autopilot_states@[i - 1] == 1 && r.autopilot_states@[i] != 1
}

/// Milliseconds from point `i` to point `j`: the steps between times what each lasts.
pub open spec fn clip_time(r: Route, i: int, j: int) -> F64 {
    fmul(
        from_int(j - i),
        fdiv(from_int(60_000), fsub(from_int(r.points@.len() as int), from_int(1))),
    )
}

/// Point `i` lies in a Park interval of the clip.
pub open spec fn point_in_park(r: Route, i: int) -> bool {
    let parks = park_intervals(r);
    exists|k: int|
        0 <= k < parks.len() && fle((#[trigger] parks[k]).0, clip_time(r, 0, i)) && flt(
            clip_time(r, 0, i),
            parks[k].1,
        )
}

/// The end at point `i`, judged by the points before `n`: the first of them that is in
/// Park within two seconds cancels it; the first later than two seconds, or back in full
/// self-driving, counts it.
pub open spec fn clip_judged(r: Route, i: int, n: int) -> Judged
    decreases n - i,
{
    if n <= i + 1 {
        Judged::Open
    } else if clip_judged(r, i, n - 1) != Judged::Open {
        clip_judged(r, i, n - 1)
    } else if point_in_park(r, n - 1) && fle(clip_time(r, i, n - 1), from_int(2000)) {
        Judged::Cancelled
    } else if r.autopilot_states@[n - 1] == 1 || flt(from_int(2000), clip_time(r, i, n - 1)) {
        Judged::Counted
    } else {
        Judged::Open
    }
}

/// The ends before point `n` that are judged so.
pub open spec fn clip_ends(r: Route, n: int, how: Judged) -> Set<int> {
    Set::new(|i: int| 0 <= i < n && clip_ends_at(r, i) && clip_judged(r, i, n) == how)
}

proof fn lemma_clip_judging(r: Route, hops: Seq<F64>, n: int)
    requires
        r.autopilot_states@.len() == r.points@.len(),
        1 <= n <= r.points@.len(),
        forall|i: int| 1 <= i < r.points@.len() ==> #[trigger] counted(r, hops, i),
    ensures
        ({
            let w = walk(r, hops, n);
            let done = clip_ends(r, n, Judged::Counted);
            &&& done.finite()
            &&& w.disengaged == done.len()
            &&& w.pending is None ==> clip_ends(r, n, Judged::Open) =~= Set::empty()
            &&& w.pending matches Some(i) ==> clip_ends_at(r, i) && i < n && clip_ends(
                r,
                n,
                Judged::Open,
            ) =~= set![i]
        }),
    decreases n,
{
    let now = clip_ends(r, n, Judged::Counted);
    let open_now = clip_ends(r, n, Judged::Open);
    if n == 1 {
        assert(now =~= Set::empty());
        assert(open_now =~= Set::empty());
    } else {
        lemma_clip_judging(r, hops, n - 1);
        assert(counted(r, hops, n - 1));
        let k = n - 1;
        let w = walk(r, hops, k);
        let was = clip_ends(r, k, Judged::Counted);
        let open = clip_ends(r, k, Judged::Open);
        let c = walk(r, hops, n);
        assert(c == walk_step(r, w, k));
        let new = clip_ends_at(r, k);
        assert(new ==> clip_judged(r, k, n) == Judged::Open);
        assert(k - 0 == k);
        assert(point_in_park(r, k) == parked_at(park_intervals(r), fmul(from_int(k), dt_ms(r))));
        assert forall|i: int| 0 <= i < k && #[trigger] clip_ends_at(r, i) && clip_judged(r, i, k)
            != Judged::Open implies clip_judged(r, i, n) == clip_judged(r, i, k) by {}
        match w.pending {
            None => {
                assert forall|j: int| 0 <= j < k && #[trigger] clip_ends_at(r, j) implies clip_judged(
                    r,
                    j,
                    k,
                ) != Judged::Open by {
                    assert(!open.contains(j));
                }
                assert(now =~= was);
                if new {
                    assert(open_now =~= set![k]);
                } else {
                    assert(open_now =~= Set::empty());
                }
            },
            Some(i) => {
                assert(open.contains(i));
                assert(clip_judged(r, i, k) == Judged::Open);
                assert(r.autopilot_states@[k - 1] != 1) by {
                    if i < k - 1 {
                        assert(clip_judged(r, i, k) == Judged::Open);
                    }
                }
                assert(!new);
                assert(between(r, i, k) == clip_time(r, i, k));
                assert forall|j: int| 0 <= j < k && #[trigger] clip_ends_at(r, j) && j != i implies clip_judged(
                    r,
                    j,
                    k,
                ) != Judged::Open by {
                    if clip_judged(r, j, k) == Judged::Open {
                        assert(open.contains(j));
                    }
                }
                if c.pending is None {
                    assert(open_now =~= Set::empty());
                    if c.disengaged > w.disengaged {
                        assert(clip_judged(r, i, n) == Judged::Counted);
                        assert(now =~= was.insert(i));
                        assert(!was.contains(i));
                    } else {
                        assert(clip_judged(r, i, n) == Judged::Cancelled);
                        assert(now =~= was);
                    }
                } else {
                    assert(clip_judged(r, i, n) == Judged::Open);
                    assert(now =~= was);
                    assert(open_now =~= set![i]);
                }
            },
        }
    }
}

/// A clip of which every step counts has the ends of full self-driving for its
/// disengagements, but for those that Park cancels within two seconds. One still open at
/// its end counts where it is older than two seconds, and is handed on with its age where
/// it is not.
pub proof fn law_clip_disengagements(r: Route, hops: Seq<F64>)
    requires
        2 <= r.points@.len() <= i32::MAX,
        r.autopilot_states@.len() == r.points@.len(),
        forall|i: int| 1 <= i < r.points@.len() ==> #[trigger] step_counts(r, hops, i),
    ensures
        ({
            let a = aggregates_of(r, hops);
            let n = r.points@.len() as int;
            let open = clip_ends(r, n, Judged::Open);
            let done = clip_ends(r, n, Judged::Counted);
            &&& done.finite()
            &&& forall|i: int|
                #[trigger] open.contains(i) ==> if flt(from_int(2000), clip_time(r, i, n - 1)) {
                    a.fsd_disengagements == done.len() + 1 && a.fsd_pend_ms_end is None
                } else {
                    a.fsd_disengagements == done.len() && a.fsd_pend_ms_end == Some(
                        clip_time(r, i, n - 1),
                    )
                }
            &&& (forall|i: int| !(#[trigger] open.contains(i))) ==> a.fsd_disengagements == done.len()
                && a.fsd_pend_ms_end is None
            &&& a.fsd_at_end == (r.autopilot_states@[n - 1] == 1)
            &&& a.ap_at_start == Some(r.autopilot_states@[0] as i32)
        }),
{
    let n = r.points@.len() as int;
    let open = clip_ends(r, n, Judged::Open);
    let done = clip_ends(r, n, Judged::Counted);
    lemma_clip_terms(r, hops);
    assert forall|i: int| 1 <= i < n implies #[trigger] counted(r, hops, i) by {
        assert(step_counts(r, hops, i));
    }
    lemma_clip_judging(r, hops, n);
    let w = walk(r, hops, n);
    lemma_range_len(n);
    assert(done.subset_of(Set::new(|i: int| 0 <= i < n)));
    match w.pending {
        Some(p) => {
            assert(open.contains(p));
            assert(between(r, p, n - 1) == clip_time(r, p, n - 1));
            assert forall|i: int| #[trigger] open.contains(i) implies i == p by {}
            assert(!done.contains(p));
            vstd::set_lib::lemma_len_subset(done.insert(p), Set::new(|i: int| 0 <= i < n));
        },
        None => {
            assert(open =~= Set::empty());
            vstd::set_lib::lemma_len_subset(done, Set::new(|i: int| 0 <= i < n));
        },
    }
}

proof fn lemma_range_len(n: int)
    requires
        0 <= n,
    ensures
        Set::new(|i: int| 0 <= i < n).finite(),
        Set::new(|i: int| 0 <= i < n).len() == n,
    decreases n,
{
    let s = Set::new(|i: int| 0 <= i < n);
    if n <= 0 {
        assert(s =~= Set::empty());
    } else {
        lemma_range_len(n - 1);
        assert(s =~= Set::new(|i: int| 0 <= i < n - 1).insert(n - 1));
    }
}

// ---------------------------------------------------------------------------
// Pedal pushes
// ---------------------------------------------------------------------------

/// Where full self-driving, on at point `k`, was engaged.
pub open spec fn engaged_at(r: Route, k: int) -> int
    decreases k,
{
    if k <= 0 {
        0
    } else if r.autopilot_states@[k - 1] != 1 {
        k
    } else {
        engaged_at(r, k - 1)
    }
}

/// The pedal at point `k`: up to 1 it is a fraction, of which a hundred make one.
pub open spec fn pedal_at_point(r: Route, k: int) -> F64 {
    let v = widen(r.accel_positions@[k]);
    if fle(v, from_int(1)) {
        fmul(v, from_int(100))
    } else {
        v
    }
}

/// Point `k` is three seconds or more behind the engagement.
pub open spec fn past_grace(r: Route, k: int) -> bool {
    fle(from_int(3000), clip_time(r, engaged_at(r, k), k))
}

/// Where the push under way at point `k` began: in full self-driving, with the pedal above
/// one percent, three seconds after engaging or later, or at any time where the clip began
/// engaged; it lasts until the pedal is released or the mode is left.
pub open spec fn push_from(r: Route, k: int) -> Option<int>
    decreases k,
{
    if k < 1 || r.autopilot_states@[k] != 1 {
        None
    } else if r.autopilot_states@[k - 1] == 1 && push_from(r, k - 1) is Some {
        if fle(pedal_at_point(r, k), zero()) {
            None
        } else {
            push_from(r, k - 1)
        }
    } else if flt(from_int(1), pedal_at_point(r, k)) && (past_grace(r, k) || engaged_at(r, k) == 0) {
        Some(k)
    } else {
        None
    }
}

/// A push ends at point `k` by the pedal's release; `early` ones began within three
/// seconds of engaging.
pub open spec fn released_at(r: Route, k: int, early: bool) -> bool {
    &&& 1 <= k < r.points@.len()
    &&& r.autopilot_states@[k] == 1
    &&& r.autopilot_states@[k - 1] == 1
    &&& fle(pedal_at_point(r, k), zero())
    &&& push_from(r, k - 1) matches Some(j) && past_grace(r, j) != early
}

pub open spec fn releases(r: Route, n: int, early: bool) -> Set<int> {
    Set::new(|k: int| 0 <= k < n && released_at(r, k, early))
}

proof fn lemma_engaged_at(r: Route, k: int)
    requires
        0 <= k,
    ensures
        0 <= engaged_at(r, k) <= k,
    decreases k,
{
    if k > 0 {
        lemma_engaged_at(r, k - 1);
    }
}

proof fn lemma_pushing(r: Route, hops: Seq<F64>, n: int)
    requires
        r.autopilot_states@.len() == r.points@.len(),
        r.accel_positions@.len() == r.points@.len(),
        1 <= n <= r.points@.len(),
        forall|i: int| 1 <= i < r.points@.len() ==> #[trigger] counted(r, hops, i),
    ensures
        ({
            let w = walk(r, hops, n);
            let k = n - 1;
            let on = r.autopilot_states@[k] == 1;
            &&& releases(r, n, false).finite()
            &&& releases(r, n, true).finite()
            &&& w.pushes == releases(r, n, false).len()
            &&& w.early_pushes == releases(r, n, true).len()
            &&& on ==> w.engaged == engaged_at(r, k)
            &&& w.pressing == (push_from(r, k) is Some)
            &&& w.pressing ==> on && 0 <= push_from(r, k)->0 <= k && w.early == !past_grace(
                r,
                push_from(r, k)->0,
            )
        }),
    decreases n,
{
    let (late, early) = (releases(r, n, false), releases(r, n, true));
    if n == 1 {
        assert(late =~= Set::empty());
        assert(early =~= Set::empty());
    } else {
        lemma_pushing(r, hops, n - 1);
        let k = n - 1;
        assert(counted(r, hops, k));
        let w = walk(r, hops, k);
        let c = walk(r, hops, n);
        assert(c == walk_step(r, w, k));
        let (l, e) = (releases(r, k, false), releases(r, k, true));
        lemma_engaged_at(r, k);
        let at = engaged_at(r, k);
        assert(between(r, at, k) == clip_time(r, at, k));
        assert(pedal(r, k) == pedal_at_point(r, k));
        assert(late =~= if released_at(r, k, false) {
            l.insert(k)
        } else {
            l
        });
        assert(early =~= if released_at(r, k, true) {
            e.insert(k)
        } else {
            e
        });
        assert(!l.contains(k) && !e.contains(k));
        assert(engaged_from_start(r) == (r.autopilot_states@[0] == 1));
        if at == 0 && r.autopilot_states@[k] == 1 {
            lemma_on_from_start(r, k);
        }
        lemma_one_percent(pedal_at_point(r, k));
    }
}

/// Nothing is above one and not above zero.
proof fn lemma_one_percent(v: F64)
    ensures
        !(flt(from_int(1), v) && fle(v, zero())),
{
    lemma_from_int_exact(1);
    lemma_one();
    assert(size_of(zero()) == 0);
    lemma_order(zero(), from_int(1));
}

proof fn lemma_on_from_start(r: Route, k: int)
    requires
        0 <= k < r.autopilot_states@.len(),
        engaged_at(r, k) == 0,
        r.autopilot_states@[k] == 1,
    ensures
        r.autopilot_states@[0] == 1,
    decreases k,
{
    if k > 0 {
        lemma_on_from_start(r, k - 1);
    }
}

/// A clip of which every step counts has a push of the pedal for every release that ends
/// one; those that began in the first three seconds of a clip that was engaged from its
/// start are told apart.
pub proof fn law_clip_pushes(r: Route, hops: Seq<F64>)
    requires
        2 <= r.points@.len() <= i32::MAX,
        r.autopilot_states@.len() == r.points@.len(),
        r.accel_positions@.len() == r.points@.len(),
        forall|i: int| 1 <= i < r.points@.len() ==> #[trigger] step_counts(r, hops, i),
    ensures
        ({
            let a = aggregates_of(r, hops);
            let n = r.points@.len() as int;
            &&& releases(r, n, false).finite()
            &&& releases(r, n, true).finite()
            &&& a.fsd_accel_pushes == releases(r, n, false).len()
            &&& a.fsd_accel_pushes_early == releases(r, n, true).len()
        }),
{
    let n = r.points@.len() as int;
    lemma_clip_terms(r, hops);
    assert forall|i: int| 1 <= i < n implies #[trigger] counted(r, hops, i) by {
        assert(step_counts(r, hops, i));
    }
    lemma_pushing(r, hops, n);
    let all = Set::new(|i: int| 0 <= i < n);
    lemma_range_len(n);
    vstd::set_lib::lemma_len_subset(releases(r, n, false), all);
    vstd::set_lib::lemma_len_subset(releases(r, n, true), all);
}

} // verus!
