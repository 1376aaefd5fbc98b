//! Per-clip scalars.
//!
//! Every clip spans one minute. Points near (0, 0) take no part, and where the
//! clip carries no speeds of its own a hop faster than 70 m/s is a teleport and
//! takes no part either. A disengagement counts once two seconds pass without
//! Park; a pedal push counts once full self-driving has been on for three.

use crate::calc::{is_null_island, null_island};
use crate::float::{
    F32, F64, fadd, fdiv, fle, flt, flt32, fmul, from_int, fsub, to_int, widen, zero,
};
use crate::types::{
    AUTOPILOT_AUTOSTEER, AUTOPILOT_FSD, AUTOPILOT_OFF, AUTOPILOT_TACC, GEAR_PARK, GearRun,
    GpsPoint, Route, RouteAggregates,
};
use vstd::prelude::*;

verus! {

// ---------------------------------------------------------------------------
// What a clip records
// ---------------------------------------------------------------------------

pub open spec fn has_ap(r: Route) -> bool {
    r.autopilot_states@.len() == r.points@.len()
}

pub open spec fn has_gears(r: Route) -> bool {
    r.gear_states@.len() == r.points@.len()
}

pub open spec fn has_accel(r: Route) -> bool {
    r.accel_positions@.len() == r.points@.len()
}

/// The clip carries a speed per point, not all of them zero or negative.
pub open spec fn has_sei_speeds(r: Route) -> bool {
    r.speeds@.len() == r.points@.len() && any_positive(r.speeds@)
}

pub open spec fn any_positive(s: Seq<F32>) -> bool {
    exists|i: int| 0 <= i < s.len() && flt32(F32 { bits: 0 }, #[trigger] s[i])
}

/// Point `i` is a real position.
pub open spec fn real_point(r: Route, i: int) -> bool {
    !null_island(r.points@[i].lat, r.points@[i].lng)
}

/// Milliseconds between two points.
pub open spec fn dt_ms(r: Route) -> F64 {
    fdiv(from_int(60_000), fsub(from_int(r.points@.len() as int), from_int(1)))
}

pub open spec fn dt_sec(r: Route) -> F64 {
    fdiv(dt_ms(r), from_int(1000))
}

// ---------------------------------------------------------------------------
// Distance and speed
// ---------------------------------------------------------------------------

/// The hop from point `i - 1` to point `i` takes part. `hops[i]` is its length.
pub open spec fn counted(r: Route, hops: Seq<F64>, i: int) -> bool {
    &&& real_point(r, i - 1)
    &&& real_point(r, i)
    &&& !(!has_sei_speeds(r) && flt(zero(), dt_sec(r)) && flt(
        from_int(70),
        fdiv(hops[i], dt_sec(r)),
    ))
}

/// The speed at point `i`: recorded, or the hop over its time.
pub open spec fn speed_at(r: Route, hops: Seq<F64>, i: int) -> F64 {
    if has_sei_speeds(r) {
        widen(r.speeds@[i])
    } else {
        fdiv(hops[i], dt_sec(r))
    }
}

/// The speed at point `i` is a sample.
pub open spec fn sampled(r: Route, hops: Seq<F64>, i: int) -> bool {
    let v = speed_at(r, hops, i);
    counted(r, hops, i) && if has_sei_speeds(r) {
        fle(zero(), v) && flt(v, from_int(100))
    } else {
        flt(zero(), dt_sec(r)) && flt(v, from_int(70))
    }
}

/// The hop into point `i` was driven in autopilot mode `mode`.
pub open spec fn driven_in(r: Route, hops: Seq<F64>, i: int, mode: u8) -> bool {
    counted(r, hops, i) && r.autopilot_states@[i] == mode
}

/// The hop into point `i` was driven in any autopilot mode.
pub open spec fn assisted(r: Route, hops: Seq<F64>, i: int) -> bool {
    counted(r, hops, i) && r.autopilot_states@[i] != AUTOPILOT_OFF
}

/// Sum of `v(i)` over the points `1 <= i < n` that `keep`, in order.
pub open spec fn sum_where(v: spec_fn(int) -> F64, keep: spec_fn(int) -> bool, n: int) -> F64
    decreases n,
{
    if n <= 1 {
        zero()
    } else if keep(n - 1) {
        fadd(sum_where(v, keep, n - 1), v(n - 1))
    } else {
        sum_where(v, keep, n - 1)
    }
}

/// How many of the points `1 <= i < n` are to `keep`.
pub open spec fn count_where(keep: spec_fn(int) -> bool, n: int) -> nat
    decreases n,
{
    if n <= 1 {
        0
    } else if keep(n - 1) {
        count_where(keep, n - 1) + 1
    } else {
        count_where(keep, n - 1)
    }
}

/// The greatest of zero and `v(i)` over the points `1 <= i < n` that `keep`.
pub open spec fn peak_where(v: spec_fn(int) -> F64, keep: spec_fn(int) -> bool, n: int) -> F64
    decreases n,
{
    if n <= 1 {
        zero()
    } else if keep(n - 1) && flt(peak_where(v, keep, n - 1), v(n - 1)) {
        v(n - 1)
    } else {
        peak_where(v, keep, n - 1)
    }
}

/// How many of the first `n` points are real positions.
pub open spec fn real_points(r: Route, n: int) -> nat
    decreases n,
{
    if n <= 0 {
        0
    } else if real_point(r, n - 1) {
        real_points(r, n - 1) + 1
    } else {
        real_points(r, n - 1)
    }
}

/// The first real position from `i` on.
pub open spec fn first_real(r: Route, i: int) -> Option<GpsPoint>
    decreases r.points@.len() - i,
{
    if i < 0 || i >= r.points@.len() {
        None
    } else if real_point(r, i) {
        Some(r.points@[i])
    } else {
        first_real(r, i + 1)
    }
}

/// The last real position among the first `n`.
pub open spec fn last_real(r: Route, n: int) -> Option<GpsPoint>
    decreases n,
{
    if n <= 0 {
        None
    } else if real_point(r, n - 1) {
        Some(r.points@[n - 1])
    } else {
        last_real(r, n - 1)
    }
}

// ---------------------------------------------------------------------------
// Park
// ---------------------------------------------------------------------------

/// Frames of the first `n` runs.
pub open spec fn frames_before(runs: Seq<GearRun>, n: int) -> int
    decreases n,
{
    if n <= 0 {
        0
    } else {
        frames_before(runs, n - 1) + runs[n - 1].frames
    }
}

/// Park intervals of the first `n` gear runs; a frame lasts `per` milliseconds.
pub open spec fn run_parks(runs: Seq<GearRun>, per: F64, n: int) -> Seq<(F64, F64)>
    decreases n,
{
    if n <= 0 {
        Seq::empty()
    } else if runs[n - 1].gear == GEAR_PARK && runs[n - 1].frames > 0 {
        run_parks(runs, per, n - 1).push(
            (
                fmul(from_int(frames_before(runs, n - 1)), per),
                fmul(from_int(frames_before(runs, n)), per),
            ),
        )
    } else {
        run_parks(runs, per, n - 1)
    }
}

/// Start of the Park stretch that reaches point `n - 1`, where there is one.
pub open spec fn open_park(gears: Seq<u8>, n: int) -> Option<int>
    decreases n,
{
    if n <= 0 || gears[n - 1] != GEAR_PARK {
        None
    } else {
        match open_park(gears, n - 1) {
            Some(s) => Some(s),
            None => Some(n - 1),
        }
    }
}

/// Park stretches that ended before point `n`; a point lasts `per` milliseconds.
pub open spec fn point_parks(gears: Seq<u8>, per: F64, n: int) -> Seq<(F64, F64)>
    decreases n,
{
    if n <= 0 {
        Seq::empty()
    } else {
        match open_park(gears, n - 1) {
            Some(s) if gears[n - 1] != GEAR_PARK => point_parks(gears, per, n - 1).push(
                (fmul(from_int(s), per), fmul(from_int(n - 1), per)),
            ),
            _ => point_parks(gears, per, n - 1),
        }
    }
}

/// Park intervals in milliseconds of clip time: from the gear runs, which cover
/// every frame, or else from the gear of each point.
pub open spec fn park_intervals(r: Route) -> Seq<(F64, F64)> {
    let runs = r.gear_runs@;
    let total = frames_before(runs, runs.len() as int);
    let n = r.points@.len() as int;
    if total > 0 {
        run_parks(runs, fdiv(from_int(60_000), from_int(total)), runs.len() as int)
    } else if has_gears(r) {
        match open_park(r.gear_states@, n) {
            Some(s) => point_parks(r.gear_states@, dt_ms(r), n).push(
                (fmul(from_int(s), dt_ms(r)), from_int(60_000)),
            ),
            None => point_parks(r.gear_states@, dt_ms(r), n),
        }
    } else {
        Seq::empty()
    }
}

/// The car is in Park at `ms`.
pub open spec fn parked_at(parks: Seq<(F64, F64)>, ms: F64) -> bool {
    exists|k: int|
        0 <= k < parks.len() && fle((#[trigger] parks[k]).0, ms) && flt(ms, parks[k].1)
}

/// Start of the first interval from `k` on that begins within two seconds.
pub open spec fn early_park(parks: Seq<(F64, F64)>, k: int) -> Option<F64>
    decreases parks.len() - k,
{
    if k < 0 || k >= parks.len() {
        None
    } else if flt(parks[k].0, from_int(2000)) {
        Some(parks[k].0)
    } else {
        early_park(parks, k + 1)
    }
}

// ---------------------------------------------------------------------------
// Disengagements and pedal pushes
// ---------------------------------------------------------------------------

/// Where the walk over a clip's points stands.
pub struct FsdWalk {
    /// Point at which full self-driving was last engaged; -1 for never.
    pub engaged: int,
    /// Point of a disengagement not yet decided.
    pub pending: Option<int>,
    /// A pedal push is under way.
    pub pressing: bool,
    /// That push began in the grace window of a clip engaged from its start.
    pub early: bool,
    pub disengaged: nat,
    pub pushes: nat,
    pub early_pushes: nat,
}

/// Engaged on the clip's first sample.
pub open spec fn engaged_from_start(r: Route) -> bool {
    has_ap(r) && r.autopilot_states@[0] == AUTOPILOT_FSD
}

/// Time from point `a` to point `b`.
pub open spec fn between(r: Route, a: int, b: int) -> F64 {
    fmul(from_int(b - a), dt_ms(r))
}

/// Pedal position at point `i` in percent; fractions are scaled up.
pub open spec fn pedal(r: Route, i: int) -> F64 {
    let v = widen(r.accel_positions@[i]);
    if fle(v, from_int(1)) {
        fmul(v, from_int(100))
    } else {
        v
    }
}

/// A pending disengagement at point `i`: Park within two seconds cancels it, two
/// seconds or a new engagement decide it.
pub open spec fn settle(r: Route, w: FsdWalk, i: int) -> FsdWalk {
    match w.pending {
        None => w,
        Some(p) => {
            if parked_at(park_intervals(r), fmul(from_int(i), dt_ms(r))) && fle(
                between(r, p, i),
                from_int(2000),
            ) {
                FsdWalk { pending: None, ..w }
            } else if flt(from_int(2000), between(r, p, i)) || r.autopilot_states@[i]
                == AUTOPILOT_FSD {
                FsdWalk { pending: None, disengaged: w.disengaged + 1, ..w }
            } else {
                w
            }
        },
    }
}

/// The pedal at point `i`.
pub open spec fn press(r: Route, w: FsdWalk, i: int) -> FsdWalk {
    let since = if w.engaged >= 0 {
        between(r, w.engaged, i)
    } else {
        zero()
    };
    if r.autopilot_states@[i] != AUTOPILOT_FSD {
        FsdWalk { pressing: false, ..w }
    } else if !has_accel(r) {
        w
    } else if !w.pressing && flt(from_int(1), pedal(r, i)) {
        if fle(from_int(3000), since) {
            FsdWalk { pressing: true, early: false, ..w }
        } else if engaged_from_start(r) && w.engaged == 0 {
            FsdWalk { pressing: true, early: true, ..w }
        } else {
            w
        }
    } else if w.pressing && fle(pedal(r, i), zero()) {
        if w.early {
            FsdWalk { pressing: false, early_pushes: w.early_pushes + 1, ..w }
        } else {
            FsdWalk { pressing: false, pushes: w.pushes + 1, ..w }
        }
    } else {
        w
    }
}

/// The walk across point `i`.
pub open spec fn walk_step(r: Route, w: FsdWalk, i: int) -> FsdWalk {
    let now = r.autopilot_states@[i] == AUTOPILOT_FSD;
    let before = r.autopilot_states@[i - 1] == AUTOPILOT_FSD;
    let a = if !before && now {
        FsdWalk { engaged: i, pressing: false, ..w }
    } else {
        w
    };
    let b = settle(r, a, i);
    let c = if before && !now {
        FsdWalk { pending: Some(i), pressing: false, ..b }
    } else {
        b
    };
    press(r, c, i)
}

/// The walk over the points before `n`.
pub open spec fn walk(r: Route, hops: Seq<F64>, n: int) -> FsdWalk
    decreases n,
{
    if n <= 1 {
        FsdWalk {
            engaged: if engaged_from_start(r) {
                0
            } else {
                -1
            },
            pending: None,
            pressing: false,
            early: false,
            disengaged: 0,
            pushes: 0,
            early_pushes: 0,
        }
    } else if has_ap(r) && counted(r, hops, n - 1) {
        walk_step(r, walk(r, hops, n - 1), n - 1)
    } else {
        walk(r, hops, n - 1)
    }
}

// ---------------------------------------------------------------------------
// The scalars
// ---------------------------------------------------------------------------

/// `a * b` held within the range of `i64`.
pub open spec fn sat_mul(a: int, b: int) -> int {
    if a * b > i64::MAX {
        i64::MAX as int
    } else if a * b < i64::MIN {
        i64::MIN as int
    } else {
        a * b
    }
}

/// Whole milliseconds between two points.
pub open spec fn step_ms(r: Route) -> int {
    to_int(dt_ms(r), i64::MIN as int, i64::MAX as int)
}

/// Time driven in `mode`.
pub open spec fn engaged_ms(r: Route, hops: Seq<F64>, mode: u8) -> i64 {
    if has_ap(r) {
        sat_mul(
            count_where(|i: int| driven_in(r, hops, i, mode), r.points@.len() as int) as int,
            step_ms(r),
        ) as i64
    } else {
        0
    }
}

/// Distance driven in `mode`.
pub open spec fn mode_distance(r: Route, hops: Seq<F64>, mode: u8) -> F64 {
    if has_ap(r) {
        sum_where(
            |i: int| hops[i],
            |i: int| driven_in(r, hops, i, mode),
            r.points@.len() as int,
        )
    } else {
        zero()
    }
}

/// Age at the clip's end of a disengagement still pending there.
pub open spec fn pending_age(r: Route, hops: Seq<F64>) -> Option<F64> {
    let n = r.points@.len() as int;
    match walk(r, hops, n).pending {
        Some(p) => Some(between(r, p, n - 1)),
        None => None,
    }
}

pub open spec fn empty_aggregates() -> RouteAggregates {
    RouteAggregates {
        distance_m: zero(),
        max_speed_mps: zero(),
        avg_speed_mps: zero(),
        speed_sample_count: 0,
        valid_point_count: 0,
        fsd_engaged_ms: 0,
        autosteer_engaged_ms: 0,
        tacc_engaged_ms: 0,
        fsd_distance_m: zero(),
        autosteer_distance_m: zero(),
        tacc_distance_m: zero(),
        assisted_distance_m: zero(),
        fsd_disengagements: 0,
        fsd_accel_pushes: 0,
        fsd_pend_ms_end: None,
        park_ms_start: None,
        fsd_at_end: false,
        fsd_accel_pushes_early: 0,
        ap_at_start: None,
        sei_speed_abs_max: None,
        start_lat: None,
        start_lng: None,
        end_lat: None,
        end_lng: None,
    }
}

pub open spec fn lat_of(p: Option<GpsPoint>) -> Option<F64> {
    match p {
        Some(q) => Some(q.lat),
        None => None,
    }
}

pub open spec fn lng_of(p: Option<GpsPoint>) -> Option<F64> {
    match p {
        Some(q) => Some(q.lng),
        None => None,
    }
}

/// The scalars that any clip has: its end points and how many points are real.
pub open spec fn point_aggregates(r: Route) -> RouteAggregates {
    let n = r.points@.len() as int;
    RouteAggregates {
        valid_point_count: real_points(r, n) as i64,
        start_lat: lat_of(first_real(r, 0)),
        start_lng: lng_of(first_real(r, 0)),
        end_lat: lat_of(last_real(r, n)),
        end_lng: lng_of(last_real(r, n)),
        ..empty_aggregates()
    }
}

/// The scalars of clip `r` whose hop into point `i` measures `hops[i]`.
pub open spec fn aggregates_of(r: Route, hops: Seq<F64>) -> RouteAggregates {
    let n = r.points@.len() as int;
    let w = walk(r, hops, n);
    let age = pending_age(r, hops);
    let late = age is Some && flt(from_int(2000), age->0);
    let samples = count_where(|i: int| sampled(r, hops, i), n);
    if n < 2 {
        point_aggregates(r)
    } else {
        RouteAggregates {
            distance_m: sum_where(|i: int| hops[i], |i: int| counted(r, hops, i), n),
            max_speed_mps: peak_where(
                |i: int| speed_at(r, hops, i),
                |i: int| sampled(r, hops, i),
                n,
            ),
            avg_speed_mps: if samples > 0 {
                fdiv(
                    sum_where(|i: int| speed_at(r, hops, i), |i: int| sampled(r, hops, i), n),
                    from_int(samples as int),
                )
            } else {
                zero()
            },
            speed_sample_count: samples as i64,
            fsd_engaged_ms: engaged_ms(r, hops, AUTOPILOT_FSD),
            autosteer_engaged_ms: engaged_ms(r, hops, AUTOPILOT_AUTOSTEER),
            tacc_engaged_ms: engaged_ms(r, hops, AUTOPILOT_TACC),
            fsd_distance_m: mode_distance(r, hops, AUTOPILOT_FSD),
            autosteer_distance_m: mode_distance(r, hops, AUTOPILOT_AUTOSTEER),
            tacc_distance_m: mode_distance(r, hops, AUTOPILOT_TACC),
            assisted_distance_m: if has_ap(r) {
                sum_where(|i: int| hops[i], |i: int| assisted(r, hops, i), n)
            } else {
                zero()
            },
            fsd_disengagements: (w.disengaged + if late {
                1int
            } else {
                0
            }) as i32,
            fsd_accel_pushes: w.pushes as i32,
            fsd_accel_pushes_early: w.early_pushes as i32,
            fsd_pend_ms_end: if late {
                None
            } else {
                age
            },
            park_ms_start: early_park(park_intervals(r), 0),
            fsd_at_end: has_ap(r) && r.autopilot_states@[n - 1] == AUTOPILOT_FSD,
            ap_at_start: if has_ap(r) {
                Some(r.autopilot_states@[0] as i32)
            } else {
                None
            },
            ..point_aggregates(r)
        }
    }
}

// ---------------------------------------------------------------------------
// Computing them
// ---------------------------------------------------------------------------

impl Default for RouteAggregates {
    fn default() -> (r: RouteAggregates)
        ensures
            r == empty_aggregates(),
    {
        let z: F64 = F64::from_bits(0);
        RouteAggregates {
            distance_m: z,
            max_speed_mps: z,
            avg_speed_mps: z,
            speed_sample_count: 0,
            valid_point_count: 0,
            fsd_engaged_ms: 0,
            autosteer_engaged_ms: 0,
            tacc_engaged_ms: 0,
            fsd_distance_m: z,
            autosteer_distance_m: z,
            tacc_distance_m: z,
            assisted_distance_m: z,
            fsd_disengagements: 0,
            fsd_accel_pushes: 0,
            fsd_pend_ms_end: None,
            park_ms_start: None,
            fsd_at_end: false,
            fsd_accel_pushes_early: 0,
            ap_at_start: None,
            sei_speed_abs_max: None,
            start_lat: None,
            start_lng: None,
            end_lat: None,
            end_lng: None,
        }
    }
}

/// What every part of the computation reads.
struct Clip<'a> {
    r: &'a Route,
    n: usize,
    sei: bool,
    dt: F64,
    dt_sec: F64,
}

impl<'a> Clip<'a> {
    spec fn wf(self) -> bool {
        &&& self.n == self.r.points@.len()
        &&& self.n <= i32::MAX
        &&& self.sei == has_sei_speeds(*self.r)
        &&& self.dt == dt_ms(*self.r)
        &&& self.dt_sec == dt_sec(*self.r)
    }

    fn real_at(&self, i: usize) -> (b: bool)
        requires
            i < self.r.points@.len(),
        ensures
            b == real_point(*self.r, i as int),
    {
        !is_null_island(self.r.points[i].lat, self.r.points[i].lng)
    }

    fn counts(&self, hops: &[F64], i: usize) -> (b: bool)
        requires
            self.wf(),
            1 <= i < self.n,
            hops@.len() == self.n,
        ensures
            b == counted(*self.r, hops@, i as int),
    {
        self.real_at(i - 1) && self.real_at(i) && !(!self.sei && F64::from_bits(0).lt(self.dt_sec)
            && F64::of_u64(70).lt(hops[i].over(self.dt_sec)))
    }

    fn speed(&self, hops: &[F64], i: usize) -> (v: F64)
        requires
            self.wf(),
            1 <= i < self.n,
            hops@.len() == self.n,
        ensures
            v == speed_at(*self.r, hops@, i as int),
    {
        if self.sei {
            self.r.speeds[i].to_f64()
        } else {
            hops[i].over(self.dt_sec)
        }
    }

    fn span(&self, a: usize, b: usize) -> (v: F64)
        requires
            self.wf(),
            a <= b < self.n,
        ensures
            v == between(*self.r, a as int, b as int),
    {
        F64::of_usize(b - a).times(self.dt)
    }

    fn pedal_at(&self, i: usize) -> (v: F64)
        requires
            self.wf(),
            has_accel(*self.r),
            i < self.n,
        ensures
            v == pedal(*self.r, i as int),
    {
        let v: F64 = self.r.accel_positions[i].to_f64();
        if v.le(F64::of_u64(1)) {
            v.times(F64::of_u64(100))
        } else {
            v
        }
    }
}

fn speeds_positive(s: &[F32]) -> (b: bool)
    ensures
        b == any_positive(s@),
{
    let mut i: usize = 0;
    while i < s.len()
        invariant
            i <= s.len(),
            forall|j: int| 0 <= j < i ==> !flt32(F32 { bits: 0 }, #[trigger] s@[j]),
        decreases s.len() - i,
    {
        if F32::from_bits(0).lt(s[i]) {
            proof {
                assert(flt32(F32 { bits: 0 }, s@[i as int]));
            }
            return true;
        }
        i = i + 1;
    }
    false
}

fn end_points(r: &Route) -> (a: RouteAggregates)
    requires
        r.points@.len() <= i32::MAX,
    ensures
        a == point_aggregates(*r),
{
    let n: usize = r.points.len();
    let mut a: RouteAggregates = RouteAggregates::default();
    let mut first: Option<GpsPoint> = None;
    let mut i: usize = 0;
    while i < n && first.is_none()
        invariant
            i <= n,
            n == r.points@.len(),
            first is None ==> first_real(*r, 0) == first_real(*r, i as int),
            first is Some ==> first == first_real(*r, 0),
        decreases n - i,
    {
        if !is_null_island(r.points[i].lat, r.points[i].lng) {
            first = Some(r.points[i]);
        }
        i = i + 1;
    }
    let mut last: Option<GpsPoint> = None;
    let mut count: i64 = 0;
    let mut k: usize = 0;
    while k < n
        invariant
            k <= n,
            n == r.points@.len(),
            n <= i32::MAX,
            last == last_real(*r, k as int),
            count == real_points(*r, k as int),
            count <= k,
        decreases n - k,
    {
        if !is_null_island(r.points[k].lat, r.points[k].lng) {
            last = Some(r.points[k]);
            count = count + 1;
        }
        k = k + 1;
    }
    a.valid_point_count = count;
    match first {
        Some(p) => {
            a.start_lat = Some(p.lat);
            a.start_lng = Some(p.lng);
        },
        None => {},
    }
    match last {
        Some(p) => {
            a.end_lat = Some(p.lat);
            a.end_lng = Some(p.lng);
        },
        None => {},
    }
    a
}

proof fn lemma_frames_monotone(runs: Seq<GearRun>, i: int, j: int)
    requires
        0 <= i <= j <= runs.len(),
    ensures
        0 <= frames_before(runs, i) <= frames_before(runs, j),
        frames_before(runs, j) <= j * 0x1_0000_0000,
    decreases j,
{
    if j > 0 {
        if i < j {
            lemma_frames_monotone(runs, i, j - 1);
        } else {
            lemma_frames_monotone(runs, i - 1, j - 1);
        }
    }
}

/// Frames of all runs.
pub fn total_frames(runs: &[GearRun]) -> (t: i64)
    requires
        runs@.len() <= i32::MAX,
    ensures
        t == frames_before(runs@, runs@.len() as int),
        t >= 0,
{
    let mut t: i64 = 0;
    let mut i: usize = 0;
    while i < runs.len()
        invariant
            i <= runs.len(),
            runs@.len() <= i32::MAX,
            t == frames_before(runs@, i as int),
        decreases runs.len() - i,
    {
        proof {
            lemma_frames_monotone(runs@, 0, i as int);
        }
        t = t + runs[i].frames as i64;
        i = i + 1;
    }
    proof {
        lemma_frames_monotone(runs@, 0, runs@.len() as int);
    }
    t
}

fn parks_of(c: &Clip) -> (parks: Vec<(F64, F64)>)
    requires
        c.wf(),
        c.r.gear_runs@.len() <= i32::MAX,
    ensures
        parks@ == park_intervals(*c.r),
{
    let runs: &[GearRun] = c.r.gear_runs.as_slice();
    let total: i64 = total_frames(runs);
    let mut parks: Vec<(F64, F64)> = Vec::new();
    if total > 0 {
        let per: F64 = F64::of_u64(60_000).over(F64::of_i64(total));
        let mut acc: i64 = 0;
        let mut i: usize = 0;
        while i < runs.len()
            invariant
                i <= runs.len(),
                runs@ == c.r.gear_runs@,
                runs@.len() <= i32::MAX,
                acc == frames_before(runs@, i as int),
                parks@ == run_parks(runs@, per, i as int),
            decreases runs.len() - i,
        {
            proof {
                lemma_frames_monotone(runs@, 0, i as int);
            }
            let next: i64 = acc + runs[i].frames as i64;
            if runs[i].gear == GEAR_PARK && runs[i].frames > 0 {
                parks.push((F64::of_i64(acc).times(per), F64::of_i64(next).times(per)));
            }
            acc = next;
            i = i + 1;
        }
    } else if c.r.gear_states.len() == c.n {
        let gears: &[u8] = c.r.gear_states.as_slice();
        let mut start: Option<usize> = None;
        let mut i: usize = 0;
        while i < c.n
            invariant
                c.wf(),
                gears@ == c.r.gear_states@,
                gears@.len() == c.n,
                i <= c.n,
                match start {
                    Some(s) => open_park(gears@, i as int) == Some(s as int) && s < i,
                    None => open_park(gears@, i as int) is None,
                },
                parks@ == point_parks(gears@, c.dt, i as int),
            decreases c.n - i,
        {
            if gears[i] == GEAR_PARK {
                if start.is_none() {
                    start = Some(i);
                }
            } else {
                match start {
                    Some(s) => {
                        parks.push(
                            (F64::of_usize(s).times(c.dt), F64::of_usize(i).times(c.dt)),
                        );
                        start = None;
                    },
                    None => {},
                }
            }
            i = i + 1;
        }
        match start {
            Some(s) => {
                parks.push((F64::of_usize(s).times(c.dt), F64::of_u64(60_000)));
            },
            None => {},
        }
    }
    parks
}

fn in_park(parks: &[(F64, F64)], ms: F64) -> (b: bool)
    ensures
        b == parked_at(parks@, ms),
{
    let mut i: usize = 0;
    while i < parks.len()
        invariant
            i <= parks.len(),
            forall|k: int|
                0 <= k < i ==> !(fle((#[trigger] parks@[k]).0, ms) && flt(ms, parks@[k].1)),
        decreases parks.len() - i,
    {
        if parks[i].0.le(ms) && ms.lt(parks[i].1) {
            proof {
                assert(fle(parks@[i as int].0, ms));
            }
            return true;
        }
        i = i + 1;
    }
    false
}

fn find_early_park(parks: &[(F64, F64)]) -> (r: Option<F64>)
    ensures
        r == early_park(parks@, 0),
{
    let mut i: usize = 0;
    while i < parks.len()
        invariant
            i <= parks.len(),
            early_park(parks@, 0) == early_park(parks@, i as int),
        decreases parks.len() - i,
    {
        if parks[i].0.lt(F64::of_u64(2000)) {
            return Some(parks[i].0);
        }
        i = i + 1;
    }
    None
}

/// The walk with machine integers.
struct WalkState {
    engaged: Option<usize>,
    pending: Option<usize>,
    pressing: bool,
    early: bool,
    disengaged: i32,
    pushes: i32,
    early_pushes: i32,
}

impl WalkState {
    spec fn model(self) -> FsdWalk {
        FsdWalk {
            engaged: match self.engaged {
                Some(i) => i as int,
                None => -1,
            },
            pending: match self.pending {
                Some(i) => Some(i as int),
                None => None,
            },
            pressing: self.pressing,
            early: self.early,
            disengaged: self.disengaged as nat,
            pushes: self.pushes as nat,
            early_pushes: self.early_pushes as nat,
        }
    }

    /// No index is past point `i`, no counter past the number of steps.
    spec fn within(self, i: int) -> bool {
        &&& self.engaged matches Some(e) ==> e <= i
        &&& self.pending matches Some(p) ==> p <= i
        &&& 0 <= self.disengaged <= i
        &&& 0 <= self.pushes <= i
        &&& 0 <= self.early_pushes <= i
    }
}

fn step(c: &Clip, parks: &[(F64, F64)], from_start: bool, s: WalkState, i: usize) -> (t: WalkState)
    requires
        c.wf(),
        has_ap(*c.r),
        1 <= i < c.n,
        parks@ == park_intervals(*c.r),
        from_start == engaged_from_start(*c.r),
        s.within(i - 1),
    ensures
        t.model() == walk_step(*c.r, s.model(), i as int),
        t.within(i as int),
{
    let mut t: WalkState = s;
    let now: bool = c.r.autopilot_states[i] == AUTOPILOT_FSD;
    let before: bool = c.r.autopilot_states[i - 1] == AUTOPILOT_FSD;
    if !before && now {
        t.engaged = Some(i);
        t.pressing = false;
    }
    let ghost a = t.model();
    match t.pending {
        Some(p) => {
            let age: F64 = c.span(p, i);
            if in_park(parks, F64::of_usize(i).times(c.dt)) && age.le(F64::of_u64(2000)) {
                t.pending = None;
            } else if F64::of_u64(2000).lt(age) || now {
                t.disengaged = t.disengaged + 1;
                t.pending = None;
            }
        },
        None => {},
    }
    assert(t.model() == settle(*c.r, a, i as int));
    if before && !now {
        t.pending = Some(i);
        t.pressing = false;
    }
    let ghost b = t.model();
    if !now {
        t.pressing = false;
    } else if c.r.accel_positions.len() == c.n {
        let pct: F64 = c.pedal_at(i);
        let since: F64 = match t.engaged {
            Some(e) => c.span(e, i),
            None => F64::from_bits(0),
        };
        let at_start: bool = match t.engaged {
            Some(e) => e == 0,
            None => false,
        };
        if !t.pressing && F64::of_u64(1).lt(pct) {
            if F64::of_u64(3000).le(since) {
                t.pressing = true;
                t.early = false;
            } else if from_start && at_start {
                t.pressing = true;
                t.early = true;
            }
        } else if t.pressing && pct.le(F64::from_bits(0)) {
            if t.early {
                t.early_pushes = t.early_pushes + 1;
            } else {
                t.pushes = t.pushes + 1;
            }
            t.pressing = false;
        }
    }
    assert(t.model() == press(*c.r, b, i as int));
    t
}

fn walk_all(c: &Clip, parks: &[(F64, F64)], hops: &[F64]) -> (s: WalkState)
    requires
        c.wf(),
        c.n >= 2,
        hops@.len() == c.n,
        parks@ == park_intervals(*c.r),
    ensures
        s.model() == walk(*c.r, hops@, c.n as int),
        s.within(c.n - 1),
{
    let ap: bool = c.r.autopilot_states.len() == c.n;
    let from_start: bool = ap && c.r.autopilot_states[0] == AUTOPILOT_FSD;
    let mut s: WalkState = WalkState {
        engaged: if from_start {
            Some(0)
        } else {
            None
        },
        pending: None,
        pressing: false,
        early: false,
        disengaged: 0,
        pushes: 0,
        early_pushes: 0,
    };
    let mut i: usize = 1;
    while i < c.n
        invariant
            c.wf(),
            c.n >= 2,
            1 <= i <= c.n,
            hops@.len() == c.n,
            parks@ == park_intervals(*c.r),
            ap == has_ap(*c.r),
            from_start == engaged_from_start(*c.r),
            s.model() == walk(*c.r, hops@, i as int),
            s.within(i - 1),
        decreases c.n - i,
    {
        if ap && c.counts(hops, i) {
            s = step(c, parks, from_start, s, i);
        }
        i = i + 1;
    }
    s
}

pub fn mul_held(a: i64, b: i64) -> (r: i64)
    ensures
        r == sat_mul(a as int, b as int),
{
    proof {
        assert(-0x4000_0000_0000_0000_0000_0000_0000_0000 <= a * b
            <= 0x4000_0000_0000_0000_0000_0000_0000_0000) by (nonlinear_arith)
            requires
                -0x8000_0000_0000_0000 <= a <= 0x7FFF_FFFF_FFFF_FFFF,
                -0x8000_0000_0000_0000 <= b <= 0x7FFF_FFFF_FFFF_FFFF,
        ;
    }
    let p: i128 = a as i128 * b as i128;
    if p > i64::MAX as i128 {
        i64::MAX
    } else if p < i64::MIN as i128 {
        i64::MIN
    } else {
        p as i64
    }
}

/// Time and distance driven in one mode.
fn mode_totals(c: &Clip, hops: &[F64], mode: u8) -> (t: (i64, F64))
    requires
        c.wf(),
        c.n >= 2,
        hops@.len() == c.n,
    ensures
        t.0 == engaged_ms(*c.r, hops@, mode),
        t.1 == mode_distance(*c.r, hops@, mode),
{
    if c.r.autopilot_states.len() != c.n {
        return (0, F64::from_bits(0));
    }
    let ghost hv = |i: int| hops@[i];
    let ghost keep = |i: int| driven_in(*c.r, hops@, i, mode);
    let mut count: i64 = 0;
    let mut dist: F64 = F64::from_bits(0);
    let mut i: usize = 1;
    while i < c.n
        invariant
            c.wf(),
            has_ap(*c.r),
            1 <= i <= c.n,
            hops@.len() == c.n,
            hv == (|i: int| hops@[i]),
            keep == (|i: int| driven_in(*c.r, hops@, i, mode)),
            count == count_where(keep, i as int),
            count < i,
            dist == sum_where(hv, keep, i as int),
        decreases c.n - i,
    {
        if c.counts(hops, i) && c.r.autopilot_states[i] == mode {
            count = count + 1;
            dist = dist.plus(hops[i]);
        }
        i = i + 1;
    }
    (mul_held(count, c.dt.to_i64()), dist)
}

/// Distance driven in any mode.
fn assisted_total(c: &Clip, hops: &[F64]) -> (dist: F64)
    requires
        c.wf(),
        c.n >= 2,
        hops@.len() == c.n,
    ensures
        dist == if has_ap(*c.r) {
            sum_where(
                |i: int| hops@[i],
                |i: int| assisted(*c.r, hops@, i),
                c.n as int,
            )
        } else {
            zero()
        },
{
    let mut dist: F64 = F64::from_bits(0);
    if c.r.autopilot_states.len() != c.n {
        return dist;
    }
    let ghost hv = |i: int| hops@[i];
    let ghost keep = |i: int| assisted(*c.r, hops@, i);
    let mut i: usize = 1;
    while i < c.n
        invariant
            c.wf(),
            has_ap(*c.r),
            1 <= i <= c.n,
            hops@.len() == c.n,
            hv == (|i: int| hops@[i]),
            keep == (|i: int| assisted(*c.r, hops@, i)),
            dist == sum_where(hv, keep, i as int),
        decreases c.n - i,
    {
        if c.counts(hops, i) && c.r.autopilot_states[i] != AUTOPILOT_OFF {
            dist = dist.plus(hops[i]);
        }
        i = i + 1;
    }
    dist
}

/// Fills in distance and speeds.
fn distance_and_speed(c: &Clip, hops: &[F64], base: RouteAggregates) -> (a: RouteAggregates)
    requires
        c.wf(),
        c.n >= 2,
        hops@.len() == c.n,
    ensures
        a == (RouteAggregates {
            distance_m: aggregates_of(*c.r, hops@).distance_m,
            max_speed_mps: aggregates_of(*c.r, hops@).max_speed_mps,
            avg_speed_mps: aggregates_of(*c.r, hops@).avg_speed_mps,
            speed_sample_count: aggregates_of(*c.r, hops@).speed_sample_count,
            ..base
        }),
{
    let ghost hv = |i: int| hops@[i];
    let ghost keep = |i: int| counted(*c.r, hops@, i);
    let ghost sv = |i: int| speed_at(*c.r, hops@, i);
    let ghost samp = |i: int| sampled(*c.r, hops@, i);
    let mut dist: F64 = F64::from_bits(0);
    let mut sum: F64 = F64::from_bits(0);
    let mut peak: F64 = F64::from_bits(0);
    let mut count: i64 = 0;
    let mut i: usize = 1;
    while i < c.n
        invariant
            c.wf(),
            1 <= i <= c.n,
            hops@.len() == c.n,
            hv == (|i: int| hops@[i]),
            keep == (|i: int| counted(*c.r, hops@, i)),
            sv == (|i: int| speed_at(*c.r, hops@, i)),
            samp == (|i: int| sampled(*c.r, hops@, i)),
            dist == sum_where(hv, keep, i as int),
            sum == sum_where(sv, samp, i as int),
            peak == peak_where(sv, samp, i as int),
            count == count_where(samp, i as int),
            count < i,
        decreases c.n - i,
    {
        if c.counts(hops, i) {
            dist = dist.plus(hops[i]);
            let v: F64 = c.speed(hops, i);
            let take: bool = if c.sei {
                F64::from_bits(0).le(v) && v.lt(F64::of_u64(100))
            } else {
                F64::from_bits(0).lt(c.dt_sec) && v.lt(F64::of_u64(70))
            };
            if take {
                sum = sum.plus(v);
                count = count + 1;
                if peak.lt(v) {
                    peak = v;
                }
            }
        }
        i = i + 1;
    }
    let mut a: RouteAggregates = base;
    a.distance_m = dist;
    a.max_speed_mps = peak;
    a.avg_speed_mps = if count > 0 {
        sum.over(F64::of_i64(count))
    } else {
        F64::from_bits(0)
    };
    a.speed_sample_count = count;
    a
}

/// The scalars of a clip whose hop into point `i` measures `hops[i]`.
pub fn route_aggregates_from_hops(r: &Route, hops: &[F64]) -> (a: RouteAggregates)
    requires
        r.points@.len() <= i32::MAX,
        r.gear_runs@.len() <= i32::MAX,
        hops@.len() == r.points@.len(),
    ensures
        a == aggregates_of(*r, hops@),
{
    let n: usize = r.points.len();
    let base: RouteAggregates = end_points(r);
    if n < 2 {
        return base;
    }
    let sei: bool = r.speeds.len() == n && speeds_positive(r.speeds.as_slice());
    let dt: F64 = F64::of_u64(60_000).over(F64::of_usize(n).minus(F64::of_u64(1)));
    let c: Clip = Clip { r, n, sei, dt, dt_sec: dt.over(F64::of_u64(1000)) };
    let parks: Vec<(F64, F64)> = parks_of(&c);
    let mut a: RouteAggregates = distance_and_speed(&c, hops, base);
    let fsd: (i64, F64) = mode_totals(&c, hops, AUTOPILOT_FSD);
    let steer: (i64, F64) = mode_totals(&c, hops, AUTOPILOT_AUTOSTEER);
    let tacc: (i64, F64) = mode_totals(&c, hops, AUTOPILOT_TACC);
    a.fsd_engaged_ms = fsd.0;
    a.fsd_distance_m = fsd.1;
    a.autosteer_engaged_ms = steer.0;
    a.autosteer_distance_m = steer.1;
    a.tacc_engaged_ms = tacc.0;
    a.tacc_distance_m = tacc.1;
    a.assisted_distance_m = assisted_total(&c, hops);
    let w: WalkState = walk_all(&c, &parks, hops);
    a.fsd_disengagements = w.disengaged;
    a.fsd_accel_pushes = w.pushes;
    a.fsd_accel_pushes_early = w.early_pushes;
    match w.pending {
        Some(p) => {
            let age: F64 = c.span(p, n - 1);
            if F64::of_u64(2000).lt(age) {
                a.fsd_disengagements = w.disengaged + 1;
            } else {
                a.fsd_pend_ms_end = Some(age);
            }
        },
        None => {},
    }
    a.park_ms_start = find_early_park(&parks);
    a.fsd_at_end = r.autopilot_states.len() == n && r.autopilot_states[n - 1] == AUTOPILOT_FSD;
    a.ap_at_start = if r.autopilot_states.len() == n {
        Some(r.autopilot_states[0] as i32)
    } else {
        None
    };
    a
}

/// `hops` are lengths that `geodesic` gave for the hops between real points of `r`.
pub open spec fn measured<G: Fn(F64, F64, F64, F64) -> F64>(
    r: Route,
    geodesic: G,
    hops: Seq<F64>,
) -> bool {
    &&& hops.len() == r.points@.len()
    &&& forall|i: int|
        1 <= i < hops.len() && real_point(r, i - 1) && real_point(r, i) ==> call_ensures(
            geodesic,
            (
                r.points@[i - 1].lat,
                r.points@[i - 1].lng,
                r.points@[i].lat,
                r.points@[i].lng,
            ),
            #[trigger] hops[i],
        )
}

/// Every scalar that the list and analytics views need of one clip. `geodesic`
/// gives the metres between two positions and is asked for real points only.
/// Parallel arrays may have other lengths than `points`; one that does is
/// treated as missing.
pub fn compute_route_aggregates<G: Fn(F64, F64, F64, F64) -> F64>(
    r: &Route,
    geodesic: G,
) -> (a: RouteAggregates)
    requires
        r.points@.len() <= i32::MAX,
        r.gear_runs@.len() <= i32::MAX,
        forall|w: F64, x: F64, y: F64, z: F64| call_requires(geodesic, (w, x, y, z)),
    ensures
        exists|hops: Seq<F64>| #[trigger] measured(*r, geodesic, hops) && a == aggregates_of(*r, hops),
{
    let n: usize = r.points.len();
    let mut hops: Vec<F64> = Vec::new();
    let mut i: usize = 0;
    while i < n
        invariant
            i <= n,
            n == r.points@.len(),
            hops@.len() == i,
            forall|w: F64, x: F64, y: F64, z: F64| call_requires(geodesic, (w, x, y, z)),
            forall|k: int|
                1 <= k < i && real_point(*r, k - 1) && real_point(*r, k) ==> call_ensures(
                    geodesic,
                    (
                        r.points@[k - 1].lat,
                        r.points@[k - 1].lng,
                        r.points@[k].lat,
                        r.points@[k].lng,
                    ),
                    #[trigger] hops@[k],
                ),
        decreases n - i,
    {
        if i >= 1 && !is_null_island(r.points[i - 1].lat, r.points[i - 1].lng) && !is_null_island(
            r.points[i].lat,
            r.points[i].lng,
        ) {
            let d: F64 = geodesic(
                r.points[i - 1].lat,
                r.points[i - 1].lng,
                r.points[i].lat,
                r.points[i].lng,
            );
            hops.push(d);
        } else {
            hops.push(F64::from_bits(0));
        }
        i = i + 1;
    }
    proof {
        assert(measured(*r, geodesic, hops@));
    }
    route_aggregates_from_hops(r, &hops)
}

// ---------------------------------------------------------------------------
// Laws
// ---------------------------------------------------------------------------

/// How often full self-driving ended before point `n`.
pub open spec fn times_ended(r: Route, n: int) -> nat
    decreases n,
{
    if n <= 1 {
        0
    } else if r.autopilot_states@[n - 2] == AUTOPILOT_FSD && r.autopilot_states@[n - 1]
        != AUTOPILOT_FSD {
        times_ended(r, n - 1) + 1
    } else {
        times_ended(r, n - 1)
    }
}

/// How often Park cancelled a pending disengagement before point `n`.
pub open spec fn times_cancelled(r: Route, hops: Seq<F64>, n: int) -> nat
    decreases n,
{
    if n <= 1 {
        0
    } else {
        let w = walk(r, hops, n - 1);
        let done = settle(r, w, n - 1);
        if w.pending is Some && done.pending is None && done.disengaged == w.disengaged {
            times_cancelled(r, hops, n - 1) + 1
        } else {
            times_cancelled(r, hops, n - 1)
        }
    }
}

/// Where no point is left out, every end of full self-driving is counted, was
/// cancelled by Park, or is still open at the end of the clip: one of the three,
/// and once.
pub proof fn law_every_disengagement_is_settled_once(r: Route, hops: Seq<F64>, n: int)
    requires
        has_ap(r),
        1 <= n <= r.points@.len(),
        forall|i: int| 1 <= i < n ==> #[trigger] counted(r, hops, i),
    ensures
        times_ended(r, n) == walk(r, hops, n).disengaged + times_cancelled(r, hops, n) + if walk(
            r,
            hops,
            n,
        ).pending is Some {
            1int
        } else {
            0int
        },
        walk(r, hops, n).pending is Some ==> r.autopilot_states@[n - 1] != AUTOPILOT_FSD,
    decreases n,
{
    if n > 1 {
        assert forall|i: int| 1 <= i < n - 1 implies #[trigger] counted(r, hops, i) by {}
        law_every_disengagement_is_settled_once(r, hops, n - 1);
        assert(counted(r, hops, n - 1));
    }
}

} // verus!
