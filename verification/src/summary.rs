//! One row of the drive list, added up from the scalars of its clips.

use crate::calc::{
    MPS_TO_KMH, MPS_TO_MPH, M_PER_MILE, is_null_island, lit, m_to_mi, mps_to_mph, null_island,
    round1, round2, round2_opt, rounded1, rounded2, rounded2_opt,
};
use crate::clock::{
    date_text, format_date, format_stamp, move_by, shifted, span, span_ms, stamp_text,
};
use crate::extract::flag_frames_before;
use crate::float::{
    F64, fadd, fdiv, fle, flt, fmax, fmin, fmul, from_int, fround, fsub, to_int, zero,
};
use crate::split::{frames_fit, gear_runs_fit};
use crate::subclips::{SubClipSummary, sub_fits, subs_fit, summaries_fit};
use crate::summon::{
    Evidence, SummonClipEvidence, detect_summon, evidence_fits, evidence_of, evidence_views,
    flag_frames_fit, flags_fit, is_summon, lemma_flag_frames_monotone,
};
use crate::text::same_text;
use crate::types::{
    AUTOPILOT_AUTOSTEER, AUTOPILOT_FSD, AUTOPILOT_TACC, DriveSummary, FlagRun, GpsPoint,
    RouteAggregates, RouteSummary, RouteTelemetryAggregates, TagEntry,
};
use vstd::prelude::*;

verus! {

/// Length of a clip.
pub const CLIP_DURATION_MS: i64 = 60_000;

// ---------------------------------------------------------------------------
// Folding over the clips of a drive
// ---------------------------------------------------------------------------

/// Scalars of the clip that member `i` stands for.
pub open spec fn scalars(s: Seq<RouteSummary>, c: Seq<SubClipSummary>, i: int) -> RouteAggregates {
    s[c[i].summary as int].aggregates
}

pub open spec fn vehicle(s: Seq<RouteSummary>, c: Seq<SubClipSummary>, i: int) -> RouteTelemetryAggregates {
    s[c[i].summary as int].telemetry
}

/// Member `i` is the first of its file: what is told once per file is told here.
pub open spec fn first_of_file(s: Seq<RouteSummary>, c: Seq<SubClipSummary>, i: int) -> bool {
    forall|j: int|
        0 <= j < i ==> s[(#[trigger] c[j]).summary as int].file@ != s[c[i].summary as int].file@
}

/// How many of the first `n` members are the first of their file.
pub open spec fn file_count(s: Seq<RouteSummary>, c: Seq<SubClipSummary>, n: int) -> int
    decreases n,
{
    if n <= 0 {
        0
    } else if first_of_file(s, c, n - 1) {
        file_count(s, c, n - 1) + 1
    } else {
        file_count(s, c, n - 1)
    }
}

/// A quantity of a clip, by the member's share of its frames.
pub open spec fn share_of(c: Seq<SubClipSummary>, i: int, v: F64) -> F64 {
    fmul(v, c[i].fraction)
}

/// A quantity of a clip that is spread over its frames.
#[derive(Clone, Copy, Debug, PartialEq, Eq, Structural)]
pub enum Part {
    /// Average speed times its samples.
    SpeedSum,
    Samples,
    Points,
    FsdMetres,
    AutosteerMetres,
    TaccMetres,
    AssistedMetres,
}

pub open spec fn part_value(a: RouteAggregates, p: Part) -> F64 {
    match p {
        Part::SpeedSum => fmul(a.avg_speed_mps, from_int(a.speed_sample_count as int)),
        Part::Samples => from_int(a.speed_sample_count as int),
        Part::Points => from_int(a.valid_point_count as int),
        Part::FsdMetres => a.fsd_distance_m,
        Part::AutosteerMetres => a.autosteer_distance_m,
        Part::TaccMetres => a.tacc_distance_m,
        Part::AssistedMetres => a.assisted_distance_m,
    }
}

/// Sum of a quantity over the first `n` members, each by its share, in order.
pub open spec fn share_total(s: Seq<RouteSummary>, c: Seq<SubClipSummary>, p: Part, n: int) -> F64
    decreases n,
{
    if n <= 0 {
        zero()
    } else {
        fadd(share_total(s, c, p, n - 1), share_of(c, n - 1, part_value(scalars(s, c, n - 1), p)))
    }
}

// ---------------------------------------------------------------------------
// Seams between clips
// ---------------------------------------------------------------------------

/// Member `i` reaches to the end of its clip.
pub open spec fn ends_clip(c: Seq<SubClipSummary>, i: int) -> bool {
    c[i].end_frame == c[i].total_frames
}

/// Milliseconds that member `i` lasts.
pub open spec fn member_ms(m: SubClipSummary) -> int {
    to_int(
        fround(
            fdiv(
                fmul(from_int(m.end_frame - m.start_frame), from_int(60_000)),
                from_int(m.total_frames as int),
            ),
        ),
        i64::MIN as int,
        i64::MAX as int,
    )
}

/// Age of a disengagement left undecided at the seam before member `i`.
pub open spec fn pending_at_seam(s: Seq<RouteSummary>, c: Seq<SubClipSummary>, i: int) -> Option<F64> {
    if i > 0 && ends_clip(c, i - 1) {
        scalars(s, c, i - 1).fsd_pend_ms_end
    } else {
        None
    }
}

/// Full self-driving was on at the seam before member `i`.
pub open spec fn fsd_at_seam(s: Seq<RouteSummary>, c: Seq<SubClipSummary>, i: int) -> bool {
    i > 0 && ends_clip(c, i - 1) && scalars(s, c, i - 1).fsd_at_end
}

/// Time between the end of the clip before member `i` and the start of this one.
pub open spec fn seam_ms(c: Seq<SubClipSummary>, i: int) -> Option<F64> {
    if i > 0 && ends_clip(c, i - 1) {
        let g = span(shifted(c[i - 1].ts as int, member_ms(c[i - 1])), c[i].ts as int);
        Some(
            from_int(
                if g > 0 {
                    g
                } else {
                    0
                },
            ),
        )
    } else {
        None
    }
}

/// Member `i` opens a clip that was not seen before: what happened at the seam is
/// decided here.
pub open spec fn opens_clip(s: Seq<RouteSummary>, c: Seq<SubClipSummary>, i: int) -> bool {
    first_of_file(s, c, i) && c[i].start_frame == 0
}

/// Member `i` starts in autopilot mode `mode`.
pub open spec fn starts_in(s: Seq<RouteSummary>, c: Seq<SubClipSummary>, i: int, mode: u8) -> bool {
    scalars(s, c, i).ap_at_start == Some(mode as i32)
}

/// A pending disengagement becomes one at member `i`, unless Park follows within
/// what is left of its two seconds.
pub open spec fn seam_disengages(s: Seq<RouteSummary>, c: Seq<SubClipSummary>, i: int) -> bool {
    match pending_at_seam(s, c, i) {
        Some(p) => opens_clip(s, c, i) && !(scalars(s, c, i).park_ms_start matches Some(pk) && fle(
            pk,
            fsub(from_int(2000), p),
        )),
        None => false,
    }
}

pub open spec fn one_if(b: bool) -> int {
    if b {
        1
    } else {
        0
    }
}

/// Disengagements of the first `n` members.
pub open spec fn disengagements(s: Seq<RouteSummary>, c: Seq<SubClipSummary>, n: int) -> int
    decreases n,
{
    if n <= 0 {
        0
    } else if first_of_file(s, c, n - 1) {
        disengagements(s, c, n - 1) + scalars(s, c, n - 1).fsd_disengagements + one_if(
            seam_disengages(s, c, n - 1),
        )
    } else {
        disengagements(s, c, n - 1)
    }
}

/// Pedal pushes of the first `n` members. Those in the grace window of a clip
/// count where full self-driving was on at the seam before it.
pub open spec fn pedal_pushes(s: Seq<RouteSummary>, c: Seq<SubClipSummary>, n: int) -> int
    decreases n,
{
    if n <= 0 {
        0
    } else if first_of_file(s, c, n - 1) {
        pedal_pushes(s, c, n - 1) + scalars(s, c, n - 1).fsd_accel_pushes + if c[n - 1].start_frame
            == 0 && fsd_at_seam(s, c, n - 1) {
            scalars(s, c, n - 1).fsd_accel_pushes_early as int
        } else {
            0
        }
    } else {
        pedal_pushes(s, c, n - 1)
    }
}

/// Engaged milliseconds of a clip in `mode`.
pub open spec fn clip_engaged(a: RouteAggregates, mode: u8) -> i64 {
    if mode == AUTOPILOT_FSD {
        a.fsd_engaged_ms
    } else if mode == AUTOPILOT_AUTOSTEER {
        a.autosteer_engaged_ms
    } else {
        a.tacc_engaged_ms
    }
}

/// The distance that counts for `mode`.
pub open spec fn metres_of(mode: u8) -> Part {
    if mode == AUTOPILOT_FSD {
        Part::FsdMetres
    } else if mode == AUTOPILOT_AUTOSTEER {
        Part::AutosteerMetres
    } else {
        Part::TaccMetres
    }
}

/// Time in `mode` over the first `n` members, seams included: a seam goes to the
/// mode in which the clip behind it starts.
pub open spec fn engaged_total(s: Seq<RouteSummary>, c: Seq<SubClipSummary>, mode: u8, n: int) -> F64
    decreases n,
{
    if n <= 0 {
        zero()
    } else {
        let i = n - 1;
        let t = fadd(
            engaged_total(s, c, mode, i),
            share_of(c, i, from_int(clip_engaged(scalars(s, c, i), mode) as int)),
        );
        if opens_clip(s, c, i) && seam_ms(c, i) is Some && starts_in(s, c, i, mode) {
            fadd(t, seam_ms(c, i)->0)
        } else {
            t
        }
    }
}

// ---------------------------------------------------------------------------
// Distance
// ---------------------------------------------------------------------------

pub open spec fn pair_of(lat: Option<F64>, lng: Option<F64>) -> Option<GpsPoint> {
    match (lat, lng) {
        (Some(a), Some(b)) => Some(GpsPoint { lat: a, lng: b }),
        _ => None,
    }
}

pub open spec fn clip_start(a: RouteAggregates) -> Option<GpsPoint> {
    pair_of(a.start_lat, a.start_lng)
}

pub open spec fn clip_end(a: RouteAggregates) -> Option<GpsPoint> {
    pair_of(a.end_lat, a.end_lng)
}

/// Where the car was last seen before member `n`.
pub open spec fn last_seen(s: Seq<RouteSummary>, c: Seq<SubClipSummary>, n: int) -> Option<GpsPoint>
    decreases n,
{
    if n <= 0 {
        None
    } else {
        match (clip_end(scalars(s, c, n - 1)), clip_start(scalars(s, c, n - 1))) {
            (Some(p), _) => Some(p),
            (None, Some(p)) => Some(p),
            (None, None) => last_seen(s, c, n - 1),
        }
    }
}

/// The two ends of the gap in front of member `i`, where both are real positions.
pub open spec fn gap_ends(s: Seq<RouteSummary>, c: Seq<SubClipSummary>, i: int) -> Option<
    (GpsPoint, GpsPoint),
> {
    match (last_seen(s, c, i), clip_start(scalars(s, c, i))) {
        (Some(p), Some(q)) => if null_island(p.lat, p.lng) || null_island(q.lat, q.lng) {
            None
        } else {
            Some((p, q))
        },
        _ => None,
    }
}

/// Metres of the first `n` members: each clip's share, and the gaps between them.
pub open spec fn distance_total(
    s: Seq<RouteSummary>,
    c: Seq<SubClipSummary>,
    bridges: Seq<F64>,
    n: int,
) -> F64
    decreases n,
{
    if n <= 0 {
        zero()
    } else {
        let i = n - 1;
        let t = fadd(
            distance_total(s, c, bridges, i),
            share_of(c, i, scalars(s, c, i).distance_m),
        );
        if gap_ends(s, c, i) is Some {
            fadd(t, bridges[i])
        } else {
            t
        }
    }
}

/// Metres of the gaps among the first `n` members behind which the car drove in
/// `mode`.
pub open spec fn bridge_total(
    s: Seq<RouteSummary>,
    c: Seq<SubClipSummary>,
    bridges: Seq<F64>,
    mode: u8,
    n: int,
) -> F64
    decreases n,
{
    if n <= 0 {
        zero()
    } else if gap_ends(s, c, n - 1) is Some && starts_in(s, c, n - 1, mode) {
        fadd(bridge_total(s, c, bridges, mode, n - 1), bridges[n - 1])
    } else {
        bridge_total(s, c, bridges, mode, n - 1)
    }
}

/// Metres in `mode`.
pub open spec fn mode_total(
    s: Seq<RouteSummary>,
    c: Seq<SubClipSummary>,
    bridges: Seq<F64>,
    mode: u8,
) -> F64 {
    let n = c.len() as int;
    fadd(
        share_total(s, c, metres_of(mode), n),
        bridge_total(s, c, bridges, mode, n),
    )
}

/// Metres in any mode.
pub open spec fn assisted_metres(s: Seq<RouteSummary>, c: Seq<SubClipSummary>, bridges: Seq<F64>) -> F64 {
    let n = c.len() as int;
    fadd(
        share_total(s, c, Part::AssistedMetres, n),
        fadd(
            fadd(
                bridge_total(s, c, bridges, AUTOPILOT_FSD, n),
                bridge_total(s, c, bridges, AUTOPILOT_AUTOSTEER, n),
            ),
            bridge_total(s, c, bridges, AUTOPILOT_TACC, n),
        ),
    )
}

// ---------------------------------------------------------------------------
// Speed and end points
// ---------------------------------------------------------------------------

/// The greatest speed of the first `n` members' files.
pub open spec fn top_speed(s: Seq<RouteSummary>, c: Seq<SubClipSummary>, n: int) -> F64
    decreases n,
{
    if n <= 0 {
        zero()
    } else if first_of_file(s, c, n - 1) && flt(
        top_speed(s, c, n - 1),
        scalars(s, c, n - 1).max_speed_mps,
    ) {
        scalars(s, c, n - 1).max_speed_mps
    } else {
        top_speed(s, c, n - 1)
    }
}

/// The average speed, each clip's weighted by its samples and its share.
pub open spec fn mean_speed(s: Seq<RouteSummary>, c: Seq<SubClipSummary>) -> F64 {
    let n = c.len() as int;
    let samples = share_total(s, c, Part::Samples, n);
    if flt(zero(), samples) {
        fdiv(share_total(s, c, Part::SpeedSum, n), samples)
    } else {
        zero()
    }
}

/// Points of the drive, each clip's by its share, to the nearest.
pub open spec fn point_total(s: Seq<RouteSummary>, c: Seq<SubClipSummary>) -> int {
    to_int(fround(share_total(s, c, Part::Points, c.len() as int)), 0, usize::MAX as int)
}

/// The start of the first member of the first `n` that has one.
pub open spec fn first_start(s: Seq<RouteSummary>, c: Seq<SubClipSummary>, n: int) -> Option<GpsPoint>
    decreases n,
{
    if n <= 0 {
        None
    } else {
        match first_start(s, c, n - 1) {
            Some(p) => Some(p),
            None => clip_start(scalars(s, c, n - 1)),
        }
    }
}

/// The end of the last member of the first `n` that has one.
pub open spec fn last_end(s: Seq<RouteSummary>, c: Seq<SubClipSummary>, n: int) -> Option<GpsPoint>
    decreases n,
{
    if n <= 0 {
        None
    } else {
        match clip_end(scalars(s, c, n - 1)) {
            Some(p) => Some(p),
            None => last_end(s, c, n - 1),
        }
    }
}

/// Share of the distance in percent, to one decimal.
pub open spec fn percent_of(part: F64, whole: F64) -> F64 {
    if fle(whole, zero()) {
        zero()
    } else {
        rounded1(fmul(fdiv(part, whole), from_int(100)))
    }
}

/// Percentages of the distance in each mode, to one decimal.
pub fn compute_autopilot_percents(
    total_dist_m: F64,
    fsd_dist_m: F64,
    autosteer_dist_m: F64,
    tacc_dist_m: F64,
    assisted_dist_m: F64,
) -> (r: (F64, F64, F64, F64))
    ensures
        r.0 == percent_of(fsd_dist_m, total_dist_m),
        r.1 == percent_of(autosteer_dist_m, total_dist_m),
        r.2 == percent_of(tacc_dist_m, total_dist_m),
        r.3 == percent_of(assisted_dist_m, total_dist_m),
{
    let z: F64 = F64::from_bits(0);
    if total_dist_m.le(z) {
        return (z, z, z, z);
    }
    let h: F64 = F64::of_u64(100);
    (
        round1(fsd_dist_m.over(total_dist_m).times(h)),
        round1(autosteer_dist_m.over(total_dist_m).times(h)),
        round1(tacc_dist_m.over(total_dist_m).times(h)),
        round1(assisted_dist_m.over(total_dist_m).times(h)),
    )
}

// ---------------------------------------------------------------------------
// Telemetry
// ---------------------------------------------------------------------------

/// A telemetry reading of a clip.
#[derive(Clone, Copy, Debug, PartialEq, Eq, Structural)]
pub enum Gauge {
    BatteryStart,
    BatteryEnd,
    InteriorMin,
    InteriorMax,
    TireFl,
    TireFr,
    TireRl,
    TireRr,
    OdometerStart,
    OdometerEnd,
}

pub open spec fn reading(t: RouteTelemetryAggregates, g: Gauge) -> Option<F64> {
    match g {
        Gauge::BatteryStart => t.battery_pct_start,
        Gauge::BatteryEnd => t.battery_pct_end,
        Gauge::InteriorMin => t.interior_temp_min,
        Gauge::InteriorMax => t.interior_temp_max,
        Gauge::TireFl => t.tire_fl_psi,
        Gauge::TireFr => t.tire_fr_psi,
        Gauge::TireRl => t.tire_rl_psi,
        Gauge::TireRr => t.tire_rr_psi,
        Gauge::OdometerStart => t.odometer_mi_start,
        Gauge::OdometerEnd => t.odometer_mi_end,
    }
}

/// The first reading among the first `n` members, files told once.
pub open spec fn first_reading(s: Seq<RouteSummary>, c: Seq<SubClipSummary>, g: Gauge, n: int) -> Option<F64>
    decreases n,
{
    if n <= 0 {
        None
    } else {
        match first_reading(s, c, g, n - 1) {
            Some(x) => Some(x),
            None => if first_of_file(s, c, n - 1) {
                reading(vehicle(s, c, n - 1), g)
            } else {
                None
            },
        }
    }
}

/// The last reading among the first `n` members, files told once.
pub open spec fn last_reading(s: Seq<RouteSummary>, c: Seq<SubClipSummary>, g: Gauge, n: int) -> Option<F64>
    decreases n,
{
    if n <= 0 {
        None
    } else if first_of_file(s, c, n - 1) && reading(vehicle(s, c, n - 1), g) is Some {
        reading(vehicle(s, c, n - 1), g)
    } else {
        last_reading(s, c, g, n - 1)
    }
}

/// The lowest or highest reading among the first `n` members, files told once.
pub open spec fn extreme_reading(
    s: Seq<RouteSummary>,
    c: Seq<SubClipSummary>,
    g: Gauge,
    lowest: bool,
    n: int,
) -> Option<F64>
    decreases n,
{
    if n <= 0 {
        None
    } else {
        let before = extreme_reading(s, c, g, lowest, n - 1);
        if !first_of_file(s, c, n - 1) {
            before
        } else {
            match (before, reading(vehicle(s, c, n - 1), g)) {
                (Some(m), Some(x)) => Some(
                    if lowest {
                        fmin(m, x)
                    } else {
                        fmax(m, x)
                    },
                ),
                (None, Some(x)) => Some(x),
                (_, None) => before,
            }
        }
    }
}

/// The first place name among the first `n` members' starts.
pub open spec fn first_place(s: Seq<RouteSummary>, c: Seq<SubClipSummary>, n: int) -> Option<Seq<char>>
    decreases n,
{
    if n <= 0 {
        None
    } else {
        match first_place(s, c, n - 1) {
            Some(x) => Some(x),
            None => if first_of_file(s, c, n - 1) {
                text_view(vehicle(s, c, n - 1).location_name_start)
            } else {
                None
            },
        }
    }
}

/// The last place name among the first `n` members' ends.
pub open spec fn last_place(s: Seq<RouteSummary>, c: Seq<SubClipSummary>, n: int) -> Option<Seq<char>>
    decreases n,
{
    if n <= 0 {
        None
    } else if first_of_file(s, c, n - 1) && vehicle(s, c, n - 1).location_name_end is Some {
        text_view(vehicle(s, c, n - 1).location_name_end)
    } else {
        last_place(s, c, n - 1)
    }
}

/// Outside temperatures of the first `n` members: their sum and their number.
pub open spec fn outside_sum(s: Seq<RouteSummary>, c: Seq<SubClipSummary>, n: int) -> (F64, int)
    decreases n,
{
    if n <= 0 {
        (zero(), 0)
    } else {
        let before = outside_sum(s, c, n - 1);
        match vehicle(s, c, n - 1).exterior_temp_avg {
            Some(x) if first_of_file(s, c, n - 1) => (fadd(before.0, x), before.1 + 1),
            _ => before,
        }
    }
}

/// Climate seconds of the first `n` members, where any was recorded.
pub open spec fn climate_sum(s: Seq<RouteSummary>, c: Seq<SubClipSummary>, n: int) -> Option<int>
    decreases n,
{
    if n <= 0 {
        None
    } else {
        let before = climate_sum(s, c, n - 1);
        match vehicle(s, c, n - 1).hvac_runtime_s {
            Some(x) if first_of_file(s, c, n - 1) => Some(
                match before {
                    Some(t) => t + x,
                    None => x as int,
                },
            ),
            _ => before,
        }
    }
}

/// `v` held within the range of `i64`.
pub open spec fn hold64(v: int) -> int {
    if v > i64::MAX {
        i64::MAX as int
    } else if v < i64::MIN {
        i64::MIN as int
    } else {
        v
    }
}

/// `v` held within the range of `i32`.
pub open spec fn hold32(v: int) -> int {
    if v > i32::MAX {
        i32::MAX as int
    } else if v < i32::MIN {
        i32::MIN as int
    } else {
        v
    }
}

pub open spec fn text_view(t: Option<String>) -> Option<Seq<char>> {
    match t {
        Some(s) => Some(s@),
        None => None,
    }
}

/// Telemetry of a drive.
#[derive(Clone, Debug)]
pub struct DriveTelemetryRollup {
    pub battery_pct_start: Option<F64>,
    pub battery_pct_end: Option<F64>,
    pub battery_pct_used: Option<F64>,
    pub interior_temp_min_c: Option<F64>,
    pub interior_temp_max_c: Option<F64>,
    pub exterior_temp_avg_c: Option<F64>,
    pub hvac_runtime_s: Option<i64>,
    pub tire_fl_psi: Option<F64>,
    pub tire_fr_psi: Option<F64>,
    pub tire_rl_psi: Option<F64>,
    pub tire_rr_psi: Option<F64>,
    pub odometer_mi_start: Option<F64>,
    pub odometer_mi_end: Option<F64>,
    pub odometer_mi_driven: Option<F64>,
    pub location_name_start: Option<String>,
    pub location_name_end: Option<String>,
}

/// `r` rolls up the telemetry of a drive: first known values at its start, last
/// known ones at its end, extremes and averages in between, to two decimals.
pub open spec fn rolls_up(s: Seq<RouteSummary>, c: Seq<SubClipSummary>, r: DriveTelemetryRollup) -> bool {
    let n = c.len() as int;
    let charge_from = first_reading(s, c, Gauge::BatteryStart, n);
    let charge_to = last_reading(s, c, Gauge::BatteryEnd, n);
    let miles_from = first_reading(s, c, Gauge::OdometerStart, n);
    let miles_to = last_reading(s, c, Gauge::OdometerEnd, n);
    let outside = outside_sum(s, c, n);
    &&& r.battery_pct_start == rounded2_opt(charge_from)
    &&& r.battery_pct_end == rounded2_opt(charge_to)
    &&& r.battery_pct_used == match (charge_from, charge_to) {
        (Some(a), Some(b)) => Some(rounded2(fsub(a, b))),
        _ => None,
    }
    &&& r.interior_temp_min_c == rounded2_opt(extreme_reading(s, c, Gauge::InteriorMin, true, n))
    &&& r.interior_temp_max_c == rounded2_opt(extreme_reading(s, c, Gauge::InteriorMax, false, n))
    &&& r.exterior_temp_avg_c == if outside.1 > 0 {
        Some(rounded2(fdiv(outside.0, from_int(outside.1))))
    } else {
        None
    }
    &&& r.hvac_runtime_s == match climate_sum(s, c, n) {
        Some(t) => Some(hold64(t) as i64),
        None => None,
    }
    &&& r.tire_fl_psi == rounded2_opt(last_reading(s, c, Gauge::TireFl, n))
    &&& r.tire_fr_psi == rounded2_opt(last_reading(s, c, Gauge::TireFr, n))
    &&& r.tire_rl_psi == rounded2_opt(last_reading(s, c, Gauge::TireRl, n))
    &&& r.tire_rr_psi == rounded2_opt(last_reading(s, c, Gauge::TireRr, n))
    &&& r.odometer_mi_start == rounded2_opt(miles_from)
    &&& r.odometer_mi_end == rounded2_opt(miles_to)
    &&& r.odometer_mi_driven == match (miles_from, miles_to) {
        (Some(a), Some(b)) if fle(a, b) => Some(rounded2(fsub(b, a))),
        _ => None,
    }
    &&& text_view(r.location_name_start) == first_place(s, c, n)
    &&& text_view(r.location_name_end) == last_place(s, c, n)
}

/// Which members of a drive are the first of their file.
pub fn first_members(s: &[RouteSummary], c: &[SubClipSummary]) -> (firsts: Vec<bool>)
    requires
        subs_fit(s@.len() as int, c@),
    ensures
        firsts@.len() == c@.len(),
        forall|i: int| 0 <= i < c@.len() ==> #[trigger] firsts@[i] == first_of_file(s@, c@, i),
{
    let mut firsts: Vec<bool> = Vec::new();
    let mut i: usize = 0;
    while i < c.len()
        invariant
            i <= c.len(),
            subs_fit(s@.len() as int, c@),
            firsts@.len() == i,
            forall|k: int| 0 <= k < i ==> #[trigger] firsts@[k] == first_of_file(s@, c@, k),
        decreases c.len() - i,
    {
        proof {
            assert(sub_fits(s@.len() as int, c@[i as int]));
        }
        let mut first: bool = true;
        let mut j: usize = 0;
        while j < i && first
            invariant
                j <= i < c.len(),
                subs_fit(s@.len() as int, c@),
                c@[i as int].summary < s@.len(),
                first ==> forall|k: int|
                    0 <= k < j ==> s@[(#[trigger] c@[k]).summary as int].file@
                        != s@[c@[i as int].summary as int].file@,
                !first ==> !first_of_file(s@, c@, i as int),
            decreases i - j,
        {
            proof {
                assert(sub_fits(s@.len() as int, c@[j as int]));
            }
            if s[c[j].summary].file == s[c[i].summary].file {
                proof {
                    assert(s@[c@[j as int].summary as int].file@
                        == s@[c@[i as int].summary as int].file@);
                }
                first = false;
            }
            j = j + 1;
        }
        firsts.push(first);
        i = i + 1;
    }
    firsts
}

/// A drive under construction: its clips, and which members are the first of
/// their file.
struct Members<'a> {
    s: &'a [RouteSummary],
    c: &'a [SubClipSummary],
    firsts: Vec<bool>,
}

impl<'a> Members<'a> {
    spec fn wf(self) -> bool {
        &&& subs_fit(self.s@.len() as int, self.c@)
        &&& self.firsts@.len() == self.c@.len()
        &&& forall|i: int|
            0 <= i < self.c@.len() ==> #[trigger] self.firsts@[i] == first_of_file(
                self.s@,
                self.c@,
                i,
            )
    }

    fn new(s: &'a [RouteSummary], c: &'a [SubClipSummary]) -> (m: Members<'a>)
        requires
            subs_fit(s@.len() as int, c@),
        ensures
            m.wf(),
            m.s@ == s@,
            m.c@ == c@,
    {
        let firsts: Vec<bool> = first_members(s, c);
        Members { s, c, firsts }
    }

    fn telemetry(&self, i: usize) -> (t: &'a RouteTelemetryAggregates)
        requires
            self.wf(),
            i < self.c@.len(),
        ensures
            *t == vehicle(self.s@, self.c@, i as int),
    {
        proof {
            assert(sub_fits(self.s@.len() as int, self.c@[i as int]));
        }
        &self.s[self.c[i].summary].telemetry
    }

    fn read(&self, i: usize, g: Gauge) -> (r: Option<F64>)
        requires
            self.wf(),
            i < self.c@.len(),
        ensures
            r == reading(vehicle(self.s@, self.c@, i as int), g),
    {
        let t: &RouteTelemetryAggregates = self.telemetry(i);
        match g {
            Gauge::BatteryStart => t.battery_pct_start,
            Gauge::BatteryEnd => t.battery_pct_end,
            Gauge::InteriorMin => t.interior_temp_min,
            Gauge::InteriorMax => t.interior_temp_max,
            Gauge::TireFl => t.tire_fl_psi,
            Gauge::TireFr => t.tire_fr_psi,
            Gauge::TireRl => t.tire_rl_psi,
            Gauge::TireRr => t.tire_rr_psi,
            Gauge::OdometerStart => t.odometer_mi_start,
            Gauge::OdometerEnd => t.odometer_mi_end,
        }
    }

    fn first(&self, g: Gauge) -> (r: Option<F64>)
        requires
            self.wf(),
        ensures
            r == first_reading(self.s@, self.c@, g, self.c@.len() as int),
    {
        let mut r: Option<F64> = None;
        let mut i: usize = 0;
        while i < self.c.len()
            invariant
                self.wf(),
                i <= self.c.len(),
                r == first_reading(self.s@, self.c@, g, i as int),
            decreases self.c.len() - i,
        {
            if r.is_none() && self.firsts[i] {
                r = self.read(i, g);
            }
            i = i + 1;
        }
        r
    }

    fn last(&self, g: Gauge) -> (r: Option<F64>)
        requires
            self.wf(),
        ensures
            r == last_reading(self.s@, self.c@, g, self.c@.len() as int),
    {
        let mut r: Option<F64> = None;
        let mut i: usize = 0;
        while i < self.c.len()
            invariant
                self.wf(),
                i <= self.c.len(),
                r == last_reading(self.s@, self.c@, g, i as int),
            decreases self.c.len() - i,
        {
            if self.firsts[i] {
                let v: Option<F64> = self.read(i, g);
                if v.is_some() {
                    r = v;
                }
            }
            i = i + 1;
        }
        r
    }

    fn extreme(&self, g: Gauge, lowest: bool) -> (r: Option<F64>)
        requires
            self.wf(),
        ensures
            r == extreme_reading(self.s@, self.c@, g, lowest, self.c@.len() as int),
    {
        let mut r: Option<F64> = None;
        let mut i: usize = 0;
        while i < self.c.len()
            invariant
                self.wf(),
                i <= self.c.len(),
                r == extreme_reading(self.s@, self.c@, g, lowest, i as int),
            decreases self.c.len() - i,
        {
            if self.firsts[i] {
                r = match (r, self.read(i, g)) {
                    (Some(m), Some(x)) => Some(
                        if lowest {
                            m.min(x)
                        } else {
                            m.max(x)
                        },
                    ),
                    (None, Some(x)) => Some(x),
                    (r0, None) => r0,
                };
            }
            i = i + 1;
        }
        r
    }

    fn outside(&self) -> (r: Option<F64>)
        requires
            self.wf(),
        ensures
            ({
                let o = outside_sum(self.s@, self.c@, self.c@.len() as int);
                r == if o.1 > 0 {
                    Some(rounded2(fdiv(o.0, from_int(o.1))))
                } else {
                    None
                }
            }),
    {
        let mut sum: F64 = F64::from_bits(0);
        let mut n: usize = 0;
        let mut i: usize = 0;
        while i < self.c.len()
            invariant
                self.wf(),
                i <= self.c.len(),
                n <= i,
                (sum, n as int) == outside_sum(self.s@, self.c@, i as int),
            decreases self.c.len() - i,
        {
            if self.firsts[i] {
                match self.telemetry(i).exterior_temp_avg {
                    Some(x) => {
                        sum = sum.plus(x);
                        n = n + 1;
                    },
                    None => {},
                }
            }
            i = i + 1;
        }
        if n > 0 {
            Some(round2(sum.over(F64::of_usize(n))))
        } else {
            None
        }
    }

    fn climate(&self) -> (r: Option<i64>)
        requires
            self.wf(),
        ensures
            r == match climate_sum(self.s@, self.c@, self.c@.len() as int) {
                Some(t) => Some(hold64(t) as i64),
                None => None,
            },
    {
        let mut sum: i128 = 0;
        let mut any: bool = false;
        let mut i: usize = 0;
        while i < self.c.len()
            invariant
                self.wf(),
                i <= self.c.len(),
                -0x8000_0000_0000_0000 * i <= sum <= 0x8000_0000_0000_0000 * i,
                match climate_sum(self.s@, self.c@, i as int) {
                    Some(t) => any && sum == t,
                    None => !any && sum == 0,
                },
            decreases self.c.len() - i,
        {
            if self.firsts[i] {
                match self.telemetry(i).hvac_runtime_s {
                    Some(x) => {
                        sum = sum + x as i128;
                        any = true;
                    },
                    None => {},
                }
            }
            i = i + 1;
        }
        if !any {
            None
        } else if sum > i64::MAX as i128 {
            Some(i64::MAX)
        } else if sum < i64::MIN as i128 {
            Some(i64::MIN)
        } else {
            Some(sum as i64)
        }
    }

    fn place_from(&self) -> (r: Option<String>)
        requires
            self.wf(),
        ensures
            text_view(r) == first_place(self.s@, self.c@, self.c@.len() as int),
    {
        let mut r: Option<String> = None;
        let mut i: usize = 0;
        while i < self.c.len()
            invariant
                self.wf(),
                i <= self.c.len(),
                text_view(r) == first_place(self.s@, self.c@, i as int),
            decreases self.c.len() - i,
        {
            if r.is_none() && self.firsts[i] {
                r = copy_text(&self.telemetry(i).location_name_start);
            }
            i = i + 1;
        }
        r
    }

    fn place_to(&self) -> (r: Option<String>)
        requires
            self.wf(),
        ensures
            text_view(r) == last_place(self.s@, self.c@, self.c@.len() as int),
    {
        let mut r: Option<String> = None;
        let mut i: usize = 0;
        while i < self.c.len()
            invariant
                self.wf(),
                i <= self.c.len(),
                text_view(r) == last_place(self.s@, self.c@, i as int),
            decreases self.c.len() - i,
        {
            if self.firsts[i] {
                let v: Option<String> = copy_text(&self.telemetry(i).location_name_end);
                if v.is_some() {
                    r = v;
                }
            }
            i = i + 1;
        }
        r
    }
}

pub fn copy_text(t: &Option<String>) -> (r: Option<String>)
    ensures
        text_view(r) == text_view(*t),
{
    match t {
        Some(s) => Some(s.clone()),
        None => None,
    }
}

/// Rolls the telemetry of a drive's clips up.
pub fn roll_up_telemetry(summaries: &[RouteSummary], clips: &[SubClipSummary]) -> (r: DriveTelemetryRollup)
    requires
        subs_fit(summaries@.len() as int, clips@),
    ensures
        rolls_up(summaries@, clips@, r),
{
    let m: Members = Members::new(summaries, clips);
    rollup_of(&m)
}

fn rollup_of(m: &Members) -> (r: DriveTelemetryRollup)
    requires
        m.wf(),
    ensures
        rolls_up(m.s@, m.c@, r),
{
    let charge_from: Option<F64> = m.first(Gauge::BatteryStart);
    let charge_to: Option<F64> = m.last(Gauge::BatteryEnd);
    let miles_from: Option<F64> = m.first(Gauge::OdometerStart);
    let miles_to: Option<F64> = m.last(Gauge::OdometerEnd);
    let used: Option<F64> = match (charge_from, charge_to) {
        (Some(a), Some(b)) => Some(round2(a.minus(b))),
        _ => None,
    };
    let driven: Option<F64> = match (miles_from, miles_to) {
        (Some(a), Some(b)) => {
            if a.le(b) {
                Some(round2(b.minus(a)))
            } else {
                None
            }
        },
        _ => None,
    };
    DriveTelemetryRollup {
        battery_pct_start: round2_opt(charge_from),
        battery_pct_end: round2_opt(charge_to),
        battery_pct_used: used,
        interior_temp_min_c: round2_opt(m.extreme(Gauge::InteriorMin, true)),
        interior_temp_max_c: round2_opt(m.extreme(Gauge::InteriorMax, false)),
        exterior_temp_avg_c: m.outside(),
        hvac_runtime_s: m.climate(),
        tire_fl_psi: round2_opt(m.last(Gauge::TireFl)),
        tire_fr_psi: round2_opt(m.last(Gauge::TireFr)),
        tire_rl_psi: round2_opt(m.last(Gauge::TireRl)),
        tire_rr_psi: round2_opt(m.last(Gauge::TireRr)),
        odometer_mi_start: round2_opt(miles_from),
        odometer_mi_end: round2_opt(miles_to),
        odometer_mi_driven: driven,
        location_name_start: m.place_from(),
        location_name_end: m.place_to(),
    }
}

// ---------------------------------------------------------------------------
// The row
// ---------------------------------------------------------------------------

/// Milliseconds that the drive's last member lasts.
pub open spec fn closing_ms(m: SubClipSummary) -> int {
    to_int(
        fround(
            fmul(
                from_int(m.end_frame - m.start_frame),
                fdiv(from_int(60_000), from_int(m.total_frames as int)),
            ),
        ),
        i64::MIN as int,
        i64::MAX as int,
    )
}

/// When the drive starts.
pub open spec fn drive_start(c: Seq<SubClipSummary>) -> int {
    c[0].ts as int
}

/// When the drive ends.
pub open spec fn drive_end(c: Seq<SubClipSummary>) -> int {
    shifted(c.last().ts as int, closing_ms(c.last()))
}

/// Summon evidence of member `i`. A clip without gear data gives its raw frame
/// count, or else what its flag runs add up to.
pub open spec fn member_evidence(s: Seq<RouteSummary>, c: Seq<SubClipSummary>, i: int) -> Evidence {
    let clip = s[c[i].summary as int];
    let runs = clip.flag_runs@;
    if c[i].total_frames > 1 {
        Evidence {
            runs,
            start: c[i].start_frame as int,
            end: c[i].end_frame as int,
            total: c[i].total_frames as int,
        }
    } else {
        let total = if clip.raw_frame_count == 0 {
            flag_frames_before(runs, runs.len() as int)
        } else {
            clip.raw_frame_count as int
        };
        Evidence { runs, start: 0, end: total, total }
    }
}

pub open spec fn drive_evidence(s: Seq<RouteSummary>, c: Seq<SubClipSummary>) -> Seq<Evidence> {
    Seq::new(c.len(), |i: int| member_evidence(s, c, i))
}

/// Some clip of the first `n` members recorded movement.
pub open spec fn moved_at_all(s: Seq<RouteSummary>, c: Seq<SubClipSummary>, n: int) -> bool
    decreases n,
{
    n > 0 && (moved_at_all(s, c, n - 1) || match scalars(s, c, n - 1).sei_speed_abs_max {
        Some(m) => flt(zero(), m),
        None => false,
    })
}

/// The greatest recorded speed magnitude of the first `n` members' clips.
pub open spec fn fastest(s: Seq<RouteSummary>, c: Seq<SubClipSummary>, n: int) -> F64
    decreases n,
{
    if n <= 0 {
        zero()
    } else {
        match scalars(s, c, n - 1).sei_speed_abs_max {
            Some(m) if flt(fastest(s, c, n - 1), m) => m,
            _ => fastest(s, c, n - 1),
        }
    }
}

/// The drive is a summon.
pub open spec fn drive_is_summon(s: Seq<RouteSummary>, c: Seq<SubClipSummary>) -> bool {
    let n = c.len() as int;
    is_summon(
        drive_evidence(s, c),
        if moved_at_all(s, c, n) {
            fastest(s, c, n)
        } else {
            zero()
        },
        span(drive_start(c), drive_end(c)),
        moved_at_all(s, c, n),
    )
}

/// Texts of a list of strings.
pub open spec fn texts(v: Seq<String>) -> Seq<Seq<char>> {
    Seq::new(v.len(), |i: int| v[i]@)
}

/// The tags under `key`; none where there is no such entry.
pub open spec fn tags_under(tags: Seq<TagEntry>, key: Seq<char>, i: int) -> Seq<Seq<char>>
    decreases tags.len() - i,
{
    if i < 0 || i >= tags.len() {
        Seq::empty()
    } else if tags[i].key@ == key {
        texts(tags[i].tags@)
    } else {
        tags_under(tags, key, i + 1)
    }
}

/// Distances and times of a row in one autopilot mode.
pub struct ModeColumns {
    pub engaged_ms: i64,
    pub percent: F64,
    pub km: F64,
    pub mi: F64,
}

/// A row's columns for `mode`.
pub open spec fn mode_columns(
    s: Seq<RouteSummary>,
    c: Seq<SubClipSummary>,
    bridges: Seq<F64>,
    mode: u8,
) -> ModeColumns {
    let n = c.len() as int;
    let metres = mode_total(s, c, bridges, mode);
    ModeColumns {
        engaged_ms: to_int(
            fround(engaged_total(s, c, mode, n)),
            i64::MIN as int,
            i64::MAX as int,
        ) as i64,
        percent: percent_of(metres, distance_total(s, c, bridges, n)),
        km: rounded2(fdiv(metres, from_int(1000))),
        mi: rounded2(fdiv(metres, lit(M_PER_MILE))),
    }
}

/// The row's vehicle columns are those of `r`.
pub open spec fn carries(d: DriveSummary, r: DriveTelemetryRollup) -> bool {
    &&& d.battery_pct_start == r.battery_pct_start
    &&& d.battery_pct_end == r.battery_pct_end
    &&& d.battery_pct_used == r.battery_pct_used
    &&& d.interior_temp_min_c == r.interior_temp_min_c
    &&& d.interior_temp_max_c == r.interior_temp_max_c
    &&& d.exterior_temp_avg_c == r.exterior_temp_avg_c
    &&& d.hvac_runtime_s == r.hvac_runtime_s
    &&& d.tire_fl_psi == r.tire_fl_psi
    &&& d.tire_fr_psi == r.tire_fr_psi
    &&& d.tire_rl_psi == r.tire_rl_psi
    &&& d.tire_rr_psi == r.tire_rr_psi
    &&& d.odometer_mi_start == r.odometer_mi_start
    &&& d.odometer_mi_end == r.odometer_mi_end
    &&& d.odometer_mi_driven == r.odometer_mi_driven
    &&& text_view(d.start_location) == text_view(r.location_name_start)
    &&& text_view(d.end_location) == text_view(r.location_name_end)
}

/// The columns that tell when and what the drive is.
pub open spec fn labelled(
    s: Seq<RouteSummary>,
    c: Seq<SubClipSummary>,
    idx: int,
    tags: Seq<TagEntry>,
    d: DriveSummary,
) -> bool {
    let n = c.len() as int;
    let first = s[c[0].summary as int];
    &&& d.id == (idx as usize) as i32
    &&& d.date@ == date_text(drive_start(c))
    &&& d.start_time@ == stamp_text(drive_start(c))
    &&& d.end_time@ == stamp_text(drive_end(c))
    &&& d.duration_ms == span(drive_start(c), drive_end(c))
    &&& d.clip_count == file_count(s, c, n)
    &&& d.point_count == point_total(s, c)
    &&& d.start_point == first_start(s, c, n)
    &&& d.end_point == last_end(s, c, n)
    &&& texts(d.tags@) == tags_under(tags, stamp_text(drive_start(c)), 0)
    &&& d.summon == drive_is_summon(s, c)
    &&& text_view(d.source) == match text_view(first.source) {
        Some(t) => Some(t),
        None => Some("sei"@),
    }
    &&& text_view(d.external_signature) == text_view(first.external_signature)
    &&& d.tessie_autopilot_percent is None
}

/// The columns that measure the drive.
pub open spec fn measured_columns(
    s: Seq<RouteSummary>,
    c: Seq<SubClipSummary>,
    bridges: Seq<F64>,
    d: DriveSummary,
) -> bool {
    let n = c.len() as int;
    let metres = distance_total(s, c, bridges, n);
    let fsd = mode_columns(s, c, bridges, AUTOPILOT_FSD);
    let steer = mode_columns(s, c, bridges, AUTOPILOT_AUTOSTEER);
    let tacc = mode_columns(s, c, bridges, AUTOPILOT_TACC);
    &&& d.distance_mi == rounded2(fdiv(metres, lit(M_PER_MILE)))
    &&& d.distance_km == rounded2(fdiv(metres, from_int(1000)))
    &&& d.avg_speed_mph == rounded2(fmul(mean_speed(s, c), lit(MPS_TO_MPH)))
    &&& d.max_speed_mph == rounded2(fmul(top_speed(s, c, n), lit(MPS_TO_MPH)))
    &&& d.avg_speed_kmh == rounded2(fmul(mean_speed(s, c), lit(MPS_TO_KMH)))
    &&& d.max_speed_kmh == rounded2(fmul(top_speed(s, c, n), lit(MPS_TO_KMH)))
    &&& d.fsd_engaged_ms == fsd.engaged_ms
    &&& d.fsd_percent == fsd.percent
    &&& d.fsd_distance_km == fsd.km
    &&& d.fsd_distance_mi == fsd.mi
    &&& d.autosteer_engaged_ms == steer.engaged_ms
    &&& d.autosteer_percent == steer.percent
    &&& d.autosteer_distance_km == steer.km
    &&& d.autosteer_distance_mi == steer.mi
    &&& d.tacc_engaged_ms == tacc.engaged_ms
    &&& d.tacc_percent == tacc.percent
    &&& d.tacc_distance_km == tacc.km
    &&& d.tacc_distance_mi == tacc.mi
    &&& d.assisted_percent == percent_of(assisted_metres(s, c, bridges), metres)
    &&& d.fsd_disengagements == hold32(
        disengagements(s, c, n) + one_if(pending_at_seam(s, c, n) is Some),
    )
    &&& d.fsd_accel_pushes == hold32(pedal_pushes(s, c, n))
}

/// `d` is the row of the drive made of `c`, whose gaps measure `bridges`.
pub open spec fn is_row(
    s: Seq<RouteSummary>,
    c: Seq<SubClipSummary>,
    idx: int,
    tags: Seq<TagEntry>,
    bridges: Seq<F64>,
    d: DriveSummary,
) -> bool {
    &&& labelled(s, c, idx, tags, d)
    &&& measured_columns(s, c, bridges, d)
    &&& exists|r: DriveTelemetryRollup| #[trigger] rolls_up(s, c, r) && carries(d, r)
}

/// Frame counts of every clip's flag runs are in range.
pub open spec fn flag_runs_fit(s: Seq<RouteSummary>) -> bool {
    forall|i: int| 0 <= i < s.len() ==> flags_fit((#[trigger] s[i]).flag_runs@)
}

/// Whether the frames of every clip and of its flags can be counted.
pub fn rows_fit(summaries: &[RouteSummary]) -> (b: bool)
    ensures
        b == (summaries_fit(summaries@) && flag_runs_fit(summaries@)),
{
    let mut i: usize = 0;
    while i < summaries.len()
        invariant
            i <= summaries@.len(),
            forall|k: int| 0 <= k < i ==> frames_fit((#[trigger] summaries@[k]).gear_runs@),
            forall|k: int| 0 <= k < i ==> flags_fit((#[trigger] summaries@[k]).flag_runs@),
        decreases summaries.len() - i,
    {
        if !gear_runs_fit(summaries[i].gear_runs.as_slice()) || !flag_frames_fit(
            summaries[i].flag_runs.as_slice(),
        ) {
            return false;
        }
        i = i + 1;
    }
    true
}

/// `v` held within the range of `i32`.
pub fn held32(v: i128) -> (r: i32)
    ensures
        r == hold32(v as int),
{
    if v > i32::MAX as i128 {
        i32::MAX
    } else if v < i32::MIN as i128 {
        i32::MIN
    } else {
        v as i32
    }
}

fn pair(lat: Option<F64>, lng: Option<F64>) -> (r: Option<GpsPoint>)
    ensures
        r == pair_of(lat, lng),
{
    match (lat, lng) {
        (Some(a), Some(b)) => Some(GpsPoint { lat: a, lng: b }),
        _ => None,
    }
}

fn member_length(m: SubClipSummary) -> (r: i64)
    requires
        m.start_frame <= m.end_frame,
    ensures
        r == member_ms(m),
{
    F64::of_u32(m.end_frame - m.start_frame).times(F64::of_u64(60_000)).over(
        F64::of_u32(m.total_frames),
    ).round().to_i64()
}

fn closing_length(m: SubClipSummary) -> (r: i64)
    requires
        m.start_frame <= m.end_frame,
    ensures
        r == closing_ms(m),
{
    let per: F64 = F64::of_u64(60_000).over(F64::of_u32(m.total_frames));
    F64::of_u32(m.end_frame - m.start_frame).times(per).round().to_i64()
}

fn flag_total(runs: &[FlagRun]) -> (t: u32)
    requires
        flags_fit(runs@),
    ensures
        t == flag_frames_before(runs@, runs@.len() as int),
{
    let mut t: u32 = 0;
    let mut i: usize = 0;
    while i < runs.len()
        invariant
            i <= runs.len(),
            flags_fit(runs@),
            t == flag_frames_before(runs@, i as int),
        decreases runs.len() - i,
    {
        proof {
            lemma_flag_frames_monotone(runs@, i as int + 1, runs@.len() as int);
        }
        t = t + runs[i].frames;
        i = i + 1;
    }
    t
}

/// A copy of a list of strings.
pub fn copy_texts(v: &Vec<String>) -> (r: Vec<String>)
    ensures
        texts(r@) == texts(v@),
{
    let mut out: Vec<String> = Vec::new();
    let mut i: usize = 0;
    while i < v.len()
        invariant
            i <= v.len(),
            texts(out@) =~= texts(v@).take(i as int),
        decreases v.len() - i,
    {
        let ghost before = texts(out@);
        out.push(v[i].clone());
        proof {
            assert(texts(out@) =~= before.push(texts(v@)[i as int]));
        }
        i = i + 1;
    }
    proof {
        assert(texts(v@).take(v@.len() as int) =~= texts(v@));
    }
    out
}

/// The tags under `key`.
pub fn find_tags(tags: &[TagEntry], key: &String) -> (r: Vec<String>)
    ensures
        texts(r@) == tags_under(tags@, key@, 0),
{
    let mut i: usize = 0;
    while i < tags.len()
        invariant
            i <= tags.len(),
            tags_under(tags@, key@, 0) == tags_under(tags@, key@, i as int),
        decreases tags.len() - i,
    {
        if tags[i].key == *key {
            return copy_texts(&tags[i].tags);
        }
        i = i + 1;
    }
    let none: Vec<String> = Vec::new();
    proof {
        assert(texts(none@) =~= Seq::<Seq<char>>::empty());
    }
    none
}

impl<'a> Members<'a> {
    fn scalars_at(&self, i: usize) -> (a: RouteAggregates)
        requires
            self.wf(),
            i < self.c@.len(),
        ensures
            a == scalars(self.s@, self.c@, i as int),
    {
        proof {
            assert(sub_fits(self.s@.len() as int, self.c@[i as int]));
        }
        self.s[self.c[i].summary].aggregates
    }

    fn shares(&self, p: Part) -> (t: F64)
        requires
            self.wf(),
        ensures
            t == share_total(self.s@, self.c@, p, self.c@.len() as int),
    {
        let mut t: F64 = F64::from_bits(0);
        let mut i: usize = 0;
        while i < self.c.len()
            invariant
                self.wf(),
                i <= self.c.len(),
                t == share_total(self.s@, self.c@, p, i as int),
            decreases self.c.len() - i,
        {
            let a: RouteAggregates = self.scalars_at(i);
            let v: F64 = match p {
                Part::SpeedSum => a.avg_speed_mps.times(F64::of_i64(a.speed_sample_count)),
                Part::Samples => F64::of_i64(a.speed_sample_count),
                Part::Points => F64::of_i64(a.valid_point_count),
                Part::FsdMetres => a.fsd_distance_m,
                Part::AutosteerMetres => a.autosteer_distance_m,
                Part::TaccMetres => a.tacc_distance_m,
                Part::AssistedMetres => a.assisted_distance_m,
            };
            t = t.plus(v.times(self.c[i].fraction));
            i = i + 1;
        }
        t
    }

    fn starts(&self, i: usize, mode: u8) -> (b: bool)
        requires
            self.wf(),
            i < self.c@.len(),
        ensures
            b == starts_in(self.s@, self.c@, i as int, mode),
    {
        match self.scalars_at(i).ap_at_start {
            Some(m) => m == mode as i32,
            None => false,
        }
    }

    fn seam(&self, i: usize) -> (r: Option<F64>)
        requires
            self.wf(),
            i < self.c@.len(),
        ensures
            r == seam_ms(self.c@, i as int),
    {
        if i == 0 {
            return None;
        }
        let m: SubClipSummary = self.c[i - 1];
        proof {
            assert(sub_fits(self.s@.len() as int, self.c@[i - 1]));
        }
        if m.end_frame != m.total_frames {
            return None;
        }
        let g: i64 = span_ms(move_by(m.ts, member_length(m)), self.c[i].ts);
        if g > 0 {
            Some(F64::of_i64(g))
        } else {
            Some(F64::of_i64(0))
        }
    }

    fn engaged(&self, mode: u8) -> (t: F64)
        requires
            self.wf(),
        ensures
            t == engaged_total(self.s@, self.c@, mode, self.c@.len() as int),
    {
        let mut t: F64 = F64::from_bits(0);
        let mut i: usize = 0;
        while i < self.c.len()
            invariant
                self.wf(),
                i <= self.c.len(),
                t == engaged_total(self.s@, self.c@, mode, i as int),
            decreases self.c.len() - i,
        {
            let a: RouteAggregates = self.scalars_at(i);
            let ms: i64 = if mode == AUTOPILOT_FSD {
                a.fsd_engaged_ms
            } else if mode == AUTOPILOT_AUTOSTEER {
                a.autosteer_engaged_ms
            } else {
                a.tacc_engaged_ms
            };
            t = t.plus(F64::of_i64(ms).times(self.c[i].fraction));
            if self.firsts[i] && self.c[i].start_frame == 0 && self.starts(i, mode) {
                match self.seam(i) {
                    Some(g) => {
                        t = t.plus(g);
                    },
                    None => {},
                }
            }
            i = i + 1;
        }
        t
    }

    /// Which members have a gap in front of them that was measured.
    fn gaps(&self) -> (r: Vec<bool>)
        requires
            self.wf(),
        ensures
            r@.len() == self.c@.len(),
            forall|i: int|
                0 <= i < r@.len() ==> #[trigger] r@[i] == (gap_ends(self.s@, self.c@, i) is Some),
    {
        let mut out: Vec<bool> = Vec::new();
        let mut seen: Option<GpsPoint> = None;
        let mut i: usize = 0;
        while i < self.c.len()
            invariant
                self.wf(),
                i <= self.c.len(),
                out@.len() == i,
                seen == last_seen(self.s@, self.c@, i as int),
                forall|k: int|
                    0 <= k < i ==> #[trigger] out@[k] == (gap_ends(self.s@, self.c@, k) is Some),
            decreases self.c.len() - i,
        {
            let a: RouteAggregates = self.scalars_at(i);
            let start: Option<GpsPoint> = pair(a.start_lat, a.start_lng);
            let end: Option<GpsPoint> = pair(a.end_lat, a.end_lng);
            let open: bool = match (seen, start) {
                (Some(p), Some(q)) => !is_null_island(p.lat, p.lng) && !is_null_island(
                    q.lat,
                    q.lng,
                ),
                _ => false,
            };
            out.push(open);
            if end.is_some() {
                seen = end;
            } else if start.is_some() {
                seen = start;
            }
            i = i + 1;
        }
        out
    }

    fn distance(&self, gaps: &Vec<bool>, bridges: &[F64]) -> (t: F64)
        requires
            self.wf(),
            bridges@.len() == self.c@.len(),
            gaps@.len() == self.c@.len(),
            forall|i: int|
                0 <= i < gaps@.len() ==> #[trigger] gaps@[i] == (gap_ends(self.s@, self.c@, i) is Some),
        ensures
            t == distance_total(self.s@, self.c@, bridges@, self.c@.len() as int),
    {
        let mut t: F64 = F64::from_bits(0);
        let mut i: usize = 0;
        while i < self.c.len()
            invariant
                self.wf(),
                i <= self.c.len(),
                bridges@.len() == self.c@.len(),
                gaps@.len() == self.c@.len(),
                forall|i: int|
                    0 <= i < gaps@.len() ==> #[trigger] gaps@[i] == (gap_ends(self.s@, self.c@, i) is Some),
                t == distance_total(self.s@, self.c@, bridges@, i as int),
            decreases self.c.len() - i,
        {
            t = t.plus(self.scalars_at(i).distance_m.times(self.c[i].fraction));
            if gaps[i] {
                t = t.plus(bridges[i]);
            }
            i = i + 1;
        }
        t
    }

    fn bridged(&self, gaps: &Vec<bool>, bridges: &[F64], mode: u8) -> (t: F64)
        requires
            self.wf(),
            bridges@.len() == self.c@.len(),
            gaps@.len() == self.c@.len(),
            forall|i: int|
                0 <= i < gaps@.len() ==> #[trigger] gaps@[i] == (gap_ends(self.s@, self.c@, i) is Some),
        ensures
            t == bridge_total(self.s@, self.c@, bridges@, mode, self.c@.len() as int),
    {
        let mut t: F64 = F64::from_bits(0);
        let mut i: usize = 0;
        while i < self.c.len()
            invariant
                self.wf(),
                i <= self.c.len(),
                bridges@.len() == self.c@.len(),
                gaps@.len() == self.c@.len(),
                forall|i: int|
                    0 <= i < gaps@.len() ==> #[trigger] gaps@[i] == (gap_ends(self.s@, self.c@, i) is Some),
                t == bridge_total(self.s@, self.c@, bridges@, mode, i as int),
            decreases self.c.len() - i,
        {
            if gaps[i] && self.starts(i, mode) {
                t = t.plus(bridges[i]);
            }
            i = i + 1;
        }
        t
    }

    /// Disengagements and pedal pushes.
    fn events(&self) -> (r: (i128, i128))
        requires
            self.wf(),
        ensures
            r.0 == disengagements(self.s@, self.c@, self.c@.len() as int),
            r.1 == pedal_pushes(self.s@, self.c@, self.c@.len() as int),
            -0x1_0000_0000_0000_0000_0000_0000 <= r.0 <= 0x1_0000_0000_0000_0000_0000_0000,
    {
        let mut dis: i128 = 0;
        let mut pushes: i128 = 0;
        let mut i: usize = 0;
        while i < self.c.len()
            invariant
                self.wf(),
                i <= self.c.len(),
                dis == disengagements(self.s@, self.c@, i as int),
                pushes == pedal_pushes(self.s@, self.c@, i as int),
                -0x1_0000_0000 * i <= dis <= 0x1_0000_0000 * i,
                -0x1_0000_0000 * i <= pushes <= 0x1_0000_0000 * i,
            decreases self.c.len() - i,
        {
            if self.firsts[i] {
                let a: RouteAggregates = self.scalars_at(i);
                dis = dis + a.fsd_disengagements as i128;
                pushes = pushes + a.fsd_accel_pushes as i128;
                if i > 0 && self.c[i].start_frame == 0 && self.c[i - 1].end_frame == self.c[i
                    - 1].total_frames {
                    let b: RouteAggregates = self.scalars_at(i - 1);
                    match b.fsd_pend_ms_end {
                        Some(p) => {
                            let left: F64 = F64::of_u64(2000).minus(p);
                            let parked: bool = match a.park_ms_start {
                                Some(pk) => pk.le(left),
                                None => false,
                            };
                            if !parked {
                                dis = dis + 1;
                            }
                        },
                        None => {},
                    }
                    if b.fsd_at_end {
                        pushes = pushes + a.fsd_accel_pushes_early as i128;
                    }
                }
            }
            i = i + 1;
        }
        (dis, pushes)
    }

    /// A disengagement is still undecided at the end of the drive.
    fn left_pending(&self) -> (b: bool)
        requires
            self.wf(),
            self.c@.len() > 0,
        ensures
            b == (pending_at_seam(self.s@, self.c@, self.c@.len() as int) is Some),
    {
        let n: usize = self.c.len();
        self.c[n - 1].end_frame == self.c[n - 1].total_frames && self.scalars_at(
            n - 1,
        ).fsd_pend_ms_end.is_some()
    }

    fn peak(&self) -> (t: F64)
        requires
            self.wf(),
        ensures
            t == top_speed(self.s@, self.c@, self.c@.len() as int),
    {
        let mut t: F64 = F64::from_bits(0);
        let mut i: usize = 0;
        while i < self.c.len()
            invariant
                self.wf(),
                i <= self.c.len(),
                t == top_speed(self.s@, self.c@, i as int),
            decreases self.c.len() - i,
        {
            if self.firsts[i] && t.lt(self.scalars_at(i).max_speed_mps) {
                t = self.scalars_at(i).max_speed_mps;
            }
            i = i + 1;
        }
        t
    }

    fn files(&self) -> (n: usize)
        requires
            self.wf(),
        ensures
            n == file_count(self.s@, self.c@, self.c@.len() as int),
    {
        let mut n: usize = 0;
        let mut i: usize = 0;
        while i < self.c.len()
            invariant
                self.wf(),
                i <= self.c.len(),
                n <= i,
                n == file_count(self.s@, self.c@, i as int),
            decreases self.c.len() - i,
        {
            if self.firsts[i] {
                n = n + 1;
            }
            i = i + 1;
        }
        n
    }

    fn ends(&self) -> (r: (Option<GpsPoint>, Option<GpsPoint>))
        requires
            self.wf(),
        ensures
            r.0 == first_start(self.s@, self.c@, self.c@.len() as int),
            r.1 == last_end(self.s@, self.c@, self.c@.len() as int),
    {
        let mut from: Option<GpsPoint> = None;
        let mut to: Option<GpsPoint> = None;
        let mut i: usize = 0;
        while i < self.c.len()
            invariant
                self.wf(),
                i <= self.c.len(),
                from == first_start(self.s@, self.c@, i as int),
                to == last_end(self.s@, self.c@, i as int),
            decreases self.c.len() - i,
        {
            let a: RouteAggregates = self.scalars_at(i);
            if from.is_none() {
                from = pair(a.start_lat, a.start_lng);
            }
            let e: Option<GpsPoint> = pair(a.end_lat, a.end_lng);
            if e.is_some() {
                to = e;
            }
            i = i + 1;
        }
        (from, to)
    }

    fn summon(&self, duration_ms: i64) -> (b: bool)
        requires
            self.wf(),
            self.c@.len() > 0,
            flag_runs_fit(self.s@),
            duration_ms == span(drive_start(self.c@), drive_end(self.c@)),
        ensures
            b == drive_is_summon(self.s@, self.c@),
    {
        let mut any: bool = false;
        let mut top: F64 = F64::from_bits(0);
        let mut ev: Vec<SummonClipEvidence> = Vec::new();
        let mut i: usize = 0;
        while i < self.c.len()
            invariant
                self.wf(),
                flag_runs_fit(self.s@),
                i <= self.c.len(),
                any == moved_at_all(self.s@, self.c@, i as int),
                top == fastest(self.s@, self.c@, i as int),
                ev@.len() == i,
                evidence_fits(ev@),
                forall|k: int|
                    0 <= k < i ==> evidence_of(#[trigger] ev@[k]) == member_evidence(
                        self.s@,
                        self.c@,
                        k,
                    ),
            decreases self.c.len() - i,
        {
            match self.scalars_at(i).sei_speed_abs_max {
                Some(m) => {
                    if F64::from_bits(0).lt(m) {
                        any = true;
                    }
                    if top.lt(m) {
                        top = m;
                    }
                },
                None => {},
            }
            let m: SubClipSummary = self.c[i];
            proof {
                assert(sub_fits(self.s@.len() as int, self.c@[i as int]));
                assert(flags_fit(self.s@[m.summary as int].flag_runs@));
            }
            let clip: &RouteSummary = &self.s[m.summary];
            let runs: &[FlagRun] = clip.flag_runs.as_slice();
            let e: SummonClipEvidence = if m.total_frames > 1 {
                SummonClipEvidence {
                    flag_runs: runs,
                    start_frame: m.start_frame,
                    end_frame: m.end_frame,
                    total_frames: m.total_frames,
                }
            } else {
                let total: u32 = if clip.raw_frame_count == 0 {
                    flag_total(runs)
                } else {
                    clip.raw_frame_count
                };
                SummonClipEvidence {
                    flag_runs: runs,
                    start_frame: 0,
                    end_frame: total,
                    total_frames: total,
                }
            };
            ev.push(e);
            i = i + 1;
        }
        proof {
            assert(evidence_views(ev@) =~= drive_evidence(self.s@, self.c@));
        }
        let speed: F64 = if any {
            top
        } else {
            F64::from_bits(0)
        };
        detect_summon(&ev, speed, duration_ms, any)
    }
}

/// Whole milliseconds, kilometres and miles of one mode.
fn columns(
    m: &Members,
    gaps: &Vec<bool>,
    bridges: &[F64],
    mode: u8,
    metres: F64,
) -> (r: (i64, F64, F64, F64, F64))
    requires
        m.wf(),
        bridges@.len() == m.c@.len(),
        gaps@.len() == m.c@.len(),
        forall|i: int|
            0 <= i < gaps@.len() ==> #[trigger] gaps@[i] == (gap_ends(m.s@, m.c@, i) is Some),
        metres == distance_total(m.s@, m.c@, bridges@, m.c@.len() as int),
    ensures
        ({
            let k = mode_columns(m.s@, m.c@, bridges@, mode);
            &&& r.0 == k.engaged_ms
            &&& r.1 == k.percent
            &&& r.2 == k.km
            &&& r.3 == k.mi
            &&& r.4 == bridge_total(m.s@, m.c@, bridges@, mode, m.c@.len() as int)
        }),
{
    let part: Part = if mode == AUTOPILOT_FSD {
        Part::FsdMetres
    } else if mode == AUTOPILOT_AUTOSTEER {
        Part::AutosteerMetres
    } else {
        Part::TaccMetres
    };
    let bridge: F64 = m.bridged(gaps, bridges, mode);
    let own: F64 = m.shares(part).plus(bridge);
    let z: F64 = F64::from_bits(0);
    let p: (F64, F64, F64, F64) = compute_autopilot_percents(metres, own, z, z, z);
    (
        m.engaged(mode).round().to_i64(),
        p.0,
        round2(own.over(F64::of_u64(1000))),
        round2(m_to_mi(own)),
        bridge,
    )
}

/// The row of a drive. `bridges[i]` is the length in metres of the gap in front
/// of member `i`; it is read only where both ends of that gap are real positions.
pub fn build_summary_from_aggregates(
    summaries: &[RouteSummary],
    clips: &[SubClipSummary],
    idx: usize,
    tags: &[TagEntry],
    bridges: &[F64],
) -> (d: DriveSummary)
    requires
        clips@.len() > 0,
        subs_fit(summaries@.len() as int, clips@),
        flag_runs_fit(summaries@),
        bridges@.len() == clips@.len(),
    ensures
        is_row(summaries@, clips@, idx as int, tags@, bridges@, d),
{
    let m: Members = Members::new(summaries, clips);
    let n: usize = clips.len();
    let first: SubClipSummary = clips[0];
    let last: SubClipSummary = clips[n - 1];
    proof {
        assert(sub_fits(summaries@.len() as int, clips@[0]));
        assert(sub_fits(summaries@.len() as int, clips@[n - 1]));
    }
    let end: i64 = move_by(last.ts, closing_length(last));
    let duration_ms: i64 = span_ms(first.ts, end);
    let gaps: Vec<bool> = m.gaps();
    let metres: F64 = m.distance(&gaps, bridges);
    let fsd: (i64, F64, F64, F64, F64) = columns(&m, &gaps, bridges, AUTOPILOT_FSD, metres);
    let steer: (i64, F64, F64, F64, F64) = columns(
        &m,
        &gaps,
        bridges,
        AUTOPILOT_AUTOSTEER,
        metres,
    );
    let tacc: (i64, F64, F64, F64, F64) = columns(&m, &gaps, bridges, AUTOPILOT_TACC, metres);
    let assisted: F64 = m.shares(Part::AssistedMetres).plus(fsd.4.plus(steer.4).plus(tacc.4));
    let z: F64 = F64::from_bits(0);
    let percents: (F64, F64, F64, F64) = compute_autopilot_percents(metres, z, z, z, assisted);
    let samples: F64 = m.shares(Part::Samples);
    let mean: F64 = if z.lt(samples) {
        m.shares(Part::SpeedSum).over(samples)
    } else {
        z
    };
    let top: F64 = m.peak();
    let events: (i128, i128) = m.events();
    let dis: i128 = if m.left_pending() {
        events.0 + 1
    } else {
        events.0
    };
    let ends: (Option<GpsPoint>, Option<GpsPoint>) = m.ends();
    let t: DriveTelemetryRollup = rollup_of(&m);
    let ghost rolled = t;
    let start_time: String = format_stamp(first.ts);
    let drive_tags: Vec<String> = find_tags(tags, &start_time);
    let clip: &RouteSummary = &summaries[first.summary];
    let source: Option<String> = match &clip.source {
        Some(s) => Some(s.clone()),
        None => Some("sei".to_string()),
    };
    let kmh: F64 = F64::from_bits(MPS_TO_KMH);
    let d: DriveSummary = DriveSummary {
        id: idx as i32,
        date: format_date(first.ts),
        start_time,
        end_time: format_stamp(end),
        duration_ms,
        distance_mi: round2(m_to_mi(metres)),
        distance_km: round2(metres.over(F64::of_u64(1000))),
        avg_speed_mph: round2(mps_to_mph(mean)),
        max_speed_mph: round2(mps_to_mph(top)),
        avg_speed_kmh: round2(mean.times(kmh)),
        max_speed_kmh: round2(top.times(kmh)),
        clip_count: m.files(),
        point_count: m.shares(Part::Points).round().to_usize(),
        start_point: ends.0,
        end_point: ends.1,
        tags: drive_tags,
        fsd_engaged_ms: fsd.0,
        fsd_disengagements: held32(dis),
        fsd_accel_pushes: held32(events.1),
        fsd_percent: fsd.1,
        fsd_distance_km: fsd.2,
        fsd_distance_mi: fsd.3,
        autosteer_engaged_ms: steer.0,
        autosteer_percent: steer.1,
        autosteer_distance_km: steer.2,
        autosteer_distance_mi: steer.3,
        tacc_engaged_ms: tacc.0,
        tacc_percent: tacc.1,
        tacc_distance_km: tacc.2,
        tacc_distance_mi: tacc.3,
        assisted_percent: percents.3,
        summon: m.summon(duration_ms),
        battery_pct_start: t.battery_pct_start,
        battery_pct_end: t.battery_pct_end,
        battery_pct_used: t.battery_pct_used,
        interior_temp_min_c: t.interior_temp_min_c,
        interior_temp_max_c: t.interior_temp_max_c,
        exterior_temp_avg_c: t.exterior_temp_avg_c,
        hvac_runtime_s: t.hvac_runtime_s,
        tire_fl_psi: t.tire_fl_psi,
        tire_fr_psi: t.tire_fr_psi,
        tire_rl_psi: t.tire_rl_psi,
        tire_rr_psi: t.tire_rr_psi,
        odometer_mi_start: t.odometer_mi_start,
        odometer_mi_end: t.odometer_mi_end,
        odometer_mi_driven: t.odometer_mi_driven,
        start_location: t.location_name_start,
        end_location: t.location_name_end,
        source,
        external_signature: copy_text(&clip.external_signature),
        tessie_autopilot_percent: None,
    };
    proof {
        assert(rolls_up(summaries@, clips@, rolled) && carries(d, rolled));
    }
    d
}

/// A drive's metres, and how many of them lie in gaps behind which the car drove
/// in each mode.
#[derive(Clone, Copy, Debug)]
pub struct SummaryDistances {
    pub total_m: F64,
    pub fsd_bridge_m: F64,
    pub autosteer_bridge_m: F64,
    pub tacc_bridge_m: F64,
}

/// Measures a drive: each clip's share, and the gaps between the clips.
///
/// `bridges[i]` is the distance from where the car was last seen to the start of
/// member `i`; it is read only where both ends of that gap are real positions.
pub fn distance_from_summary_clips(
    summaries: &[RouteSummary],
    clips: &[SubClipSummary],
    bridges: &[F64],
) -> (d: SummaryDistances)
    requires
        subs_fit(summaries@.len() as int, clips@),
        bridges@.len() == clips@.len(),
    ensures
        d.total_m == distance_total(summaries@, clips@, bridges@, clips@.len() as int),
        d.fsd_bridge_m == bridge_total(
            summaries@,
            clips@,
            bridges@,
            AUTOPILOT_FSD,
            clips@.len() as int,
        ),
        d.autosteer_bridge_m == bridge_total(
            summaries@,
            clips@,
            bridges@,
            AUTOPILOT_AUTOSTEER,
            clips@.len() as int,
        ),
        d.tacc_bridge_m == bridge_total(
            summaries@,
            clips@,
            bridges@,
            AUTOPILOT_TACC,
            clips@.len() as int,
        ),
{
    let m: Members = Members::new(summaries, clips);
    let gaps: Vec<bool> = m.gaps();
    SummaryDistances {
        total_m: m.distance(&gaps, bridges),
        fsd_bridge_m: m.bridged(&gaps, bridges, AUTOPILOT_FSD),
        autosteer_bridge_m: m.bridged(&gaps, bridges, AUTOPILOT_AUTOSTEER),
        tacc_bridge_m: m.bridged(&gaps, bridges, AUTOPILOT_TACC),
    }
}

// ---------------------------------------------------------------------------
// Gaps between clips
// ---------------------------------------------------------------------------

/// What a distance function is asked for the gap before clip `i`.
pub open spec fn gap_arguments(s: Seq<RouteSummary>, c: Seq<SubClipSummary>, i: int) -> (
    F64,
    F64,
    F64,
    F64,
) {
    match gap_ends(s, c, i) {
        Some((p, q)) => (p.lat, p.lng, q.lat, q.lng),
        None => (zero(), zero(), zero(), zero()),
    }
}

/// `bridges` are lengths that `geodesic` gave for the gaps between the clips.
pub open spec fn bridged_by<G: Fn(F64, F64, F64, F64) -> F64>(
    s: Seq<RouteSummary>,
    c: Seq<SubClipSummary>,
    geodesic: G,
    bridges: Seq<F64>,
) -> bool {
    &&& bridges.len() == c.len()
    &&& forall|i: int|
        0 <= i < c.len() && gap_ends(s, c, i) is Some ==> call_ensures(geodesic, gap_arguments(s, c, i), #[trigger] bridges[i])
}

/// Measures the gaps between the clips of a drive.
pub fn measure_bridges<G: Fn(F64, F64, F64, F64) -> F64>(
    summaries: &[RouteSummary],
    clips: &[SubClipSummary],
    geodesic: &G,
) -> (bridges: Vec<F64>)
    requires
        subs_fit(summaries@.len() as int, clips@),
        forall|w: F64, x: F64, y: F64, z: F64| call_requires(*geodesic, (w, x, y, z)),
    ensures
        bridged_by(summaries@, clips@, *geodesic, bridges@),
{
    let mut out: Vec<F64> = Vec::new();
    let mut seen: Option<GpsPoint> = None;
    let mut i: usize = 0;
    while i < clips.len()
        invariant
            i <= clips.len(),
            subs_fit(summaries@.len() as int, clips@),
            forall|w: F64, x: F64, y: F64, z: F64| call_requires(*geodesic, (w, x, y, z)),
            out@.len() == i,
            seen == last_seen(summaries@, clips@, i as int),
            forall|k: int|
                0 <= k < i && gap_ends(summaries@, clips@, k) is Some ==> call_ensures(
                    *geodesic,
                    gap_arguments(summaries@, clips@, k),
                    #[trigger] out@[k],
                ),
        decreases clips.len() - i,
    {
        proof {
            assert(sub_fits(summaries@.len() as int, clips@[i as int]));
        }
        let a: RouteAggregates = summaries[clips[i].summary].aggregates;
        let start: Option<GpsPoint> = pair(a.start_lat, a.start_lng);
        let end: Option<GpsPoint> = pair(a.end_lat, a.end_lng);
        let d: F64 = match (seen, start) {
            (Some(p), Some(q)) => {
                if !is_null_island(p.lat, p.lng) && !is_null_island(q.lat, q.lng) {
                    let m: F64 = geodesic(p.lat, p.lng, q.lat, q.lng);
                    m
                } else {
                    F64::from_bits(0)
                }
            },
            _ => F64::from_bits(0),
        };
        out.push(d);
        if end.is_some() {
            seen = end;
        } else if start.is_some() {
            seen = start;
        }
        i = i + 1;
    }
    out
}

// ---------------------------------------------------------------------------
// What a row would say without its distances
// ---------------------------------------------------------------------------

/// Columns of a row that no distance enters.
#[derive(Clone, Copy, Debug)]
pub struct DriveShape {
    pub duration_ms: i64,
    pub max_speed_mph: F64,
    pub summon: bool,
    /// The row's source is another than the car's own recording.
    pub imported: bool,
}

/// A source other than the car's own recording.
pub open spec fn imported(source: Option<Seq<char>>) -> bool {
    source matches Some(t) && t != "sei"@
}

/// Duration, greatest speed and kind of a drive.
pub fn drive_shape(summaries: &[RouteSummary], clips: &[SubClipSummary]) -> (r: DriveShape)
    requires
        clips@.len() > 0,
        subs_fit(summaries@.len() as int, clips@),
        flag_runs_fit(summaries@),
    ensures
        r.duration_ms == span(drive_start(clips@), drive_end(clips@)),
        r.max_speed_mph == rounded2(
            fmul(top_speed(summaries@, clips@, clips@.len() as int), lit(MPS_TO_MPH)),
        ),
        r.summon == drive_is_summon(summaries@, clips@),
        r.imported == imported(text_view(summaries@[clips@[0].summary as int].source)),
{
    let m: Members = Members::new(summaries, clips);
    let n: usize = clips.len();
    proof {
        assert(sub_fits(summaries@.len() as int, clips@[0]));
        assert(sub_fits(summaries@.len() as int, clips@[n - 1]));
    }
    let last: SubClipSummary = clips[n - 1];
    let end: i64 = move_by(last.ts, closing_length(last));
    let duration_ms: i64 = span_ms(clips[0].ts, end);
    let imported: bool = match &summaries[clips[0].summary].source {
        Some(t) => !same_text(t.as_str(), "sei"),
        None => false,
    };
    DriveShape {
        duration_ms,
        max_speed_mph: round2(mps_to_mph(m.peak())),
        summon: m.summon(duration_ms),
        imported,
    }
}

} // verus!
