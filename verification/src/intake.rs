//! What is stored of a clip that was read.

use crate::aggregate::{aggregates_of, compute_route_aggregates, measured};
use crate::float::{F32, F64};
use crate::rows::{
    RouteRecord, broken_column, build_record, carries_telemetry, is_clip_of, is_record_of,
    law_stored_clip_reads_back, same_clip,
};
use crate::store::{canonical, normalize_path};
use crate::text::copy_range;
use crate::types::{
    ExtractedGps, GearRun, GpsPoint, Route, RouteAggregates, RouteTelemetryAggregates,
};
use vstd::prelude::*;

verus! {

/// `r` is the clip at a path with the telemetry that was read from it.
pub open spec fn is_clip_from(
    path: Seq<char>,
    dir: Seq<char>,
    gps: ExtractedGps,
    r: Route,
) -> bool {
    &&& r.file@ == path
    &&& r.date@ == dir
    &&& r.points@ == gps.points@
    &&& r.gear_states@ == gps.gear_states@
    &&& r.autopilot_states@ == gps.autopilot_states@
    &&& r.speeds@ == gps.speeds@
    &&& r.accel_positions@ == gps.accel_positions@
    &&& r.raw_park_count == gps.raw_park_count
    &&& r.raw_frame_count == gps.raw_frame_count
    &&& r.gear_runs@ == gps.gear_runs@
    &&& r.flag_runs@.len() == 0
    &&& r.source is None
    &&& r.external_signature is None
    &&& r.tessie_autopilot_percent is None
    &&& carries_telemetry(
        r,
        RouteTelemetryAggregates {
            battery_pct_start: None,
            battery_pct_end: None,
            interior_temp_min: None,
            interior_temp_max: None,
            exterior_temp_avg: None,
            hvac_runtime_s: None,
            tire_fl_psi: None,
            tire_fr_psi: None,
            tire_rl_psi: None,
            tire_rr_psi: None,
            odometer_mi_start: None,
            odometer_mi_end: None,
            location_name_start: None,
            location_name_end: None,
        },
    )
}

/// The clip at a path with the telemetry that was read from it.
pub fn route_of_file(relative_path: &str, date_dir: &str, gps: &ExtractedGps) -> (r: Route)
    ensures
        is_clip_from(relative_path@, date_dir@, *gps, r),
{
    let points: Vec<GpsPoint> = copy_range(gps.points.as_slice(), 0, gps.points.len());
    let gear_states: Vec<u8> = copy_range(gps.gear_states.as_slice(), 0, gps.gear_states.len());
    let autopilot_states: Vec<u8> = copy_range(
        gps.autopilot_states.as_slice(),
        0,
        gps.autopilot_states.len(),
    );
    let speeds: Vec<F32> = copy_range(gps.speeds.as_slice(), 0, gps.speeds.len());
    let accel_positions: Vec<F32> = copy_range(
        gps.accel_positions.as_slice(),
        0,
        gps.accel_positions.len(),
    );
    let gear_runs: Vec<GearRun> = copy_range(gps.gear_runs.as_slice(), 0, gps.gear_runs.len());
    proof {
        assert(points@ =~= gps.points@);
        assert(gear_states@ =~= gps.gear_states@);
        assert(autopilot_states@ =~= gps.autopilot_states@);
        assert(speeds@ =~= gps.speeds@);
        assert(accel_positions@ =~= gps.accel_positions@);
        assert(gear_runs@ =~= gps.gear_runs@);
    }
    let mut r: Route = Route::empty();
    r.file = relative_path.to_string();
    r.date = date_dir.to_string();
    r.points = points;
    r.gear_states = gear_states;
    r.autopilot_states = autopilot_states;
    r.speeds = speeds;
    r.accel_positions = accel_positions;
    r.raw_park_count = gps.raw_park_count;
    r.raw_frame_count = gps.raw_frame_count;
    r.gear_runs = gear_runs;
    r
}

/// `rec` is what is stored of a clip: under its canonical key, with its aggregates
/// by the distances that `geodesic` gave.
pub open spec fn is_stored_as<G: Fn(F64, F64, F64, F64) -> F64>(
    r: Route,
    now: i64,
    geodesic: G,
    rec: RouteRecord,
) -> bool {
    exists|hops: Seq<F64>| #[trigger]
        measured(r, geodesic, hops) && is_record_of(
            canonical(r.file@),
            r,
            aggregates_of(r, hops),
            now,
            rec,
        )
}

/// What is stored of a clip.
pub fn record_route<G: Fn(F64, F64, F64, F64) -> F64>(
    r: &Route,
    now: i64,
    geodesic: G,
) -> (rec: RouteRecord)
    requires
        r.points@.len() <= i32::MAX,
        r.gear_runs@.len() <= i32::MAX,
        forall|w: F64, x: F64, y: F64, z: F64| call_requires(geodesic, (w, x, y, z)),
    ensures
        is_stored_as(*r, now, geodesic, rec),
{
    let a: RouteAggregates = compute_route_aggregates(r, geodesic);
    let key: String = normalize_path(r.file.as_str());
    build_record(key.as_str(), r, &a, now)
}

/// What is stored of a file that was read; nothing where it has no points.
pub fn record_file<G: Fn(F64, F64, F64, F64) -> F64>(
    relative_path: &str,
    date_dir: &str,
    gps: &ExtractedGps,
    now: i64,
    geodesic: G,
) -> (rec: Option<RouteRecord>)
    requires
        gps.points@.len() <= i32::MAX,
        gps.gear_runs@.len() <= i32::MAX,
        forall|w: F64, x: F64, y: F64, z: F64| call_requires(geodesic, (w, x, y, z)),
    ensures
        match rec {
            Some(s) => gps.points@.len() > 0 && exists|r: Route|
                #[trigger] is_clip_from(relative_path@, date_dir@, *gps, r) && is_stored_as(
                    r,
                    now,
                    geodesic,
                    s,
                ),
            None => gps.points@.len() == 0,
        },
{
    if gps.points.len() == 0 {
        return None;
    }
    let r: Route = route_of_file(relative_path, date_dir, gps);
    Some(record_route(&r, now, geodesic))
}

/// What is stored of a clip reads back as the clip, under its canonical key.
pub proof fn law_what_is_stored_reads_back<G: Fn(F64, F64, F64, F64) -> F64>(
    r: Route,
    now: i64,
    geodesic: G,
    rec: RouteRecord,
    back: Route,
)
    requires
        is_stored_as(r, now, geodesic, rec),
        is_clip_of(rec.row, back),
    ensures
        broken_column(rec.row) is None,
        back.file@ == canonical(r.file@),
        same_clip(r, back),
{
    let hops = choose|hops: Seq<F64>| #[trigger]
        measured(r, geodesic, hops) && is_record_of(
            canonical(r.file@),
            r,
            aggregates_of(r, hops),
            now,
            rec,
        );
    law_stored_clip_reads_back(canonical(r.file@), r, aggregates_of(r, hops), now, rec, back);
}

} // verus!
