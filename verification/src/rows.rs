//! Clips as database rows, and rows as clips.

use crate::blob::{
    BlobError, blob_f32s, blob_gear_runs, blob_points, decode_f32s, decode_gear_runs,
    decode_points, decode_u8s, encode_f32s, encode_gear_runs, encode_points, encode_u8s, f32s_blob,
    gear_runs_blob, law_f32s_round_trip, law_gear_runs_round_trip, law_points_round_trip,
    points_blob,
};
use crate::float::{F32, F64, zero};
use crate::summary::{copy_text, text_view};
use crate::types::{
    GearRun, GpsPoint, Route, RouteAggregates, RouteSummary, RouteTelemetryAggregates,
};
use vstd::prelude::*;

verus! {

/// The stored columns of a clip that hold its points and states.
#[derive(Clone, Debug)]
pub struct RouteRow {
    pub file: String,
    pub date: String,
    pub raw_park_count: i64,
    pub raw_frame_count: i64,
    pub points_blob: Option<Vec<u8>>,
    pub gear_states_blob: Option<Vec<u8>>,
    pub ap_states_blob: Option<Vec<u8>>,
    pub speeds_blob: Option<Vec<u8>>,
    pub accel_blob: Option<Vec<u8>>,
    pub gear_runs_blob: Option<Vec<u8>>,
    pub source: Option<String>,
    pub external_signature: Option<String>,
    pub tessie_autopilot_percent: Option<F64>,
    pub telemetry: RouteTelemetryAggregates,
}

/// The stored aggregate columns of a clip; empty where not yet computed.
#[derive(Clone, Copy, Debug)]
pub struct AggregateColumns {
    pub distance_m: Option<F64>,
    pub max_speed_mps: Option<F64>,
    pub avg_speed_mps: Option<F64>,
    pub speed_sample_count: Option<i64>,
    pub valid_point_count: Option<i64>,
    pub fsd_engaged_ms: Option<i64>,
    pub autosteer_engaged_ms: Option<i64>,
    pub tacc_engaged_ms: Option<i64>,
    pub fsd_distance_m: Option<F64>,
    pub autosteer_distance_m: Option<F64>,
    pub tacc_distance_m: Option<F64>,
    pub assisted_distance_m: Option<F64>,
    pub fsd_disengagements: Option<i64>,
    pub fsd_accel_pushes: Option<i64>,
    pub start_lat: Option<F64>,
    pub start_lon: Option<F64>,
    pub end_lat: Option<F64>,
    pub end_lon: Option<F64>,
    pub fsd_pend_ms_end: Option<F64>,
    pub park_ms_start: Option<F64>,
    pub fsd_at_end: Option<i64>,
    pub fsd_accel_pushes_early: Option<i64>,
    pub ap_at_start: Option<i64>,
}

/// The stored columns of a clip without its points.
#[derive(Clone, Debug)]
pub struct SummaryRow {
    pub file: String,
    pub date: String,
    pub raw_park_count: i64,
    pub raw_frame_count: i64,
    pub gear_runs_blob: Option<Vec<u8>>,
    pub aggregates: AggregateColumns,
    pub source: Option<String>,
    pub external_signature: Option<String>,
    pub telemetry: RouteTelemetryAggregates,
}

/// Everything that is written for a clip.
#[derive(Clone, Debug)]
pub struct RouteRecord {
    pub row: RouteRow,
    pub aggregates: AggregateColumns,
    pub point_count: i64,
    pub first_lat: Option<F64>,
    pub first_lon: Option<F64>,
    pub updated_at: i64,
}

/// Columns with a fixed stride.
#[derive(Clone, Copy, Debug, PartialEq, Eq, Structural)]
pub enum RowColumn {
    Points,
    Speeds,
    Accel,
    GearRuns,
}

/// A column whose length is no multiple of its stride.
#[derive(Clone, Debug)]
pub struct RowError {
    pub file: String,
    pub column: RowColumn,
    pub blob: BlobError,
}

// ---------------------------------------------------------------------------
// Reading
// ---------------------------------------------------------------------------

/// A stored blob is whole.
pub open spec fn is_whole(b: Option<Vec<u8>>, stride: int) -> bool {
    match b {
        Some(v) => v@.len() as int % stride == 0,
        None => true,
    }
}

pub open spec fn bytes_in(b: Option<Vec<u8>>) -> Seq<u8> {
    match b {
        Some(v) => v@,
        None => Seq::empty(),
    }
}

/// The first column of a row that is not whole.
pub open spec fn broken_column(row: RouteRow) -> Option<RowColumn> {
    if !is_whole(row.points_blob, 16) {
        Some(RowColumn::Points)
    } else if !is_whole(row.speeds_blob, 4) {
        Some(RowColumn::Speeds)
    } else if !is_whole(row.accel_blob, 4) {
        Some(RowColumn::Accel)
    } else if !is_whole(row.gear_runs_blob, 5) {
        Some(RowColumn::GearRuns)
    } else {
        None
    }
}

pub open spec fn column_bytes(row: RouteRow, c: RowColumn) -> Seq<u8> {
    match c {
        RowColumn::Points => bytes_in(row.points_blob),
        RowColumn::Speeds => bytes_in(row.speeds_blob),
        RowColumn::Accel => bytes_in(row.accel_blob),
        RowColumn::GearRuns => bytes_in(row.gear_runs_blob),
    }
}

pub open spec fn stride_of(c: RowColumn) -> int {
    match c {
        RowColumn::Points => 16,
        RowColumn::Speeds => 4,
        RowColumn::Accel => 4,
        RowColumn::GearRuns => 5,
    }
}

/// The vehicle columns of a clip are those of `t`.
pub open spec fn carries_telemetry(r: Route, t: RouteTelemetryAggregates) -> bool {
    &&& r.battery_pct_start == t.battery_pct_start
    &&& r.battery_pct_end == t.battery_pct_end
    &&& r.interior_temp_min == t.interior_temp_min
    &&& r.interior_temp_max == t.interior_temp_max
    &&& r.exterior_temp_avg == t.exterior_temp_avg
    &&& r.hvac_runtime_s == t.hvac_runtime_s
    &&& r.tire_fl_psi == t.tire_fl_psi
    &&& r.tire_fr_psi == t.tire_fr_psi
    &&& r.tire_rl_psi == t.tire_rl_psi
    &&& r.tire_rr_psi == t.tire_rr_psi
    &&& r.odometer_mi_start == t.odometer_mi_start
    &&& r.odometer_mi_end == t.odometer_mi_end
    &&& text_view(r.location_name_start) == text_view(t.location_name_start)
    &&& text_view(r.location_name_end) == text_view(t.location_name_end)
}

/// `r` is the clip that `row` stores.
pub open spec fn is_clip_of(row: RouteRow, r: Route) -> bool {
    &&& r.file@ == row.file@
    &&& r.date@ == row.date@
    &&& r.raw_park_count == row.raw_park_count as u32
    &&& r.raw_frame_count == row.raw_frame_count as u32
    &&& r.points@ == blob_points(bytes_in(row.points_blob))
    &&& r.gear_states@ == bytes_in(row.gear_states_blob)
    &&& r.autopilot_states@ == bytes_in(row.ap_states_blob)
    &&& r.speeds@ == blob_f32s(bytes_in(row.speeds_blob))
    &&& r.accel_positions@ == blob_f32s(bytes_in(row.accel_blob))
    &&& r.gear_runs@ == blob_gear_runs(bytes_in(row.gear_runs_blob))
    &&& r.flag_runs@.len() == 0
    &&& text_view(r.source) == text_view(row.source)
    &&& text_view(r.external_signature) == text_view(row.external_signature)
    &&& r.tessie_autopilot_percent == row.tessie_autopilot_percent
    &&& carries_telemetry(r, row.telemetry)
}

fn as_bytes(b: &Option<Vec<u8>>) -> (r: Option<&[u8]>)
    ensures
        match (b, r) {
            (Some(v), Some(s)) => s@ == v@,
            (None, None) => true,
            _ => false,
        },
{
    match b {
        Some(v) => Some(v.as_slice()),
        None => None,
    }
}

fn read_points(b: &Option<Vec<u8>>) -> (r: Result<Vec<GpsPoint>, BlobError>)
    ensures
        match r {
            Ok(v) => is_whole(*b, 16) && v@ == blob_points(bytes_in(*b)),
            Err(e) => !is_whole(*b, 16) && e.length == bytes_in(*b).len() && e.stride == 16,
        },
{
    match decode_points(as_bytes(b)) {
        Ok(Some(v)) => Ok(v),
        Ok(None) => {
            let v: Vec<GpsPoint> = Vec::new();
            proof {
                assert(v@ =~= blob_points(bytes_in(*b)));
            }
            Ok(v)
        },
        Err(e) => Err(e),
    }
}

fn read_states(b: &Option<Vec<u8>>) -> (r: Vec<u8>)
    ensures
        r@ == bytes_in(*b),
{
    match decode_u8s(as_bytes(b)) {
        Some(v) => v,
        None => {
            let v: Vec<u8> = Vec::new();
            proof {
                assert(v@ =~= bytes_in(*b));
            }
            v
        },
    }
}

fn read_f32s(b: &Option<Vec<u8>>) -> (r: Result<Vec<F32>, BlobError>)
    ensures
        match r {
            Ok(v) => is_whole(*b, 4) && v@ == blob_f32s(bytes_in(*b)),
            Err(e) => !is_whole(*b, 4) && e.length == bytes_in(*b).len() && e.stride == 4,
        },
{
    match decode_f32s(as_bytes(b)) {
        Ok(Some(v)) => Ok(v),
        Ok(None) => {
            let v: Vec<F32> = Vec::new();
            proof {
                assert(v@ =~= blob_f32s(bytes_in(*b)));
            }
            Ok(v)
        },
        Err(e) => Err(e),
    }
}

fn read_gear_runs(b: &Option<Vec<u8>>) -> (r: Result<Vec<GearRun>, BlobError>)
    ensures
        match r {
            Ok(v) => is_whole(*b, 5) && v@ == blob_gear_runs(bytes_in(*b)),
            Err(e) => !is_whole(*b, 5) && e.length == bytes_in(*b).len() && e.stride == 5,
        },
{
    match decode_gear_runs(as_bytes(b)) {
        Ok(Some(v)) => Ok(v),
        Ok(None) => {
            let v: Vec<GearRun> = Vec::new();
            proof {
                assert(v@ =~= blob_gear_runs(bytes_in(*b)));
            }
            Ok(v)
        },
        Err(e) => Err(e),
    }
}

/// The clip that a row stores; an error names the first column that is not
/// whole.
pub fn build_route_from_row(row: RouteRow) -> (r: Result<Route, RowError>)
    ensures
        match r {
            Ok(route) => broken_column(row) is None && is_clip_of(row, route),
            Err(e) => broken_column(row) == Some(e.column) && e.file@ == row.file@ && e.blob.length
                == column_bytes(row, e.column).len() && e.blob.stride == stride_of(e.column),
        },
{
    let points: Vec<GpsPoint> = match read_points(&row.points_blob) {
        Ok(v) => v,
        Err(blob) => {
            return Err(RowError { file: row.file, column: RowColumn::Points, blob });
        },
    };
    let speeds: Vec<F32> = match read_f32s(&row.speeds_blob) {
        Ok(v) => v,
        Err(blob) => {
            return Err(RowError { file: row.file, column: RowColumn::Speeds, blob });
        },
    };
    let accel_positions: Vec<F32> = match read_f32s(&row.accel_blob) {
        Ok(v) => v,
        Err(blob) => {
            return Err(RowError { file: row.file, column: RowColumn::Accel, blob });
        },
    };
    let gear_runs: Vec<GearRun> = match read_gear_runs(&row.gear_runs_blob) {
        Ok(v) => v,
        Err(blob) => {
            return Err(RowError { file: row.file, column: RowColumn::GearRuns, blob });
        },
    };
    let gear_states: Vec<u8> = read_states(&row.gear_states_blob);
    let autopilot_states: Vec<u8> = read_states(&row.ap_states_blob);
    let t: RouteTelemetryAggregates = row.telemetry;
    Ok(
        Route {
            file: row.file,
            date: row.date,
            points,
            gear_states,
            autopilot_states,
            speeds,
            accel_positions,
            raw_park_count: row.raw_park_count as u32,
            raw_frame_count: row.raw_frame_count as u32,
            gear_runs,
            flag_runs: Vec::new(),
            source: row.source,
            external_signature: row.external_signature,
            tessie_autopilot_percent: row.tessie_autopilot_percent,
            battery_pct_start: t.battery_pct_start,
            battery_pct_end: t.battery_pct_end,
            interior_temp_min: t.interior_temp_min,
            interior_temp_max: t.interior_temp_max,
            exterior_temp_avg: t.exterior_temp_avg,
            hvac_runtime_s: t.hvac_runtime_s,
            tire_fl_psi: t.tire_fl_psi,
            tire_fr_psi: t.tire_fr_psi,
            tire_rl_psi: t.tire_rl_psi,
            tire_rr_psi: t.tire_rr_psi,
            odometer_mi_start: t.odometer_mi_start,
            odometer_mi_end: t.odometer_mi_end,
            location_name_start: t.location_name_start,
            location_name_end: t.location_name_end,
        },
    )
}

pub open spec fn f64_or_zero(v: Option<F64>) -> F64 {
    match v {
        Some(x) => x,
        None => zero(),
    }
}

pub open spec fn i64_or_zero(v: Option<i64>) -> i64 {
    match v {
        Some(x) => x,
        None => 0,
    }
}

/// The aggregates that the columns store; zero where a column is empty.
pub open spec fn aggregates_in(c: AggregateColumns) -> RouteAggregates {
    RouteAggregates {
        distance_m: f64_or_zero(c.distance_m),
        max_speed_mps: f64_or_zero(c.max_speed_mps),
        avg_speed_mps: f64_or_zero(c.avg_speed_mps),
        speed_sample_count: i64_or_zero(c.speed_sample_count),
        valid_point_count: i64_or_zero(c.valid_point_count),
        fsd_engaged_ms: i64_or_zero(c.fsd_engaged_ms),
        autosteer_engaged_ms: i64_or_zero(c.autosteer_engaged_ms),
        tacc_engaged_ms: i64_or_zero(c.tacc_engaged_ms),
        fsd_distance_m: f64_or_zero(c.fsd_distance_m),
        autosteer_distance_m: f64_or_zero(c.autosteer_distance_m),
        tacc_distance_m: f64_or_zero(c.tacc_distance_m),
        assisted_distance_m: f64_or_zero(c.assisted_distance_m),
        fsd_disengagements: i64_or_zero(c.fsd_disengagements) as i32,
        fsd_accel_pushes: i64_or_zero(c.fsd_accel_pushes) as i32,
        fsd_pend_ms_end: c.fsd_pend_ms_end,
        park_ms_start: c.park_ms_start,
        fsd_at_end: i64_or_zero(c.fsd_at_end) != 0,
        fsd_accel_pushes_early: i64_or_zero(c.fsd_accel_pushes_early) as i32,
        ap_at_start: match c.ap_at_start {
            Some(v) => Some(v as i32),
            None => None,
        },
        sei_speed_abs_max: None,
        start_lat: c.start_lat,
        start_lng: c.start_lon,
        end_lat: c.end_lat,
        end_lng: c.end_lon,
    }
}

fn or_zero_f64(v: Option<F64>) -> (r: F64)
    ensures
        r == f64_or_zero(v),
{
    match v {
        Some(x) => x,
        None => F64::from_bits(0),
    }
}

fn or_zero_i64(v: Option<i64>) -> (r: i64)
    ensures
        r == i64_or_zero(v),
{
    match v {
        Some(x) => x,
        None => 0,
    }
}

fn read_aggregates(c: AggregateColumns) -> (a: RouteAggregates)
    ensures
        a == aggregates_in(c),
{
    RouteAggregates {
        distance_m: or_zero_f64(c.distance_m),
        max_speed_mps: or_zero_f64(c.max_speed_mps),
        avg_speed_mps: or_zero_f64(c.avg_speed_mps),
        speed_sample_count: or_zero_i64(c.speed_sample_count),
        valid_point_count: or_zero_i64(c.valid_point_count),
        fsd_engaged_ms: or_zero_i64(c.fsd_engaged_ms),
        autosteer_engaged_ms: or_zero_i64(c.autosteer_engaged_ms),
        tacc_engaged_ms: or_zero_i64(c.tacc_engaged_ms),
        fsd_distance_m: or_zero_f64(c.fsd_distance_m),
        autosteer_distance_m: or_zero_f64(c.autosteer_distance_m),
        tacc_distance_m: or_zero_f64(c.tacc_distance_m),
        assisted_distance_m: or_zero_f64(c.assisted_distance_m),
        fsd_disengagements: or_zero_i64(c.fsd_disengagements) as i32,
        fsd_accel_pushes: or_zero_i64(c.fsd_accel_pushes) as i32,
        fsd_pend_ms_end: c.fsd_pend_ms_end,
        park_ms_start: c.park_ms_start,
        fsd_at_end: or_zero_i64(c.fsd_at_end) != 0,
        fsd_accel_pushes_early: or_zero_i64(c.fsd_accel_pushes_early) as i32,
        ap_at_start: match c.ap_at_start {
            Some(v) => Some(v as i32),
            None => None,
        },
        sei_speed_abs_max: None,
        start_lat: c.start_lat,
        start_lng: c.start_lon,
        end_lat: c.end_lat,
        end_lng: c.end_lon,
    }
}

/// `s` is the summary that `row` stores.
pub open spec fn is_stored_summary(row: SummaryRow, s: RouteSummary) -> bool {
    &&& s.file@ == row.file@
    &&& s.date@ == row.date@
    &&& s.raw_park_count == row.raw_park_count as u32
    &&& s.raw_frame_count == row.raw_frame_count as u32
    &&& s.gear_runs@ == blob_gear_runs(bytes_in(row.gear_runs_blob))
    &&& s.flag_runs@.len() == 0
    &&& s.aggregates == aggregates_in(row.aggregates)
    &&& text_view(s.source) == text_view(row.source)
    &&& text_view(s.external_signature) == text_view(row.external_signature)
    &&& s.telemetry == row.telemetry
}

/// The summary that a row stores; an error where its gear runs are not whole.
pub fn build_summary_from_row(row: SummaryRow) -> (r: Result<RouteSummary, RowError>)
    ensures
        match r {
            Ok(s) => is_whole(row.gear_runs_blob, 5) && is_stored_summary(row, s),
            Err(e) => !is_whole(row.gear_runs_blob, 5) && e.column == RowColumn::GearRuns
                && e.file@ == row.file@ && e.blob.length == bytes_in(row.gear_runs_blob).len()
                && e.blob.stride == 5,
        },
{
    let gear_runs: Vec<GearRun> = match read_gear_runs(&row.gear_runs_blob) {
        Ok(v) => v,
        Err(blob) => {
            return Err(RowError { file: row.file, column: RowColumn::GearRuns, blob });
        },
    };
    Ok(
        RouteSummary {
            file: row.file,
            date: row.date,
            raw_park_count: row.raw_park_count as u32,
            raw_frame_count: row.raw_frame_count as u32,
            gear_runs,
            flag_runs: Vec::new(),
            aggregates: read_aggregates(row.aggregates),
            source: row.source,
            external_signature: row.external_signature,
            telemetry: row.telemetry,
        },
    )
}

// ---------------------------------------------------------------------------
// Writing
// ---------------------------------------------------------------------------

/// The columns that store `a`.
pub open spec fn columns_of(a: RouteAggregates) -> AggregateColumns {
    AggregateColumns {
        distance_m: Some(a.distance_m),
        max_speed_mps: Some(a.max_speed_mps),
        avg_speed_mps: Some(a.avg_speed_mps),
        speed_sample_count: Some(a.speed_sample_count),
        valid_point_count: Some(a.valid_point_count),
        fsd_engaged_ms: Some(a.fsd_engaged_ms),
        autosteer_engaged_ms: Some(a.autosteer_engaged_ms),
        tacc_engaged_ms: Some(a.tacc_engaged_ms),
        fsd_distance_m: Some(a.fsd_distance_m),
        autosteer_distance_m: Some(a.autosteer_distance_m),
        tacc_distance_m: Some(a.tacc_distance_m),
        assisted_distance_m: Some(a.assisted_distance_m),
        fsd_disengagements: Some(a.fsd_disengagements as i64),
        fsd_accel_pushes: Some(a.fsd_accel_pushes as i64),
        start_lat: a.start_lat,
        start_lon: a.start_lng,
        end_lat: a.end_lat,
        end_lon: a.end_lng,
        fsd_pend_ms_end: a.fsd_pend_ms_end,
        park_ms_start: a.park_ms_start,
        fsd_at_end: Some(
            if a.fsd_at_end {
                1i64
            } else {
                0i64
            },
        ),
        fsd_accel_pushes_early: Some(a.fsd_accel_pushes_early as i64),
        ap_at_start: match a.ap_at_start {
            Some(v) => Some(v as i64),
            None => None,
        },
    }
}

fn write_aggregates(a: &RouteAggregates) -> (c: AggregateColumns)
    ensures
        c == columns_of(*a),
{
    AggregateColumns {
        distance_m: Some(a.distance_m),
        max_speed_mps: Some(a.max_speed_mps),
        avg_speed_mps: Some(a.avg_speed_mps),
        speed_sample_count: Some(a.speed_sample_count),
        valid_point_count: Some(a.valid_point_count),
        fsd_engaged_ms: Some(a.fsd_engaged_ms),
        autosteer_engaged_ms: Some(a.autosteer_engaged_ms),
        tacc_engaged_ms: Some(a.tacc_engaged_ms),
        fsd_distance_m: Some(a.fsd_distance_m),
        autosteer_distance_m: Some(a.autosteer_distance_m),
        tacc_distance_m: Some(a.tacc_distance_m),
        assisted_distance_m: Some(a.assisted_distance_m),
        fsd_disengagements: Some(a.fsd_disengagements as i64),
        fsd_accel_pushes: Some(a.fsd_accel_pushes as i64),
        start_lat: a.start_lat,
        start_lon: a.start_lng,
        end_lat: a.end_lat,
        end_lon: a.end_lng,
        fsd_pend_ms_end: a.fsd_pend_ms_end,
        park_ms_start: a.park_ms_start,
        fsd_at_end: Some(
            if a.fsd_at_end {
                1i64
            } else {
                0i64
            },
        ),
        fsd_accel_pushes_early: Some(a.fsd_accel_pushes_early as i64),
        ap_at_start: match a.ap_at_start {
            Some(v) => Some(v as i64),
            None => None,
        },
    }
}

/// A stored blob with these bytes.
pub open spec fn stores(b: Option<Vec<u8>>, bytes: Seq<u8>) -> bool {
    b matches Some(v) && v@ == bytes
}

/// `rec` is what is written for the clip `r` under the key `file`.
pub open spec fn is_record_of(
    file: Seq<char>,
    r: Route,
    a: RouteAggregates,
    now: i64,
    rec: RouteRecord,
) -> bool {
    &&& rec.row.file@ == file
    &&& rec.row.date@ == r.date@
    &&& rec.row.raw_park_count == r.raw_park_count
    &&& rec.row.raw_frame_count == r.raw_frame_count
    &&& stores(rec.row.points_blob, points_blob(r.points@))
    &&& stores(rec.row.gear_states_blob, r.gear_states@)
    &&& stores(rec.row.ap_states_blob, r.autopilot_states@)
    &&& stores(rec.row.speeds_blob, f32s_blob(r.speeds@))
    &&& stores(rec.row.accel_blob, f32s_blob(r.accel_positions@))
    &&& stores(rec.row.gear_runs_blob, gear_runs_blob(r.gear_runs@))
    &&& text_view(rec.row.source) == text_view(r.source)
    &&& text_view(rec.row.external_signature) == text_view(r.external_signature)
    &&& rec.row.tessie_autopilot_percent == r.tessie_autopilot_percent
    &&& carries_telemetry(r, rec.row.telemetry)
    &&& rec.aggregates == columns_of(a)
    &&& rec.point_count == r.points@.len()
    &&& (rec.first_lat, rec.first_lon) == if r.points@.len() > 0 {
        (Some(r.points@[0].lat), Some(r.points@[0].lng))
    } else {
        (None, None)
    }
    &&& rec.updated_at == now
}

/// What is written for a clip under its canonical key.
pub fn build_record(
    norm_file: &str,
    r: &Route,
    a: &RouteAggregates,
    now: i64,
) -> (rec: RouteRecord)
    requires
        r.points@.len() <= i64::MAX,
    ensures
        is_record_of(norm_file@, *r, *a, now, rec),
{
    let first: Option<GpsPoint> = if r.points.len() > 0 {
        Some(r.points[0])
    } else {
        None
    };
    RouteRecord {
        row: RouteRow {
            file: norm_file.to_string(),
            date: r.date.clone(),
            raw_park_count: r.raw_park_count as i64,
            raw_frame_count: r.raw_frame_count as i64,
            points_blob: encode_points(Some(r.points.as_slice())),
            gear_states_blob: encode_u8s(Some(r.gear_states.as_slice())),
            ap_states_blob: encode_u8s(Some(r.autopilot_states.as_slice())),
            speeds_blob: encode_f32s(Some(r.speeds.as_slice())),
            accel_blob: encode_f32s(Some(r.accel_positions.as_slice())),
            gear_runs_blob: encode_gear_runs(Some(r.gear_runs.as_slice())),
            source: copy_text(&r.source),
            external_signature: copy_text(&r.external_signature),
            tessie_autopilot_percent: r.tessie_autopilot_percent,
            telemetry: RouteTelemetryAggregates {
                battery_pct_start: r.battery_pct_start,
                battery_pct_end: r.battery_pct_end,
                interior_temp_min: r.interior_temp_min,
                interior_temp_max: r.interior_temp_max,
                exterior_temp_avg: r.exterior_temp_avg,
                hvac_runtime_s: r.hvac_runtime_s,
                tire_fl_psi: r.tire_fl_psi,
                tire_fr_psi: r.tire_fr_psi,
                tire_rl_psi: r.tire_rl_psi,
                tire_rr_psi: r.tire_rr_psi,
                odometer_mi_start: r.odometer_mi_start,
                odometer_mi_end: r.odometer_mi_end,
                location_name_start: copy_text(&r.location_name_start),
                location_name_end: copy_text(&r.location_name_end),
            },
        },
        aggregates: write_aggregates(a),
        point_count: r.points.len() as i64,
        first_lat: match first {
            Some(p) => Some(p.lat),
            None => None,
        },
        first_lon: match first {
            Some(p) => Some(p.lng),
            None => None,
        },
        updated_at: now,
    }
}

// ---------------------------------------------------------------------------
// Laws
// ---------------------------------------------------------------------------

/// The two clips agree in everything that is stored, but for their key.
pub open spec fn same_clip(a: Route, b: Route) -> bool {
    &&& a.date@ == b.date@
    &&& a.points@ == b.points@
    &&& a.gear_states@ == b.gear_states@
    &&& a.autopilot_states@ == b.autopilot_states@
    &&& a.speeds@ == b.speeds@
    &&& a.accel_positions@ == b.accel_positions@
    &&& a.raw_park_count == b.raw_park_count
    &&& a.raw_frame_count == b.raw_frame_count
    &&& a.gear_runs@ == b.gear_runs@
    &&& text_view(a.source) == text_view(b.source)
    &&& text_view(a.external_signature) == text_view(b.external_signature)
    &&& a.tessie_autopilot_percent == b.tessie_autopilot_percent
    &&& a.battery_pct_start == b.battery_pct_start
    &&& a.battery_pct_end == b.battery_pct_end
    &&& a.interior_temp_min == b.interior_temp_min
    &&& a.interior_temp_max == b.interior_temp_max
    &&& a.exterior_temp_avg == b.exterior_temp_avg
    &&& a.hvac_runtime_s == b.hvac_runtime_s
    &&& a.tire_fl_psi == b.tire_fl_psi
    &&& a.tire_fr_psi == b.tire_fr_psi
    &&& a.tire_rl_psi == b.tire_rl_psi
    &&& a.tire_rr_psi == b.tire_rr_psi
    &&& a.odometer_mi_start == b.odometer_mi_start
    &&& a.odometer_mi_end == b.odometer_mi_end
    &&& text_view(a.location_name_start) == text_view(b.location_name_start)
    &&& text_view(a.location_name_end) == text_view(b.location_name_end)
}

/// What is written for a clip can always be read, and reading it gives the clip
/// back under its key.
pub proof fn law_stored_clip_reads_back(
    file: Seq<char>,
    r: Route,
    a: RouteAggregates,
    now: i64,
    rec: RouteRecord,
    back: Route,
)
    requires
        is_record_of(file, r, a, now, rec),
        is_clip_of(rec.row, back),
    ensures
        broken_column(rec.row) is None,
        back.file@ == file,
        same_clip(r, back),
{
    law_points_round_trip(r.points@);
    law_f32s_round_trip(r.speeds@);
    law_f32s_round_trip(r.accel_positions@);
    law_gear_runs_round_trip(r.gear_runs@);
}

/// What is written for a clip has no broken column.
pub proof fn law_stored_clip_is_whole(
    file: Seq<char>,
    r: Route,
    a: RouteAggregates,
    now: i64,
    rec: RouteRecord,
)
    requires
        is_record_of(file, r, a, now, rec),
    ensures
        broken_column(rec.row) is None,
{
    law_points_round_trip(r.points@);
    law_f32s_round_trip(r.speeds@);
    law_f32s_round_trip(r.accel_positions@);
    law_gear_runs_round_trip(r.gear_runs@);
}

/// Stored aggregates read back as they were, but for the peak of the recorded
/// speeds, which has no column here.
pub proof fn law_stored_aggregates_read_back(a: RouteAggregates)
    ensures
        aggregates_in(columns_of(a)) == (RouteAggregates { sei_speed_abs_max: None, ..a }),
{
}

} // verus!
