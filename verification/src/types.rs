//! Records that the drive store reads, groups and reports.

use crate::aggregate::empty_aggregates;
use crate::float::{F32, F64};
use vstd::prelude::*;

verus! {

/// Gear codes of the telemetry stream.
pub const GEAR_PARK: u8 = 0;
pub const GEAR_DRIVE: u8 = 1;
pub const GEAR_REVERSE: u8 = 2;
pub const GEAR_NEUTRAL: u8 = 3;

/// Autopilot codes of the telemetry stream.
pub const AUTOPILOT_OFF: u8 = 0;
pub const AUTOPILOT_FSD: u8 = 1;
pub const AUTOPILOT_AUTOSTEER: u8 = 2;
pub const AUTOPILOT_TACC: u8 = 3;

/// Bits of the per-frame flag byte.
pub const FLAG_BLINKER_LEFT: u8 = 1;
pub const FLAG_BLINKER_RIGHT: u8 = 2;
pub const FLAG_BRAKE: u8 = 4;
pub const FLAG_ACCEL: u8 = 8;

/// A position in degrees.
#[derive(Clone, Copy, Debug, PartialEq, Eq, Structural)]
pub struct GpsPoint {
    pub lat: F64,
    pub lng: F64,
}

/// A run of frames in one gear.
#[derive(Clone, Copy, Debug, PartialEq, Eq, Structural)]
pub struct GearRun {
    pub gear: u8,
    pub frames: u32,
}

/// A run of frames with one flag byte, and the greatest speed magnitude in it
/// where the extraction recorded speeds.
#[derive(Clone, Copy, Debug, PartialEq, Eq)]
pub struct FlagRun {
    pub flags: u8,
    pub frames: u32,
    pub max_mps: Option<F64>,
}

/// What is read out of one clip.
#[derive(Clone, Debug)]
pub struct ExtractedGps {
    pub points: Vec<GpsPoint>,
    pub gear_states: Vec<u8>,
    pub autopilot_states: Vec<u8>,
    pub speeds: Vec<F32>,
    pub accel_positions: Vec<F32>,
    pub raw_park_count: u32,
    pub raw_frame_count: u32,
    pub gear_runs: Vec<GearRun>,
    pub flag_runs: Vec<FlagRun>,
    pub accel_x: Vec<F32>,
    pub accel_y: Vec<F32>,
}

/// One stored clip with its point data.
#[derive(Clone, Debug)]
pub struct Route {
    pub file: String,
    pub date: String,
    pub points: Vec<GpsPoint>,
    pub gear_states: Vec<u8>,
    pub autopilot_states: Vec<u8>,
    pub speeds: Vec<F32>,
    pub accel_positions: Vec<F32>,
    pub raw_park_count: u32,
    pub raw_frame_count: u32,
    pub gear_runs: Vec<GearRun>,
    pub flag_runs: Vec<FlagRun>,
    pub source: Option<String>,
    pub external_signature: Option<String>,
    pub tessie_autopilot_percent: Option<F64>,
    pub battery_pct_start: Option<F64>,
    pub battery_pct_end: Option<F64>,
    pub interior_temp_min: Option<F64>,
    pub interior_temp_max: Option<F64>,
    pub exterior_temp_avg: Option<F64>,
    pub hvac_runtime_s: Option<i64>,
    pub tire_fl_psi: Option<F64>,
    pub tire_fr_psi: Option<F64>,
    pub tire_rl_psi: Option<F64>,
    pub tire_rr_psi: Option<F64>,
    pub odometer_mi_start: Option<F64>,
    pub odometer_mi_end: Option<F64>,
    pub location_name_start: Option<String>,
    pub location_name_end: Option<String>,
}

/// Scalars of one clip that the list and analytics views add up.
#[derive(Clone, Copy, Debug)]
pub struct RouteAggregates {
    pub distance_m: F64,
    pub max_speed_mps: F64,
    pub avg_speed_mps: F64,
    pub speed_sample_count: i64,
    pub valid_point_count: i64,
    pub fsd_engaged_ms: i64,
    pub autosteer_engaged_ms: i64,
    pub tacc_engaged_ms: i64,
    pub fsd_distance_m: F64,
    pub autosteer_distance_m: F64,
    pub tacc_distance_m: F64,
    pub assisted_distance_m: F64,
    pub fsd_disengagements: i32,
    pub fsd_accel_pushes: i32,
    /// Age of a disengagement still undecided at the clip's end.
    pub fsd_pend_ms_end: Option<F64>,
    /// Start of a Park interval that begins in the clip's first two seconds.
    pub park_ms_start: Option<F64>,
    pub fsd_at_end: bool,
    /// Pushes inside the grace window of a clip engaged from its first sample.
    pub fsd_accel_pushes_early: i32,
    /// Autopilot state of the clip's first sample.
    pub ap_at_start: Option<i32>,
    /// Greatest recorded speed, reversing included; not measured for every clip.
    pub sei_speed_abs_max: Option<F64>,
    pub start_lat: Option<F64>,
    pub start_lng: Option<F64>,
    pub end_lat: Option<F64>,
    pub end_lng: Option<F64>,
}

/// Vehicle telemetry of one clip.
#[derive(Clone, Debug)]
pub struct RouteTelemetryAggregates {
    pub battery_pct_start: Option<F64>,
    pub battery_pct_end: Option<F64>,
    pub interior_temp_min: Option<F64>,
    pub interior_temp_max: Option<F64>,
    pub exterior_temp_avg: Option<F64>,
    pub hvac_runtime_s: Option<i64>,
    pub tire_fl_psi: Option<F64>,
    pub tire_fr_psi: Option<F64>,
    pub tire_rl_psi: Option<F64>,
    pub tire_rr_psi: Option<F64>,
    pub odometer_mi_start: Option<F64>,
    pub odometer_mi_end: Option<F64>,
    pub location_name_start: Option<String>,
    pub location_name_end: Option<String>,
}

/// One stored clip without its point data.
#[derive(Clone, Debug)]
pub struct RouteSummary {
    pub file: String,
    pub date: String,
    pub raw_park_count: u32,
    pub raw_frame_count: u32,
    pub gear_runs: Vec<GearRun>,
    pub flag_runs: Vec<FlagRun>,
    pub aggregates: RouteAggregates,
    pub source: Option<String>,
    pub external_signature: Option<String>,
    pub telemetry: RouteTelemetryAggregates,
}

/// Tags of one drive, keyed by its start time.
#[derive(Clone, Debug)]
pub struct TagEntry {
    pub key: String,
    pub tags: Vec<String>,
}

/// One row of the drive list.
#[derive(Clone, Debug)]
pub struct DriveSummary {
    pub id: i32,
    pub date: String,
    pub start_time: String,
    pub end_time: String,
    pub duration_ms: i64,
    pub distance_mi: F64,
    pub distance_km: F64,
    pub avg_speed_mph: F64,
    pub max_speed_mph: F64,
    pub avg_speed_kmh: F64,
    pub max_speed_kmh: F64,
    pub clip_count: usize,
    pub point_count: usize,
    pub start_point: Option<GpsPoint>,
    pub end_point: Option<GpsPoint>,
    pub tags: Vec<String>,
    pub fsd_engaged_ms: i64,
    pub fsd_disengagements: i32,
    pub fsd_accel_pushes: i32,
    pub fsd_percent: F64,
    pub fsd_distance_km: F64,
    pub fsd_distance_mi: F64,
    pub autosteer_engaged_ms: i64,
    pub autosteer_percent: F64,
    pub autosteer_distance_km: F64,
    pub autosteer_distance_mi: F64,
    pub tacc_engaged_ms: i64,
    pub tacc_percent: F64,
    pub tacc_distance_km: F64,
    pub tacc_distance_mi: F64,
    pub assisted_percent: F64,
    pub summon: bool,
    pub battery_pct_start: Option<F64>,
    pub battery_pct_end: Option<F64>,
    pub battery_pct_used: Option<F64>,
    pub interior_temp_min_c: Option<F64>,
    pub interior_temp_max_c: Option<F64>,
    pub exterior_temp_avg_c: Option<F64>,
    pub hvac_runtime_s: Option<i64>,
    pub tire_fl_psi: Option<F64>,
    pub tire_fr_psi: Option<F64>,
    pub tire_rl_psi: Option<F64>,
    pub tire_rr_psi: Option<F64>,
    pub odometer_mi_start: Option<F64>,
    pub odometer_mi_end: Option<F64>,
    pub odometer_mi_driven: Option<F64>,
    pub start_location: Option<String>,
    pub end_location: Option<String>,
    pub source: Option<String>,
    pub external_signature: Option<String>,
    pub tessie_autopilot_percent: Option<F64>,
}

/// Map polyline of one drive.
#[derive(Clone, Debug)]
pub struct RouteOverview {
    pub id: i32,
    pub points: Vec<GpsPoint>,
    pub source: Option<String>,
    pub start_time: String,
}

/// One day of the self-driving statistics.
#[derive(Clone, Debug)]
pub struct FsdDayStats {
    pub date: String,
    pub day_name: String,
    pub disengagements: i32,
    pub accel_pushes: i32,
    pub fsd_percent: F64,
    pub drives: i32,
    pub fsd_distance_km: F64,
    pub fsd_distance_mi: F64,
    pub total_duration_ms: i64,
    pub fsd_engaged_ms: i64,
}

/// Self-driving statistics of a period.
#[derive(Clone, Debug)]
pub struct FsdAnalytics {
    pub period: String,
    pub period_start: String,
    pub total_drives: i32,
    pub fsd_sessions: i32,
    pub fsd_percent: F64,
    pub today_percent: F64,
    pub best_day: String,
    pub best_day_percent: F64,
    pub fsd_engaged_ms: i64,
    pub fsd_distance_km: F64,
    pub fsd_distance_mi: F64,
    pub total_distance_km: F64,
    pub total_distance_mi: F64,
    pub disengagements: i32,
    pub accel_pushes: i32,
    pub daily: Vec<FsdDayStats>,
    pub fsd_grade: String,
    pub streak_days: i32,
    pub fsd_time_formatted: String,
    pub avg_disengagements_per_drive: F64,
    pub avg_accel_pushes_per_drive: F64,
    pub autosteer_engaged_ms: i64,
    pub autosteer_distance_km: F64,
    pub autosteer_distance_mi: F64,
    pub tacc_engaged_ms: i64,
    pub tacc_distance_km: F64,
    pub tacc_distance_mi: F64,
    pub assisted_percent: F64,
}

/// A point of a drive's line.
#[derive(Clone, Copy, Debug, PartialEq, Eq, Structural)]
pub struct DrivePoint {
    pub lat: F64,
    pub lng: F64,
    /// Milliseconds since the drive's start.
    pub time_ms: F64,
    pub speed_mps: F64,
}

/// Something the driver did while the car drove itself.
#[derive(Clone, Debug)]
pub struct FsdEvent {
    pub lat: F64,
    pub lng: F64,
    pub event_type: String,
}

/// One drive with its line.
#[derive(Clone, Debug)]
pub struct Drive {
    pub id: i32,
    pub date: String,
    pub start_time: String,
    pub end_time: String,
    pub duration_ms: i64,
    pub distance_mi: F64,
    pub distance_km: F64,
    pub avg_speed_mph: F64,
    pub max_speed_mph: F64,
    pub avg_speed_kmh: F64,
    pub max_speed_kmh: F64,
    pub clip_count: usize,
    pub point_count: usize,
    pub points: Vec<DrivePoint>,
    pub gear_states: Vec<i32>,
    pub fsd_states: Vec<i32>,
    pub fsd_events: Vec<FsdEvent>,
    pub tags: Vec<String>,
    pub fsd_engaged_ms: i64,
    pub fsd_disengagements: i32,
    pub fsd_accel_pushes: i32,
    pub fsd_percent: F64,
    pub fsd_distance_km: F64,
    pub fsd_distance_mi: F64,
    pub autosteer_engaged_ms: i64,
    pub autosteer_percent: F64,
    pub autosteer_distance_km: F64,
    pub autosteer_distance_mi: F64,
    pub tacc_engaged_ms: i64,
    pub tacc_percent: F64,
    pub tacc_distance_km: F64,
    pub tacc_distance_mi: F64,
    pub assisted_percent: F64,
    pub summon: bool,
    pub source: Option<String>,
    pub external_signature: Option<String>,
    pub tessie_autopilot_percent: Option<F64>,
}

/// How far an intake run is.
#[derive(Clone, Debug)]
pub struct ProcessingStatus {
    pub running: bool,
    pub total_files: usize,
    pub processed_files: usize,
    pub current_file: Option<String>,
}

/// A clip without anything in it.
pub open spec fn is_blank(r: Route) -> bool {
    &&& r.file@.len() == 0
    &&& r.date@.len() == 0
    &&& r.points@.len() == 0
    &&& r.gear_states@.len() == 0
    &&& r.autopilot_states@.len() == 0
    &&& r.speeds@.len() == 0
    &&& r.accel_positions@.len() == 0
    &&& r.gear_runs@.len() == 0
    &&& r.flag_runs@.len() == 0
    &&& r.raw_park_count == 0
    &&& r.raw_frame_count == 0
    &&& r.source is None
    &&& r.external_signature is None
    &&& r.tessie_autopilot_percent is None
    &&& r.battery_pct_start is None
    &&& r.battery_pct_end is None
    &&& r.interior_temp_min is None
    &&& r.interior_temp_max is None
    &&& r.exterior_temp_avg is None
    &&& r.hvac_runtime_s is None
    &&& r.tire_fl_psi is None
    &&& r.tire_fr_psi is None
    &&& r.tire_rl_psi is None
    &&& r.tire_rr_psi is None
    &&& r.odometer_mi_start is None
    &&& r.odometer_mi_end is None
    &&& r.location_name_start is None
    &&& r.location_name_end is None
}

impl Route {
    /// A clip without anything in it.
    pub fn empty() -> (r: Route)
        ensures
            is_blank(r),
    {
        Route {
            file: String::new(),
            date: String::new(),
            points: Vec::new(),
            gear_states: Vec::new(),
            autopilot_states: Vec::new(),
            speeds: Vec::new(),
            accel_positions: Vec::new(),
            raw_park_count: 0,
            raw_frame_count: 0,
            gear_runs: Vec::new(),
            flag_runs: Vec::new(),
            source: None,
            external_signature: None,
            tessie_autopilot_percent: None,
            battery_pct_start: None,
            battery_pct_end: None,
            interior_temp_min: None,
            interior_temp_max: None,
            exterior_temp_avg: None,
            hvac_runtime_s: None,
            tire_fl_psi: None,
            tire_fr_psi: None,
            tire_rl_psi: None,
            tire_rr_psi: None,
            odometer_mi_start: None,
            odometer_mi_end: None,
            location_name_start: None,
            location_name_end: None,
        }
    }
}

impl Default for Route {
    fn default() -> (r: Route)
        ensures
            is_blank(r),
    {
        Route::empty()
    }
}

impl Default for RouteTelemetryAggregates {
    fn default() -> (r: RouteTelemetryAggregates)
        ensures
            r == (RouteTelemetryAggregates {
                battery_pct_start: None,
                battery_pct_end: None,
                interior_temp_min: None,
                interior_temp_max: None,
                exterior_temp_avg: None,
                hvac_runtime_s: None,
                tire_fl_psi: None,
                tire_fr_psi: None,
                tire_rl_psi: None,
                tire_rr_psi: None,
                odometer_mi_start: None,
                odometer_mi_end: None,
                location_name_start: None,
                location_name_end: None,
            }),
    {
        RouteTelemetryAggregates {
            battery_pct_start: None,
            battery_pct_end: None,
            interior_temp_min: None,
            interior_temp_max: None,
            exterior_temp_avg: None,
            hvac_runtime_s: None,
            tire_fl_psi: None,
            tire_fr_psi: None,
            tire_rl_psi: None,
            tire_rr_psi: None,
            odometer_mi_start: None,
            odometer_mi_end: None,
            location_name_start: None,
            location_name_end: None,
        }
    }
}

impl Default for RouteSummary {
    fn default() -> (r: RouteSummary)
        ensures
            r.file@.len() == 0,
            r.date@.len() == 0,
            r.raw_park_count == 0,
            r.raw_frame_count == 0,
            r.gear_runs@.len() == 0,
            r.flag_runs@.len() == 0,
            r.aggregates == empty_aggregates(),
            r.source is None,
            r.external_signature is None,
            r.telemetry == (RouteTelemetryAggregates {
                battery_pct_start: None,
                battery_pct_end: None,
                interior_temp_min: None,
                interior_temp_max: None,
                exterior_temp_avg: None,
                hvac_runtime_s: None,
                tire_fl_psi: None,
                tire_fr_psi: None,
                tire_rl_psi: None,
                tire_rr_psi: None,
                odometer_mi_start: None,
                odometer_mi_end: None,
                location_name_start: None,
                location_name_end: None,
            }),
    {
        RouteSummary {
            file: String::new(),
            date: String::new(),
            raw_park_count: 0,
            raw_frame_count: 0,
            gear_runs: Vec::new(),
            flag_runs: Vec::new(),
            aggregates: RouteAggregates::default(),
            source: None,
            external_signature: None,
            telemetry: RouteTelemetryAggregates::default(),
        }
    }
}

} // verus!
