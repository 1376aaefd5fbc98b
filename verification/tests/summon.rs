use sentryusb_drives::analytics::build_fsd_analytics;
use sentryusb_drives::candidates::summon_check_candidates;
use sentryusb_drives::float::F64;
use sentryusb_drives::list::group_summaries_fast;
use sentryusb_drives::summary::CLIP_DURATION_MS;
use sentryusb_drives::summon::{
    detect_summon, flag_runs_overlap, segment_max_speed, SummonClipEvidence,
    SUMMON_BOOKEND_SECONDS, SUMMON_MAX_DURATION_MS, SUMMON_MAX_SPEED_MPS,
};
use sentryusb_drives::types::{
    FlagRun, GearRun, RouteAggregates, RouteSummary, FLAG_ACCEL, FLAG_BLINKER_LEFT,
    FLAG_BLINKER_RIGHT, FLAG_BRAKE, GEAR_PARK,
};

fn f(x: f64) -> F64 {
    F64::from_bits(x.to_bits())
}

fn g(x: F64) -> f64 {
    f64::from_bits(x.to_bits())
}

/// WGS-84 distance in metres.
fn geodesic_m(lat1: f64, lon1: f64, lat2: f64, lon2: f64) -> f64 {
    if lat1 == lat2 && lon1 == lon2 {
        return 0.0;
    }
    let flat = 1.0 / 298.257_223_563;
    let rad = std::f64::consts::PI / 180.0;
    let b1 = ((1.0 - flat) * (lat1 * rad).tan()).atan();
    let b2 = ((1.0 - flat) * (lat2 * rad).tan()).atan();
    let (p, q) = ((b1 + b2) / 2.0, (b2 - b1) / 2.0);
    let s = ((lon2 - lon1) * rad / 2.0).sin();
    let h = q.sin() * q.sin() + b1.cos() * b2.cos() * s * s;
    let sigma = 2.0 * h.sqrt().atan2((1.0 - h).max(0.0).sqrt());
    if sigma == 0.0 {
        return 0.0;
    }
    let x = (sigma - sigma.sin()) * p.sin().powi(2) * q.cos().powi(2) / (1.0 - h).max(1e-12);
    let y = (sigma + sigma.sin()) * p.cos().powi(2) * q.sin() * q.sin() / h.max(1e-12);
    6_378_137.0 * (sigma - (flat / 2.0) * (x + y))
}

fn geodesic(lat1: F64, lon1: F64, lat2: F64, lon2: F64) -> F64 {
    f(geodesic_m(g(lat1), g(lon1), g(lat2), g(lon2)))
}

fn fr(pairs: &[(u8, u32)]) -> Vec<FlagRun> {
    pairs
        .iter()
        .map(|&(flags, frames)| FlagRun { flags, frames, max_mps: None })
        .collect()
}

fn frm(triples: &[(u8, u32, f64)]) -> Vec<FlagRun> {
    triples
        .iter()
        .map(|&(flags, frames, m)| FlagRun { flags, frames, max_mps: Some(f(m)) })
        .collect()
}

fn ev(runs: &[FlagRun], start: u32, end: u32, total: u32) -> SummonClipEvidence<'_> {
    SummonClipEvidence {
        flag_runs: runs,
        start_frame: start,
        end_frame: end,
        total_frames: total,
    }
}

fn ass_start_runs() -> Vec<FlagRun> {
    fr(&[(0, 27), (3, 123), (0, 17), (1, 873), (0, 746)])
}

fn ass_end_runs() -> Vec<FlagRun> {
    fr(&[(0, 471), (3, 82)])
}

const ASS_MAX_SPEED: f64 = 2.7;
const ASS_DURATION_MS: i64 = 78_000;

#[test]
fn summon_flag_constants_and_thresholds_are_locked() {
    assert_eq!(FLAG_BLINKER_LEFT, 1);
    assert_eq!(FLAG_BLINKER_RIGHT, 2);
    assert_eq!(FLAG_BRAKE, 4);
    assert_eq!(FLAG_ACCEL, 8);
    assert_eq!(f64::from_bits(SUMMON_MAX_SPEED_MPS), 4.5);
    assert_eq!(SUMMON_BOOKEND_SECONDS as f64, 10.0);
    assert_eq!(SUMMON_MAX_DURATION_MS, 600_000);
    assert_eq!(CLIP_DURATION_MS, 60_000);
}

#[test]
fn flag_runs_overlap_require_all_needs_both_bits_in_same_run() {
    let hazard: u8 = FLAG_BLINKER_LEFT | FLAG_BLINKER_RIGHT;
    assert!(flag_runs_overlap(&fr(&[(3, 10)]), 0, 10, hazard, true));
    let alternating = fr(&[(1, 10), (2, 10)]);
    assert!(!flag_runs_overlap(&alternating, 0, 20, hazard, true));
    assert!(flag_runs_overlap(&alternating, 0, 20, hazard, false));
}

#[test]
fn flag_runs_overlap_honors_from_to_frame_bounds() {
    let runs = fr(&[
        (3, 60),
        (0, 540),
        (3, 60),
        (0, 1140),
    ]);
    assert!(flag_runs_overlap(&runs, 0, 60, 3, true));
    assert!(!flag_runs_overlap(&runs, 60, 600, 3, true));
    assert!(!flag_runs_overlap(&runs, 660, 1800, 3, true));
    assert!(!flag_runs_overlap(&runs, 360, 600, 3, true));
    assert!(flag_runs_overlap(&runs, 360, 601, 3, true));
}

#[test]
fn detect_summon_real_ass_two_clip_shape_is_summon() {
    let (start, end) = (ass_start_runs(), ass_end_runs());
    let clips = vec![ev(&start, 0, 1786, 1786), ev(&end, 0, 553, 553)];
    assert!(detect_summon(&clips, f(ASS_MAX_SPEED), ASS_DURATION_MS, true));
}

#[test]
fn detect_summon_single_clip_dumb_summon_shape_is_summon() {
    let runs = fr(&[(3, 90), (0, 300), (3, 60)]);
    let clips = vec![ev(&runs, 0, 450, 450)];
    assert!(detect_summon(&clips, f(1.0), 15_000, true));
}

#[test]
fn detect_summon_pedal_input_anywhere_disqualifies() {
    let human = fr(&[(0, 1200), (4, 12), (8, 230), (4, 40), (0, 674)]);
    let clips = vec![ev(&human, 0, 2156, 2156)];
    assert!(!detect_summon(&clips, f(1.3), 10_000, true));
    let hazards_but_pedal = fr(&[(3, 90), (0, 100), (8, 1), (0, 199), (3, 60)]);
    let clips = vec![ev(&hazards_but_pedal, 0, 450, 450)];
    assert!(!detect_summon(&clips, f(1.0), 15_000, true));
}

#[test]
fn detect_summon_hazards_must_bookend_both_ends() {
    let start = ass_start_runs();
    let no_hazard_end = fr(&[(0, 553)]);
    let clips = vec![ev(&start, 0, 1786, 1786), ev(&no_hazard_end, 0, 553, 553)];
    assert!(!detect_summon(&clips, f(ASS_MAX_SPEED), ASS_DURATION_MS, true));
}

#[test]
fn detect_summon_individual_turn_signals_never_read_as_hazards() {
    let runs = fr(&[
        (1, 90),
        (0, 300),
        (2, 60),
    ]);
    let clips = vec![ev(&runs, 0, 450, 450)];
    assert!(!detect_summon(&clips, f(1.0), 15_000, true));
}

#[test]
fn detect_summon_speed_duration_and_sei_speed_gates() {
    let (start, end) = (ass_start_runs(), ass_end_runs());
    let clips = vec![ev(&start, 0, 1786, 1786), ev(&end, 0, 553, 553)];
    assert!(!detect_summon(&clips, f(5.0), ASS_DURATION_MS, true));
    assert!(!detect_summon(&clips, f(0.0), ASS_DURATION_MS, true));
    assert!(!detect_summon(&clips, f(ASS_MAX_SPEED), 601_000, true));
    assert!(!detect_summon(&clips, f(ASS_MAX_SPEED), ASS_DURATION_MS, false));
}

#[test]
fn detect_summon_any_clip_without_flag_runs_makes_drive_unverifiable() {
    let start = ass_start_runs();
    let legacy: Vec<FlagRun> = Vec::new();
    let clips = vec![ev(&start, 0, 1786, 1786), ev(&legacy, 0, 553, 553)];
    assert!(!detect_summon(&clips, f(ASS_MAX_SPEED), ASS_DURATION_MS, true));
    assert!(!detect_summon(&[], f(ASS_MAX_SPEED), ASS_DURATION_MS, true));
}

#[test]
fn detect_summon_park_split_segment_bounds_gate_the_bookend_windows() {
    let runs = fr(&[(3, 60), (0, 540), (3, 60), (0, 1140)]);
    let first = vec![ev(&runs, 0, 660, 1800)];
    let second = vec![ev(&runs, 660, 1800, 1800)];
    assert!(detect_summon(&first, f(1.5), 22_000, true));
    assert!(!detect_summon(&second, f(1.5), 22_000, true));
}

#[test]
fn segment_max_speed_frame_space_max_over_segment_null_on_legacy_runs() {
    let runs = frm(&[(3, 100, 0.5), (0, 400, 2.7), (8, 500, 4.7)]);
    assert_eq!(segment_max_speed(&ev(&runs, 0, 500, 1000)).map(g), Some(2.7));
    assert_eq!(segment_max_speed(&ev(&runs, 0, 1000, 1000)).map(g), Some(4.7));
    assert_eq!(segment_max_speed(&ev(&runs, 450, 550, 1000)).map(g), Some(4.7));
    let legacy = vec![
        FlagRun { flags: 3, frames: 100, max_mps: None },
        FlagRun { flags: 0, frames: 100, max_mps: Some(f(1.0)) },
    ];
    assert_eq!(segment_max_speed(&ev(&legacy, 0, 200, 200)).map(g), None);
    assert_eq!(segment_max_speed(&ev(&legacy, 100, 200, 200)).map(g), Some(1.0));
}

#[test]
fn detect_summon_frame_space_speed_evidence_overrides_polluted_drive_stats() {
    let clip_a_runs = frm(&[(0, 7, 0.0), (3, 144, 0.1), (0, 766, 2.7)]);
    let clip_b_runs = frm(&[
        (0, 143, 2.7),
        (3, 219, 2.6),
        (0, 105, 2.0),
        (3, 191, 1.8),
        (4, 50, 0.0),
        (0, 10, 0.0),
        (8, 521, 4.7),
        (0, 16, 4.0),
        (8, 545, 4.7),
        (0, 55, 1.0),
    ]);
    let clips = vec![
        ev(&clip_a_runs, 0, 917, 917),
        ev(&clip_b_runs, 0, 579, 1855),
    ];
    assert!(detect_summon(&clips, f(4.05), 42_000, true));
    let fast_no_pedals = frm(&[(3, 100, 0.5), (0, 700, 4.7), (3, 100, 0.3)]);
    let fast_clips = vec![ev(&fast_no_pedals, 0, 900, 900)];
    assert!(!detect_summon(&fast_clips, f(2.0), 42_000, true));
}


fn summon_summary_runs(
    file: &str,
    gear_runs: &[(u8, u32)],
    flag_runs: Vec<FlagRun>,
    sei_speed_abs_max: Option<f64>,
) -> RouteSummary {
    let aggregates = RouteAggregates {
        sei_speed_abs_max: sei_speed_abs_max.map(f),
        ..Default::default()
    };
    RouteSummary {
        file: file.to_string(),
        date: "2026-07-15".to_string(),
        raw_park_count: gear_runs
            .iter()
            .filter(|(g, _)| *g == GEAR_PARK)
            .map(|(_, f)| f)
            .sum(),
        raw_frame_count: gear_runs.iter().map(|(_, f)| *f).sum(),
        gear_runs: gear_runs.iter().map(|&(gear, frames)| GearRun { gear, frames }).collect(),
        flag_runs,
        aggregates,
        source: None,
        external_signature: None,
        telemetry: Default::default(),
    }
}

fn summon_summary(
    file: &str,
    gear_runs: &[(u8, u32)],
    flag_runs: &[(u8, u32)],
    sei_speed_abs_max: Option<f64>,
) -> RouteSummary {
    summon_summary_runs(file, gear_runs, fr(flag_runs), sei_speed_abs_max)
}

#[test]
fn summon_hazard_bookended_pedal_free_crawl_across_two_clips_is_flagged() {
    let clip_a = summon_summary(
        "2026-07-15/2026-07-15_20-49-54-front.mp4",
        &[(GEAR_PARK, 60), (1, 1726)],
        &[(0, 27), (3, 123), (0, 17), (1, 873), (0, 746)],
        Some(2.7),
    );
    let clip_b = summon_summary(
        "2026-07-15/2026-07-15_20-50-43-front.mp4",
        &[(1, 500), (GEAR_PARK, 53)],
        &[(0, 471), (3, 82)],
        Some(2.7),
    );
    let drives = group_summaries_fast(&[clip_a, clip_b], &[], geodesic);
    assert_eq!(drives.len(), 1);
    assert!(drives[0].summon);
}

#[test]
fn summon_missing_flag_runs_or_pedal_input_never_flags() {
    let bare_a = summon_summary(
        "2026-07-15/2026-07-15_20-49-54-front.mp4",
        &[(GEAR_PARK, 60), (1, 1726)],
        &[],
        Some(2.7),
    );
    let bare_b = summon_summary(
        "2026-07-15/2026-07-15_20-50-43-front.mp4",
        &[(1, 500), (GEAR_PARK, 53)],
        &[],
        Some(2.7),
    );
    let bare_drives = group_summaries_fast(&[bare_a, bare_b], &[], geodesic);
    assert_eq!(bare_drives.len(), 1);
    assert!(!bare_drives[0].summon);

    let pedal_clip = summon_summary(
        "2026-07-16/2026-07-16_09-00-00-front.mp4",
        &[(GEAR_PARK, 60), (1, 1726)],
        &[(3, 150), (0, 800), (8, 36), (0, 718), (3, 82)],
        Some(2.0),
    );
    let pedal_drives = group_summaries_fast(&[pedal_clip], &[], geodesic);
    assert_eq!(pedal_drives.len(), 1);
    assert!(!pedal_drives[0].summon);
}

#[test]
fn summon_reverse_only_negative_sei_speeds_is_flagged() {
    let clip = summon_summary(
        "2026-07-20/2026-07-20_09-00-00-front.mp4",
        &[(GEAR_PARK, 90), (2, 300), (GEAR_PARK, 60)],
        &[(3, 120), (0, 240), (3, 90)],
        Some(1.5),
    );
    assert_eq!(
        g(clip.aggregates.max_speed_mps), 0.0,
        "precondition: locked stats dropped the negative samples"
    );
    let drives = group_summaries_fast(&[clip], &[], geodesic);
    assert_eq!(drives.len(), 1);
    assert!(drives[0].summon);
}

#[test]
fn summon_trailing_park_run_isolates_summon_from_following_drive() {
    let clip_a = summon_summary(
        "2026-07-15/2026-07-15_20-49-54-front.mp4",
        &[(GEAR_PARK, 60), (1, 1726)],
        &[(0, 27), (3, 123), (0, 17), (1, 873), (0, 746)],
        Some(2.7),
    );
    let clip_b = summon_summary(
        "2026-07-15/2026-07-15_20-50-43-front.mp4",
        &[(1, 500), (GEAR_PARK, 53)],
        &[(0, 471), (3, 82)],
        Some(2.7),
    );
    let clip_c = summon_summary(
        "2026-07-15/2026-07-15_20-52-45-front.mp4",
        &[(1, 1790)],
        &[(8, 900), (4, 90), (8, 800)],
        Some(12.0),
    );
    let drives =
        group_summaries_fast(&[clip_a, clip_b, clip_c], &[], geodesic);
    assert_eq!(drives.len(), 2, "park gap must split summon from the next drive");
    assert!(drives[0].summon, "the summon drive keeps its flag");
    assert!(!drives[1].summon, "the human drive must not inherit it");
}

#[test]
fn summon_reverse_summon_ending_seconds_before_human_drives_off_splits_and_flags() {
    let clip_a = summon_summary_runs(
        "2026-07-27/2026-07-27_20-04-00-front.mp4",
        &[(GEAR_PARK, 46), (2, 727), (1, 917)],
        frm(&[
            (0, 11, 0.0),
            (3, 113, 0.1),
            (0, 394, 2.0),
            (2, 256, 2.0),
            (0, 301, 1.5),
            (2, 615, 2.0),
        ]),
        Some(2.0),
    );
    let clip_b = summon_summary_runs(
        "2026-07-27/2026-07-27_20-04-46-front.mp4",
        &[(1, 120), (GEAR_PARK, 84), (1, 1469)],
        frm(&[
            (2, 81, 0.3),
            (3, 89, 0.3),
            (4, 70, 0.0),
            (0, 200, 0.0),
            (8, 690, 5.4),
            (0, 112, 4.0),
            (1, 431, 5.4),
        ]),
        Some(5.4),
    );
    let drives = group_summaries_fast(&[clip_a, clip_b], &[], geodesic);
    assert_eq!(drives.len(), 2, "mid-clip park must split the summon from the departure");
    assert!(
        drives[0].summon,
        "summon keeps its flag despite sharing clip B with 5.4 m/s driving"
    );
    assert!(!drives[1].summon, "the human drive after the park is not summon");
}

#[test]
fn summon_point_slice_speed_pollution_does_not_reject_frame_slow_summon() {
    let clip_a = summon_summary_runs(
        "2026-07-27/2026-07-27_00-34-31-front.mp4",
        &[(GEAR_PARK, 68), (2, 538), (1, 311)],
        frm(&[
            (0, 7, 0.0),
            (3, 144, 0.1),
            (0, 766, 2.7),
        ]),
        Some(2.7),
    );
    let clip_b = summon_summary_runs(
        "2026-07-27/2026-07-27_00-34-59-front.mp4",
        &[(1, 579), (GEAR_PARK, 114), (1, 1162)],
        frm(&[
            (0, 143, 2.7),
            (3, 219, 2.6),
            (0, 105, 2.0),
            (3, 191, 1.8),
            (4, 50, 0.0),
            (0, 10, 0.0),
            (8, 521, 4.7),
            (0, 16, 4.0),
            (8, 545, 4.7),
            (0, 55, 1.0),
        ]),
        Some(4.7),
    );
    let drives = group_summaries_fast(&[clip_a, clip_b], &[], geodesic);
    assert_eq!(drives.len(), 2);
    assert!(
        drives[0].summon,
        "frame-space speed evidence must override the polluted clip-level max"
    );
    assert!(!drives[1].summon, "the human drive after the park is not summon");
}

#[test]
fn summon_whole_clip_abs_max_fallback_stays_conservative_on_shared_clip() {
    let clip_a = summon_summary(
        "2026-07-27/2026-07-27_20-04-00-front.mp4",
        &[(GEAR_PARK, 46), (2, 727), (1, 917)],
        &[(0, 11), (3, 113), (0, 394), (2, 256), (0, 301), (2, 615)],
        Some(2.0),
    );
    let clip_b = summon_summary(
        "2026-07-27/2026-07-27_20-04-46-front.mp4",
        &[(1, 120), (GEAR_PARK, 84), (1, 1469)],
        &[(2, 81), (3, 89), (4, 70), (0, 200), (8, 690), (0, 112), (1, 431)],
        Some(5.4),
    );
    let drives = group_summaries_fast(&[clip_a, clip_b], &[], geodesic);
    assert_eq!(drives.len(), 2);
    assert!(
        !drives[0].summon,
        "without per-run maxima the whole-clip 5.4 m/s must reject the summon"
    );
    assert!(!drives[1].summon);
}

#[test]
fn summon_drives_do_not_count_toward_fsd_analytics() {
    let mut fsd_commute = summon_summary(
        "2026-07-15/2026-07-15_08-00-00-front.mp4",
        &[(1, 1800)],
        &[],
        Some(20.0),
    );
    fsd_commute.aggregates.distance_m = f(9850.0);
    fsd_commute.aggregates.fsd_distance_m = f(9850.0);
    fsd_commute.aggregates.fsd_engaged_ms = 300_000;
    fsd_commute.aggregates.fsd_disengagements = 1;

    let mut summon_a = summon_summary(
        "2026-07-15/2026-07-15_20-49-54-front.mp4",
        &[(GEAR_PARK, 60), (1, 1726)],
        &[(0, 27), (3, 123), (0, 17), (1, 873), (0, 746)],
        Some(2.7),
    );
    summon_a.aggregates.distance_m = f(100.0);
    let mut summon_b = summon_summary(
        "2026-07-15/2026-07-15_20-50-43-front.mp4",
        &[(1, 500), (GEAR_PARK, 53)],
        &[(0, 471), (3, 82)],
        Some(2.7),
    );
    summon_b.aggregates.distance_m = f(50.0);

    let drives =
        group_summaries_fast(&[fsd_commute, summon_a, summon_b], &[], geodesic);
    assert_eq!(drives.len(), 2);
    assert!(!drives[0].summon);
    assert_eq!(g(drives[0].fsd_percent), 100.0);
    assert!(drives[1].summon, "precondition: the evening drive is a summon");
    assert!(g(drives[1].distance_km) > 0.0, "precondition: it carries distance");

    let fsd = build_fsd_analytics(&drives, "all", 20_649);
    assert_eq!(fsd.total_drives, 1, "summon drive must not count");
    assert_eq!(g(fsd.fsd_percent), 100.0, "score undiluted by the summon's distance");
    assert_eq!(g(fsd.total_distance_km), 9.85, "summon distance stays out of analytics");
    assert_eq!(
        g(fsd.avg_disengagements_per_drive), 1.0,
        "per-drive averages must not gain a phantom summon denominator"
    );
    assert_eq!(g(fsd.best_day_percent), 100.0);
}


#[test]
fn summon_check_selects_whole_envelope_drive_lacking_evidence() {
    let clip_a = summon_summary(
        "2026-07-15/2026-07-15_20-49-54-front.mp4",
        &[(GEAR_PARK, 60), (1, 1726)],
        &[],
        Some(2.7),
    );
    let clip_b = summon_summary(
        "2026-07-15/2026-07-15_20-50-43-front.mp4",
        &[(1, 500), (GEAR_PARK, 53)],
        &[],
        Some(2.7),
    );
    let cands = summon_check_candidates(&[clip_a, clip_b]);
    assert_eq!(cands.candidate_drives, 1);
    assert_eq!(
        cands.files,
        vec![
            "2026-07-15/2026-07-15_20-49-54-front.mp4".to_string(),
            "2026-07-15/2026-07-15_20-50-43-front.mp4".to_string(),
        ]
    );
}

#[test]
fn summon_check_skips_rows_with_current_evidence_and_flagged_drives() {
    let clip_a = summon_summary_runs(
        "2026-07-15/2026-07-15_20-49-54-front.mp4",
        &[(GEAR_PARK, 60), (1, 1726)],
        frm(&[(0, 27, 0.0), (3, 123, 0.1), (0, 1640, 2.7)]),
        Some(2.7),
    );
    let clip_b = summon_summary_runs(
        "2026-07-15/2026-07-15_20-50-43-front.mp4",
        &[(1, 500), (GEAR_PARK, 53)],
        frm(&[(0, 471, 2.7), (3, 82, 0.3)]),
        Some(2.7),
    );
    let cands = summon_check_candidates(&[clip_a, clip_b]);
    assert_eq!(cands.candidate_drives, 0, "already-flagged drive is done");
    assert!(cands.files.is_empty(), "current evidence never re-reads");

    let clip_c = summon_summary_runs(
        "2026-07-16/2026-07-16_09-00-00-front.mp4",
        &[(1, 1800)],
        frm(&[(8, 900, 2.0), (0, 900, 2.0)]),
        Some(2.0),
    );
    let cands = summon_check_candidates(&[clip_c]);
    assert_eq!(cands.candidate_drives, 1);
    assert!(cands.files.is_empty());
}

#[test]
fn summon_check_selects_slow_edges_and_boundary_clips_of_fast_drive() {
    let mk = |file: &str, abs_max: f64| {
        let mut c = summon_summary(file, &[(1, 1800)], &[], Some(abs_max));
        c.aggregates.max_speed_mps = f(abs_max);
        c
    };
    let clips = [
        mk("2026-07-16/2026-07-16_09-00-00-front.mp4", 2.0),
        mk("2026-07-16/2026-07-16_09-01-00-front.mp4", 20.0),
        mk("2026-07-16/2026-07-16_09-02-00-front.mp4", 20.0),
        mk("2026-07-16/2026-07-16_09-03-00-front.mp4", 2.0),
    ];
    let cands = summon_check_candidates(&clips);
    assert_eq!(cands.candidate_drives, 1);
    assert_eq!(
        cands.files,
        vec![
            "2026-07-16/2026-07-16_09-00-00-front.mp4".to_string(),
            "2026-07-16/2026-07-16_09-01-00-front.mp4".to_string(),
            "2026-07-16/2026-07-16_09-03-00-front.mp4".to_string(),
            "2026-07-16/2026-07-16_09-02-00-front.mp4".to_string(),
        ]
    );

    let fast = [
        mk("2026-07-17/2026-07-17_09-00-00-front.mp4", 20.0),
        mk("2026-07-17/2026-07-17_09-01-00-front.mp4", 20.0),
    ];
    let cands = summon_check_candidates(&fast);
    assert_eq!(cands.candidate_drives, 0);
    assert!(cands.files.is_empty());
}

#[test]
fn summon_check_pre_v16_rows_fall_back_to_locked_max_speed() {
    let mk = |file: &str, max_mps: f64, samples: i64| {
        let mut c = summon_summary(file, &[(1, 1800)], &[], None);
        c.aggregates.max_speed_mps = f(max_mps);
        c.aggregates.speed_sample_count = samples;
        c
    };
    let clips = [
        mk("2026-07-18/2026-07-18_09-00-00-front.mp4", 2.0, 100),
        mk("2026-07-18/2026-07-18_09-01-00-front.mp4", 20.0, 100),
        mk("2026-07-18/2026-07-18_09-02-00-front.mp4", 20.0, 100),
    ];
    let cands = summon_check_candidates(&clips);
    assert_eq!(cands.candidate_drives, 1);
    assert_eq!(
        cands.files,
        vec![
            "2026-07-18/2026-07-18_09-00-00-front.mp4".to_string(),
            "2026-07-18/2026-07-18_09-01-00-front.mp4".to_string(),
        ]
    );

    let clips = [
        mk("2026-07-19/2026-07-19_09-00-00-front.mp4", 0.0, 0),
        mk("2026-07-19/2026-07-19_09-01-00-front.mp4", 20.0, 100),
        mk("2026-07-19/2026-07-19_09-02-00-front.mp4", 20.0, 100),
    ];
    let cands = summon_check_candidates(&clips);
    assert_eq!(cands.candidate_drives, 0);
    assert!(cands.files.is_empty());
}

#[test]
fn summon_check_skips_imported_drives_and_bridge_files() {
    let mut imported = summon_summary(
        "2026-07-20/2026-07-20_09-00-00-front.mp4",
        &[(1, 1800)],
        &[],
        Some(2.0),
    );
    imported.source = Some("tessie".to_string());
    let cands = summon_check_candidates(&[imported]);
    assert_eq!(cands.candidate_drives, 0, "imported drives can't gain SEI evidence");
    assert!(cands.files.is_empty());

    let real = summon_summary(
        "2026-07-21/2026-07-21_09-00-00-front.mp4",
        &[(1, 1800)],
        &[],
        Some(2.0),
    );
    let bridge = summon_summary(
        "2026-07-21/2026-07-21_09-01-00-front-bridge.mp4",
        &[(1, 1800)],
        &[],
        Some(2.0),
    );
    let cands = summon_check_candidates(&[real, bridge]);
    assert_eq!(cands.candidate_drives, 1);
    assert_eq!(
        cands.files,
        vec!["2026-07-21/2026-07-21_09-00-00-front.mp4".to_string()]
    );
}
