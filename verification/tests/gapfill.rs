use sentryusb_drives::clock::{move_by, parse_iso_moment, span_ms};
use sentryusb_drives::gapfill::{
    select_gap_fill, select_gap_fill_events, select_interior_fill, GapFillCandidate,
    GAP_FILL_MAX_MS,
};
use sentryusb_drives::processor::gap_fill_files;
use sentryusb_drives::subclips::group_summary_clips;
use sentryusb_drives::types::{GearRun, RouteSummary, GEAR_PARK};

fn at(s: &str) -> i64 {
    parse_iso_moment(&format!("2026-06-01T{s}")).unwrap()
}

fn cand(s: &str, file: &'static str, driving: bool, gear: bool) -> GapFillCandidate<'static> {
    GapFillCandidate { ts: at(s), file, driving: Some(driving), gear_driving: gear }
}

fn blind(cands: &[GapFillCandidate<'static>]) -> Vec<(i64, &'static str)> {
    cands.iter().map(|c| (c.ts, c.file)).collect()
}

#[test]
fn the_scan_misses_no_filler() {
    let recent = vec![at("10:00:00"), at("10:01:00"), at("10:05:00")];
    let cands = vec![
        cand("10:02:00", "SentryClips/a-front.mp4", true, true),
        cand("10:03:00", "SentryClips/b-front.mp4", false, false),
        cand("10:03:00", "SavedClips/b-front.mp4", false, false),
        cand("10:06:30", "SentryClips/c-front.mp4", true, true),
        cand("10:08:00", "SentryClips/d-front.mp4", false, false),
        cand("14:00:00", "SentryClips/e-front.mp4", true, true),
    ];
    let before = select_gap_fill_events(&recent, &blind(&cands));
    let after = select_gap_fill(&recent, &cands);
    assert_eq!(after, vec![0, 3, 5]);
    assert_eq!(before, vec![0, 2, 3, 4]);
    for i in after {
        assert!(before.contains(&i) || cands[i].gear_driving);
    }
}

#[test]
fn a_parked_copy_can_stand_in_the_way() {
    // The copy of a minute that comes first is parked, the later one is not.
    let recent = vec![at("10:00:00"), at("10:03:00")];
    let cands = vec![
        cand("10:01:00", "SentryClips/a-front.mp4", false, false),
        cand("10:01:20", "SentryClips/b-front.mp4", true, true),
    ];
    assert_eq!(select_gap_fill_events(&recent, &blind(&cands)), vec![0]);
    assert_eq!(select_gap_fill(&recent, &cands), vec![1]);
}

#[test]
fn the_scan_stays_near() {
    let recent = vec![at("10:00:00")];
    let files: Vec<(i64, &str)> =
        (1..60).map(|m| (move_by(at("10:00:00"), m * 100_000), "SentryClips/x-front.mp4")).collect();
    let picked = select_gap_fill_events(&recent, &files);
    assert_eq!(picked.len(), 18);
    assert!(picked.iter().all(|&i| span_ms(recent[0], files[i].0) <= GAP_FILL_MAX_MS));
}

#[test]
fn parked_minutes_fill_gaps_for_playback_alone() {
    let recent = vec![at("10:00:00"), at("10:03:00")];
    let cands = vec![cand("10:01:00", "SavedClips/a-front.mp4", false, false)];
    assert!(select_gap_fill(&recent, &cands).is_empty());
    assert_eq!(select_interior_fill(&recent, &blind(&cands)), vec![0]);
}

fn row(file: &str, runs: &[(u8, u32)]) -> RouteSummary {
    RouteSummary {
        file: file.to_string(),
        gear_runs: runs.iter().map(|&(gear, frames)| GearRun { gear, frames }).collect(),
        ..Default::default()
    }
}

#[test]
fn stretches_of_a_clip_start_in_order() {
    let s = vec![row(
        "d/2026-06-01_10-00-00-front.mp4",
        &[(1, 100), (GEAR_PARK, 60), (1, 1), (GEAR_PARK, 60), (2, 1579)],
    )];
    let drives = group_summary_clips(&s);
    let starts: Vec<i64> = drives.iter().map(|d| span_ms(at("10:00:00"), d[0].ts)).collect();
    assert_eq!(starts, vec![0, 5333, 7367]);
}

#[test]
fn stored_fillers_show_driving() {
    let s = vec![
        row("SavedClips/e/2026-06-01_10-00-00-front.mp4", &[(1, 60)]),
        row("SentryClips/e/2026-06-01_10-01-00-front.mp4", &[(GEAR_PARK, 60)]),
        row("d/2026-06-01_10-02-00-front.mp4", &[(1, 60)]),
    ];
    assert_eq!(gap_fill_files(&s), vec!["SavedClips/e/2026-06-01_10-00-00-front.mp4".to_string()]);
}

#[test]
fn spans_around_two_leap_seconds_can_shrink() {
    // Up to the leap second that ends the day is longer than up to midnight.
    let t = |s: &str| parse_iso_moment(s).unwrap();
    let first = t("2026-06-30T23:55:60");
    assert_eq!(span_ms(first, t("2026-06-30T23:59:60")), 241_000);
    assert_eq!(span_ms(first, t("2026-07-01T00:00:00")), 240_000);
    // With one leap second they do not.
    let plain = t("2026-06-30T23:56:00");
    assert_eq!(span_ms(plain, t("2026-06-30T23:59:60")), 240_000);
    assert_eq!(span_ms(plain, t("2026-07-01T00:00:00")), 240_000);
}
