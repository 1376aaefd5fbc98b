use sentryusb_drives::clock::parse_iso_moment;
use sentryusb_drives::processor::{
    date_dir_of, enters_dir, gapfill_stamps, is_event_folder, judge_clip, leads_to_event,
    manifest_body, recent_times, select_event_fill, select_unprocessed, sorted_texts, takes_file,
    ClipVerdict, IntakeRun,
};
use sentryusb_drives::types::{ExtractedGps, GearRun, ProcessingStatus, GEAR_PARK};

fn texts(v: &[&str]) -> Vec<String> {
    v.iter().map(|s| s.to_string()).collect()
}

fn at(s: &str) -> i64 {
    parse_iso_moment(s).unwrap()
}

#[test]
fn test_is_event_folder() {
    assert!(is_event_folder("SavedClips"));
    assert!(is_event_folder("SentryClips"));
    assert!(!is_event_folder("RecentClips"));
    assert!(!is_event_folder("2026-05-17"));
    assert!(!is_event_folder("2026-05-17_18-47-59"));
    assert!(!is_event_folder(""));
    assert!(!is_event_folder("savedclips"));
    assert!(!is_event_folder("SAVEDCLIPS"));
}

#[test]
fn recent_scan_excludes_event_gapfill_crosslinks() {
    assert!(enters_dir("RecentClips", true));
    assert!(!enters_dir("SavedClips", true));
    assert!(enters_dir("SavedClips", false));
    let real = leads_to_event(&texts(&["", "tmp", "real-recent-front.mp4"]));
    assert!(takes_file("2026-07-15_04-49-00-front.mp4", true, real));
    let link = leads_to_event(&texts(&["TeslaCam", "SavedClips", "x", "y-front.mp4"]));
    assert!(link);
    assert!(!takes_file("2026-07-15_04-50-00-front.mp4", true, link));
    assert!(takes_file("2026-07-15_04-50-00-front.mp4", false, link));
    assert!(!takes_file("2026-07-15_04-50-00-back.mp4", true, false));
}

#[test]
fn manifest_includes_parked_saved_clips_in_interior_hole() {
    let events = texts(&[
        "SavedClips/2026-07-15_04-59-30/2026-07-15_04-50-00-front.mp4",
        "SavedClips/2026-07-15_04-59-30/2026-07-15_04-55-00-front.mp4",
        "SavedClips/2026-07-15_04-59-30/2026-07-15_05-00-03-front.mp4",
    ]);
    let recent = vec![at("2026-07-15T04:49:09"), at("2026-07-15T05:00:03")];
    let stamps = gapfill_stamps(&vec![], &recent, &events);
    assert_eq!(
        stamps,
        texts(&["2026-07-15_04-50-00", "2026-07-15_04-55-00"]),
        "interior parked fills listed; the occupied-slot twin excluded"
    );
    assert_eq!(manifest_body(&stamps), "2026-07-15_04-50-00\n2026-07-15_04-55-00\n");
}

#[test]
fn stored_fillers_are_listed_too() {
    let stored = texts(&["SentryClips/2026-07-15_06-00-00/2026-07-15_05-10-00-front.mp4"]);
    let recent = vec![at("2026-07-15T04:49:09")];
    assert_eq!(gapfill_stamps(&stored, &recent, &vec![]), texts(&["2026-07-15_05-10-00"]));
}

#[test]
fn read_files_are_not_read_again() {
    let files = texts(&["RecentClips/2026/a-front.mp4", "RecentClips/2026/b-front.mp4"]);
    let processed = texts(&["2026/a-front.mp4"]);
    assert_eq!(select_unprocessed(&files, &processed), texts(&["RecentClips/2026/b-front.mp4"]));
}

#[test]
fn texts_are_sorted() {
    let v = sorted_texts(texts(&["b", "a", "ab", "", "B", "\u{e9}"]));
    assert_eq!(v, texts(&["", "B", "a", "ab", "b", "\u{e9}"]));
}

#[test]
fn the_time_line_takes_scanned_and_stored_clips() {
    let files = texts(&["RecentClips/d/2026-06-01_10-03-00-front.mp4", "odd-front.mp4"]);
    let processed = texts(&["d/2026-06-01_10-00-00-front.mp4"]);
    let times = recent_times(&files, &processed);
    assert_eq!(times, vec![at("2026-06-01T10:00:00"), at("2026-06-01T10:03:00")]);
    let events = texts(&[
        "SentryClips/2026-06-01_10-02-30/2026-06-01_10-01-00-front.mp4",
        "SentryClips/2026-06-01_14-02-30/2026-06-01_14-01-00-front.mp4",
    ]);
    let fill = select_event_fill(&times, &events, &processed);
    assert_eq!(fill, texts(&["SentryClips/2026-06-01_10-02-30/2026-06-01_10-01-00-front.mp4"]));
}

#[test]
fn clips_are_filed_under_their_folder() {
    assert_eq!(date_dir_of("2026-06-01/x-front.mp4"), "2026-06-01");
    assert_eq!(date_dir_of("x-front.mp4"), "x-front.mp4");
}

#[test]
fn parked_events_are_not_stored() {
    let mut gps = ExtractedGps::empty();
    gps.gear_runs = vec![GearRun { gear: GEAR_PARK, frames: 60 }];
    gps.raw_park_count = 60;
    gps.raw_frame_count = 60;
    assert_eq!(judge_clip("SentryClips/e/x-front.mp4", &gps), ClipVerdict::Parked);
    assert_eq!(judge_clip("RecentClips/d/x-front.mp4", &gps), ClipVerdict::Store);
    gps.gear_runs = vec![GearRun { gear: 1, frames: 60 }];
    assert_eq!(judge_clip("SentryClips/e/x-front.mp4", &gps), ClipVerdict::Store);
}

#[test]
fn a_run_counts_its_files() {
    let mut run = IntakeRun::new(4);
    run.file_stored(true);
    run.file_parked();
    run.file_not_stored(false, "a.mp4", "disk");
    let last = run.file_not_read("b.mp4", "torn");
    assert!(last.progress);
    assert_eq!((run.routes_found, run.parked_skipped, run.error_count), (1, 1, 2));
    assert_eq!(run.files_with_gps, 1);
    assert_eq!(
        run.errors,
        texts(&["a.mp4: save failed — disk", "b.mp4: extract failed — torn"])
    );
}

#[test]
fn the_status_follows_the_run() {
    let mut s = ProcessingStatus::idle();
    s.begin(2);
    assert!(s.running && s.total_files == 2);
    s.on_file(1, "x.mp4");
    assert_eq!((s.processed_files, s.current_file.as_deref()), (1, Some("x.mp4")));
    s.end(2);
    assert!(!s.running && s.processed_files == 2 && s.current_file.is_none());
}
