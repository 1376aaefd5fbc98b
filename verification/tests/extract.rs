use sentryusb_drives::extract::{
    assemble_extracted, box_has_long_size, box_step, compute_flag_runs, compute_gear_runs,
    decode_sei_gps, decode_varint, dedup_consecutive, parse_tesla_sei, read_long_size,
    strip_emulation_bytes, unit_is_supplemental, unit_length, BoxStep, RawFrames,
};
use sentryusb_drives::float::{F32, F64};
use sentryusb_drives::media::{collect_frames, extract_gps_from_bytes, find_media};
use sentryusb_drives::types::{FlagRun, GpsPoint, GEAR_DRIVE, GEAR_PARK};

fn f(x: f64) -> F64 {
    F64::from_bits(x.to_bits())
}

fn g(x: F64) -> f64 {
    f64::from_bits(x.to_bits())
}

fn f32s(v: &[f32]) -> Vec<F32> {
    v.iter().map(|x| F32::from_bits(x.to_bits())).collect()
}

fn p(lat: f64, lng: f64) -> GpsPoint {
    GpsPoint { lat: f(lat), lng: f(lng) }
}

fn run(flags: u8, frames: u32, max_mps: Option<f64>) -> FlagRun {
    FlagRun { flags, frames, max_mps: max_mps.map(f) }
}

#[test]
fn test_decode_varint() {
    assert_eq!(decode_varint(&[0x00]), (0, 1));
    assert_eq!(decode_varint(&[0x01]), (1, 1));
    assert_eq!(decode_varint(&[0x96, 0x01]), (150, 2));
    assert_eq!(decode_varint(&[0xAC, 0x02]), (300, 2));
    assert_eq!(decode_varint(&[]), (0, 0));
}

#[test]
fn test_strip_emulation_bytes() {
    assert_eq!(
        strip_emulation_bytes(&[0x00, 0x00, 0x03, 0x01]),
        vec![0x00, 0x00, 0x01]
    );
    assert_eq!(
        strip_emulation_bytes(&[0x01, 0x02, 0x03]),
        vec![0x01, 0x02, 0x03]
    );
    assert_eq!(
        strip_emulation_bytes(&[0x00, 0x00, 0x03, 0x00, 0x00, 0x03]),
        vec![0x00, 0x00, 0x00, 0x00]
    );
}

#[test]
fn test_dedup_consecutive() {
    let mut points = vec![p(1.0, 2.0), p(1.0, 2.0), p(3.0, 4.0), p(3.0, 4.0), p(5.0, 6.0)];
    let mut gears = vec![1, 1, 1, 1, 0];
    let mut ap = vec![0, 0, 1, 1, 0];
    let mut speeds = f32s(&[10.0, 10.0, 20.0, 20.0, 0.0]);
    let mut accel = f32s(&[0.5, 0.5, 0.6, 0.6, 0.0]);
    let mut ax = f32s(&[0.1, -2.5, 0.2, 0.3, 0.0]);
    let mut ay = f32s(&[-0.5, -4.0, 0.1, -0.2, 0.0]);

    dedup_consecutive(
        &mut points,
        &mut gears,
        &mut ap,
        &mut speeds,
        &mut accel,
        &mut ax,
        &mut ay,
    );
    assert_eq!(ax, f32s(&[-2.5, 0.3, 0.0]));
    assert_eq!(ay, f32s(&[-4.0, -0.2, 0.0]));

    assert_eq!(points.len(), 3);
    assert_eq!(points[0], p(1.0, 2.0));
    assert_eq!(points[1], p(3.0, 4.0));
    assert_eq!(points[2], p(5.0, 6.0));
    assert_eq!(gears, vec![1, 1, 0]);
    assert_eq!(ap, vec![0, 1, 0]);
}

#[test]
fn test_compute_gear_runs() {
    let gears = vec![1, 1, 1, 0, 0, 1, 1, 2];
    let runs = compute_gear_runs(&gears);
    assert_eq!(runs.len(), 4);
    assert_eq!(runs[0].gear, 1);
    assert_eq!(runs[0].frames, 3);
    assert_eq!(runs[1].gear, 0);
    assert_eq!(runs[1].frames, 2);
    assert_eq!(runs[2].gear, 1);
    assert_eq!(runs[2].frames, 2);
    assert_eq!(runs[3].gear, 2);
    assert_eq!(runs[3].frames, 1);
}

#[test]
fn test_compute_flag_runs() {
    assert!(compute_flag_runs(&[], None).is_empty());
    let runs = compute_flag_runs(&[0, 0, 3, 3, 3, 1, 0], None);
    assert_eq!(
        runs,
        vec![run(0, 2, None), run(3, 3, None), run(1, 1, None), run(0, 1, None)]
    );
    let flags = [0u8, 8, 8, 4, 0, 0, 3, 3, 2, 1];
    let total: u32 = compute_flag_runs(&flags, None).iter().map(|r| r.frames).sum();
    assert_eq!(total as usize, flags.len());
}

#[test]
fn test_compute_flag_runs_carries_per_run_max_speed() {
    let flags = [0u8, 0, 3, 3, 8, 8, 8];
    let speeds = f32s(&[0.0f32, -1.5, 0.4, 0.26, 2.0, 4.73, 3.1]);
    assert_eq!(
        compute_flag_runs(&flags, Some(&speeds)),
        vec![run(0, 2, Some(1.5)), run(3, 2, Some(0.4)), run(8, 3, Some(4.7))]
    );
}

#[test]
fn test_gear_runs_keep_trailing_park_despite_frozen_gps() {
    let moving = 447;
    let stopped_drive = 53;
    let parked = 53;
    let mut points = Vec::new();
    let mut gears = Vec::new();
    let mut flags = Vec::new();
    for i in 0..moving {
        points.push(p(37.0 + i as f64 * 1e-5, -122.0));
        gears.push(GEAR_DRIVE);
        flags.push(0);
    }
    for _ in 0..(stopped_drive + parked) {
        points.push(p(37.0 + (moving - 1) as f64 * 1e-5, -122.0));
        flags.push(3);
    }
    gears.resize(moving + stopped_drive, GEAR_DRIVE);
    gears.resize(moving + stopped_drive + parked, GEAR_PARK);
    let n = points.len();
    let mut speeds = vec![-2.13f32; moving + stopped_drive];
    speeds.resize(n, 0.0);
    let out = assemble_extracted(RawFrames {
        points,
        gears,
        ap_states: vec![0; n],
        speeds: f32s(&speeds),
        accel_positions: f32s(&vec![0.0; n]),
        flags,
        accel_x: Vec::new(),
        accel_y: Vec::new(),
    });

    assert_eq!(out.raw_frame_count, 553);
    assert_eq!(out.raw_park_count, 53);
    assert_eq!(out.gear_runs.len(), 2);
    assert_eq!(out.gear_runs[0].gear, GEAR_DRIVE);
    assert_eq!(out.gear_runs[0].frames, 500);
    assert_eq!(out.gear_runs[1].gear, GEAR_PARK);
    assert_eq!(out.gear_runs[1].frames, 53);
    let gear_total: u32 = out.gear_runs.iter().map(|r| r.frames).sum();
    assert_eq!(gear_total, out.raw_frame_count);
    let flag_total: u32 = out.flag_runs.iter().map(|r| r.frames).sum();
    assert_eq!(flag_total, out.raw_frame_count);
    assert_eq!(out.flag_runs, vec![run(0, 447, Some(2.1)), run(3, 106, Some(2.1))]);
    assert_eq!(out.points.len(), moving);
    assert_eq!(out.gear_states.len(), moving);
}

fn position(lat: f64, lon: f64) -> Vec<u8> {
    let mut data = vec![0x59];
    data.extend_from_slice(&lat.to_le_bytes());
    data.push(0x61);
    data.extend_from_slice(&lon.to_le_bytes());
    data
}

#[test]
fn test_decode_sei_gps_valid() {
    let mut data = vec![0x10, 0x01];
    data.extend(position(37.7749, -122.4194));

    let result = decode_sei_gps(&data);
    assert!(result.is_some());
    let frame = result.unwrap();
    assert!((g(frame.lat) - 37.7749).abs() < 1e-10);
    assert!((g(frame.lon) - (-122.4194)).abs() < 1e-10);
    assert_eq!(frame.gear, 1);
    assert!(!frame.blinker_left);
    assert!(!frame.blinker_right);
    assert!(!frame.brake);
}

#[test]
fn test_decode_sei_gps_flag_fields() {
    let mut data = vec![0x38, 0x01, 0x40, 0x01, 0x48, 0x01];
    data.extend(position(37.7749, -122.4194));

    let frame = decode_sei_gps(&data).expect("valid frame");
    assert!(frame.blinker_left);
    assert!(frame.blinker_right);
    assert!(frame.brake);
}

#[test]
fn test_decode_sei_gps_null_island() {
    assert!(decode_sei_gps(&position(0.0, 0.0)).is_none());
}

#[test]
fn a_cut_off_field_spoils_the_message() {
    let mut data = position(37.7749, -122.4194);
    data.pop();
    assert!(decode_sei_gps(&data).is_none());
    let mut unknown = position(37.7749, -122.4194);
    unknown.push(0x0B);
    assert!(decode_sei_gps(&unknown).is_none());
}

fn unit(message: &[u8]) -> Vec<u8> {
    let mut nal = vec![0x06, 0x05, 0x20, 0x42, 0x42, 0x42, 0x69];
    nal.extend_from_slice(message);
    nal.push(0x80);
    nal
}

#[test]
fn a_supplemental_unit_holds_a_frame() {
    let nal = unit(&position(37.5, -122.25));
    let frame = parse_tesla_sei(&nal).expect("frame");
    assert_eq!((g(frame.lat), g(frame.lon)), (37.5, -122.25));
    // No marker.
    assert!(parse_tesla_sei(&[0x06, 0x05, 0x20, 0x69, 0x01]).is_none());
    assert!(parse_tesla_sei(&[0x06]).is_none());
}

#[test]
fn frames_collect_flags_and_rounded_positions() {
    let mut message = vec![0x38, 0x01, 0x48, 0x01];
    message.extend(position(37.12345678, -122.5));
    let mut frames = RawFrames::new();
    frames.absorb(&unit(&message));
    frames.absorb(&[0x06, 0x05]);
    assert_eq!(frames.points, vec![p(37.123457, -122.5)]);
    assert_eq!(frames.flags, vec![5]);
    assert_eq!(frames.accel_x.len(), 1);
    let out = assemble_extracted(frames);
    assert_eq!(out.raw_frame_count, 1);
    assert!(out.accel_x.is_empty() && out.accel_y.is_empty());
}

#[test]
fn runs_spell_the_frames_back() {
    let gears = [4u8, 4, 0, 0, 0, 1];
    let mut back = Vec::new();
    for r in compute_gear_runs(&gears) {
        back.extend(vec![r.gear; r.frames as usize]);
    }
    assert_eq!(back, gears.to_vec());
    let flags = [1u8, 1, 2, 1];
    let mut spelled = Vec::new();
    for r in compute_flag_runs(&flags, None) {
        spelled.extend(vec![r.flags; r.frames as usize]);
    }
    assert_eq!(spelled, flags.to_vec());
}

#[test]
fn clean_bytes_stay() {
    let bytes = [1u8, 0, 2, 0, 0, 1, 3];
    assert_eq!(strip_emulation_bytes(&bytes), bytes.to_vec());
}

#[test]
fn the_search_for_media_data() {
    let ftyp = [0, 0, 0, 24, b'f', b't', b'y', b'p'];
    assert!(matches!(box_step(0, 1000, &ftyp, None), BoxStep::Skip { next: 24 }));
    let mdat = [0, 0, 1, 0, b'm', b'd', b'a', b't'];
    assert!(matches!(box_step(24, 1000, &mdat, None), BoxStep::Mdat { offset: 32, size: 248 }));
    // Up to the end of the file.
    let open = [0, 0, 0, 0, b'm', b'd', b'a', b't'];
    assert!(matches!(box_step(24, 1000, &open, None), BoxStep::Mdat { offset: 32, size: 968 }));
    let long = [0, 0, 0, 1, b'm', b'd', b'a', b't'];
    assert!(box_has_long_size(&long) && !box_has_long_size(&mdat));
    let size = read_long_size(&[0, 0, 0, 0, 0, 0, 1, 16]);
    assert_eq!(size, 272);
    assert!(matches!(
        box_step(24, 1000, &long, Some(size)),
        BoxStep::Mdat { offset: 40, size: 256 }
    ));
    let broken = [0, 0, 0, 7, b'm', b'd', b'a', b't'];
    assert!(matches!(box_step(24, 1000, &broken, None), BoxStep::Stop));
}

#[test]
fn units_stay_inside_the_media_data() {
    assert_eq!(unit_length(4, 100, &[0, 0, 0, 96]), Some(96));
    assert_eq!(unit_length(4, 100, &[0, 0, 0, 97]), None);
    assert_eq!(unit_length(4, 100, &[0, 0, 0, 1]), None);
    assert!(unit_is_supplemental(0x06, 100));
    assert!(unit_is_supplemental(0x66, 65_536));
    assert!(!unit_is_supplemental(0x06, 65_537));
    assert!(!unit_is_supplemental(0x05, 100));
}

fn boxed(kind: &[u8; 4], body: &[u8]) -> Vec<u8> {
    let mut out = ((body.len() + 8) as u32).to_be_bytes().to_vec();
    out.extend_from_slice(kind);
    out.extend_from_slice(body);
    out
}

fn with_length(unit: &[u8]) -> Vec<u8> {
    let mut out = (unit.len() as u32).to_be_bytes().to_vec();
    out.extend_from_slice(unit);
    out
}

/// A picture, a frame, a picture, the same frame in Park, a frame elsewhere.
fn media() -> Vec<u8> {
    let mut driving = vec![0x10, 0x01];
    driving.extend(position(37.5, -122.25));
    let parked = position(37.5, -122.25);
    let mut body = with_length(&[0x65, 1, 2, 3, 4, 5]);
    body.extend(with_length(&unit(&driving)));
    body.extend(with_length(&[0x41; 300]));
    body.extend(with_length(&unit(&parked)));
    body.extend(with_length(&unit(&position(38.5, -122.25))));
    body
}

#[test]
fn a_clip_from_its_bytes() {
    let mut file = boxed(b"ftyp", b"mp42....");
    let offset = file.len() as u64 + 8;
    file.extend(boxed(b"mdat", &media()));
    file.extend(boxed(b"moov", b"behind"));
    assert_eq!(find_media(&file), Some((offset, media().len() as u64)));
    let gps = extract_gps_from_bytes(&file);
    assert_eq!(gps.raw_frame_count, 3);
    assert_eq!(gps.raw_park_count, 2);
    assert_eq!(gps.points, vec![p(37.5, -122.25), p(38.5, -122.25)]);
    assert_eq!(gps.gear_states, vec![1, 0]);
    assert_eq!(gps.gear_runs.len(), 2);
}

#[test]
fn a_cut_off_clip_keeps_its_whole_frames() {
    let mut file = boxed(b"mdat", &media());
    file.truncate(file.len() - 5);
    assert_eq!(extract_gps_from_bytes(&file).raw_frame_count, 2);
    file.truncate(20);
    assert_eq!(extract_gps_from_bytes(&file).raw_frame_count, 0);
}

#[test]
fn files_without_media_data_hold_no_frames() {
    assert_eq!(find_media(b""), None);
    assert_eq!(find_media(b"short"), None);
    assert_eq!(find_media(&boxed(b"moov", b"12345678")), None);
    // A box shorter than its own header ends the search.
    let mut broken = vec![0, 0, 0, 4, b'f', b'r', b'e', b'e'];
    broken.extend(boxed(b"mdat", &media()));
    assert_eq!(find_media(&broken), None);
    assert!(extract_gps_from_bytes(&broken).points.is_empty());
}

#[test]
fn long_and_open_boxes() {
    let body = media();
    let mut long = vec![0, 0, 0, 1, b'm', b'd', b'a', b't'];
    long.extend_from_slice(&((body.len() + 16) as u64).to_be_bytes());
    long.extend_from_slice(&body);
    assert_eq!(find_media(&long), Some((16, body.len() as u64)));
    assert_eq!(extract_gps_from_bytes(&long).raw_frame_count, 3);
    let mut open = vec![0, 0, 0, 0, b'm', b'd', b'a', b't'];
    open.extend_from_slice(&body);
    assert_eq!(find_media(&open), Some((8, body.len() as u64)));
    assert_eq!(extract_gps_from_bytes(&open).raw_frame_count, 3);
}

#[test]
fn bytes_behind_the_media_data_do_not_matter() {
    let body = media();
    let frames = collect_frames(&body, 0, body.len() as u64);
    let mut more = body.clone();
    more.extend(with_length(&unit(&position(1.5, 2.5))));
    assert_eq!(collect_frames(&more, 0, body.len() as u64).points, frames.points);
    assert_eq!(collect_frames(&more, 0, more.len() as u64).points.len(), 4);
}
