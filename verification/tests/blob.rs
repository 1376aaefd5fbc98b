use sentryusb_drives::blob::{
    decode_f32s, decode_gear_runs, decode_points, decode_u8s, encode_f32s, encode_gear_runs,
    encode_points, encode_u8s, BlobError, POINT_STRIDE,
};
use sentryusb_drives::float::{F32, F64};
use sentryusb_drives::types::{GearRun, GpsPoint};

fn pts(v: &[[f64; 2]]) -> Vec<GpsPoint> {
    v.iter()
        .map(|p| GpsPoint {
            lat: F64::from_bits(p[0].to_bits()),
            lng: F64::from_bits(p[1].to_bits()),
        })
        .collect()
}

#[test]
fn roundtrip_points() {
    let points = pts(&[[37.7749, -122.4194], [40.7128, -74.0060]]);
    let buf = encode_points(Some(&points)).unwrap();
    assert_eq!(buf.len(), 2 * POINT_STRIDE);
    let back = decode_points(Some(&buf)).unwrap().unwrap();
    assert_eq!(back, points);
}

#[test]
fn roundtrip_empty_points() {
    let points: Vec<GpsPoint> = vec![];
    let buf = encode_points(Some(&points)).unwrap();
    assert_eq!(buf.len(), 0);
    let back = decode_points(Some(&buf)).unwrap().unwrap();
    assert_eq!(back, points);
}

#[test]
fn none_roundtrips_to_none() {
    assert!(encode_points(None).is_none());
    assert!(decode_points(None).unwrap().is_none());
    assert!(encode_f32s(None).is_none());
    assert!(decode_f32s(None).unwrap().is_none());
    assert!(encode_gear_runs(None).is_none());
    assert!(decode_gear_runs(None).unwrap().is_none());
}

#[test]
fn decode_points_rejects_misaligned_input() {
    let buf = vec![0u8; 15];
    assert!(decode_points(Some(&buf)).is_err());
}

#[test]
fn decode_f32s_rejects_misaligned_input() {
    let buf = vec![0u8; 7];
    assert!(decode_f32s(Some(&buf)).is_err());
}

#[test]
fn decode_gear_runs_rejects_misaligned_input() {
    let buf = vec![0u8; 6];
    assert!(decode_gear_runs(Some(&buf)).is_err());
}

#[test]
fn roundtrip_f32s() {
    let s: Vec<F32> = [0.0f32, 1.5, -42.0, f32::INFINITY, f32::NAN]
        .iter()
        .map(|x| F32::from_bits(x.to_bits()))
        .collect();
    let buf = encode_f32s(Some(&s)).unwrap();
    let back = decode_f32s(Some(&buf)).unwrap().unwrap();
    assert_eq!(back.len(), s.len());
    for (a, b) in s.iter().zip(back.iter()) {
        assert_eq!(a.to_bits(), b.to_bits(), "NaN bit pattern must round-trip");
    }
}

#[test]
fn roundtrip_gear_runs() {
    let runs = vec![
        GearRun { gear: 0, frames: 60 },
        GearRun { gear: 4, frames: 1200 },
        GearRun { gear: 2, frames: 30 },
    ];
    let buf = encode_gear_runs(Some(&runs)).unwrap();
    let back = decode_gear_runs(Some(&buf)).unwrap().unwrap();
    assert_eq!(back.len(), runs.len());
    for (a, b) in runs.iter().zip(back.iter()) {
        assert_eq!(a.gear, b.gear);
        assert_eq!(a.frames, b.frames);
    }
}

#[test]
fn go_compat_point_bytes() {
    let points = pts(&[[1.0, 2.0]]);
    let buf = encode_points(Some(&points)).unwrap();
    assert_eq!(
        buf,
        vec![
            0x00, 0x00, 0x00, 0x00, 0x00, 0x00, 0xF0, 0x3F,
            0x00, 0x00, 0x00, 0x00, 0x00, 0x00, 0x00, 0x40,
        ]
    );
}

#[test]
fn gear_run_bytes() {
    let buf = encode_gear_runs(Some(&[GearRun { gear: 4, frames: 0x01020304 }])).unwrap();
    assert_eq!(buf, vec![4, 4, 3, 2, 1]);
}

#[test]
fn f32_bytes() {
    let one = F32::from_bits(1.0f32.to_bits());
    assert_eq!(encode_f32s(Some(&[one])).unwrap(), vec![0x00, 0x00, 0x80, 0x3F]);
}

#[test]
fn bytes_are_stored_as_they_are() {
    assert_eq!(encode_u8s(Some(&[3, 1, 2])), Some(vec![3, 1, 2]));
    assert_eq!(decode_u8s(Some(&[3, 1, 2])), Some(vec![3, 1, 2]));
    assert_eq!(encode_u8s(None), None);
    assert_eq!(decode_u8s(None), None);
}

#[test]
fn whole_blobs_are_written_as_they_were_read() {
    let points: Vec<u8> = (0..48).map(|i| (i * 37 + 200) as u8).collect();
    let read = decode_points(Some(&points)).unwrap().unwrap();
    assert_eq!(read.len(), 3);
    assert_eq!(encode_points(Some(&read)).unwrap(), points);
    // A signalling NaN, minus zero and the largest value keep their bits.
    let floats: Vec<u8> = vec![1, 0, 0x80, 0x7F, 0, 0, 0, 0x80, 0xFF, 0xFF, 0x7F, 0x7F];
    let read = decode_f32s(Some(&floats)).unwrap().unwrap();
    assert_eq!(encode_f32s(Some(&read)).unwrap(), floats);
    let runs: Vec<u8> = vec![0, 1, 2, 3, 4, 255, 255, 255, 255, 255];
    let read = decode_gear_runs(Some(&runs)).unwrap().unwrap();
    assert_eq!(read[0], GearRun { gear: 0, frames: 0x04030201 });
    assert_eq!(encode_gear_runs(Some(&read)).unwrap(), runs);
}

#[test]
fn a_torn_blob_names_its_length() {
    let buf = vec![0u8; 15];
    match decode_points(Some(&buf)) {
        Err(e) => {
            let _: BlobError = e;
            assert!(format!("{:?}", e).contains("15"));
        }
        Ok(_) => panic!("15 bytes are no points"),
    }
}
