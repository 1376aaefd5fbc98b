//! Telemetry frames out of a clip's video stream: MP4 boxes, H.264 units, and
//! the protobuf message that rides in them.

use crate::aggregate::frames_before;
use crate::blob::{get_le, le_value};
use crate::calc::{round1, rounded1};
use crate::float::{
    F32, F64, fabs, fabs32, fdiv, feq, feq32, fle, flt, flt32, fmul, from_int, fround, is_finite,
    is_finite32, narrow, widen, zero,
};
use crate::types::{
    ExtractedGps, FLAG_ACCEL, FLAG_BLINKER_LEFT, FLAG_BLINKER_RIGHT, FLAG_BRAKE, FlagRun,
    GEAR_PARK, GearRun, GpsPoint,
};
use vstd::prelude::*;
use vstd::arithmetic::power2::*;
use vstd::arithmetic::div_mod::*;

verus! {

// ---------------------------------------------------------------------------
// Varints
// ---------------------------------------------------------------------------

/// Length of the varint that opens `s`: up to and with its first byte below
/// 0x80, which must be among the first ten; 0 where there is none.
pub open spec fn varint_len(s: Seq<u8>, from: int) -> int
    decreases s.len() - from,
{
    if from < 0 || from >= s.len() || from >= 10 {
        0
    } else if s[from] < 0x80 {
        from + 1
    } else {
        varint_len(s, from + 1)
    }
}

/// The number that groups of seven bits spell, least significant first.
pub open spec fn groups_value(s: Seq<u8>) -> nat
    decreases s.len(),
{
    if s.len() == 0 {
        0
    } else {
        (s[0] % 128) as nat + 128 * groups_value(s.skip(1))
    }
}

/// Value and length of the varint that opens `s`; both 0 where there is none.
pub open spec fn varint(s: Seq<u8>) -> (u64, int) {
    let n = varint_len(s, 0);
    if n > 0 {
        ((groups_value(s.take(n)) % 0x1_0000_0000_0000_0000) as u64, n)
    } else {
        (0, 0)
    }
}

proof fn lemma_groups_push(s: Seq<u8>, b: u8)
    ensures
        groups_value(s.push(b)) == groups_value(s) + (b % 128) as nat * pow2(7 * s.len()),
        groups_value(s) < pow2(7 * s.len()),
    decreases s.len(),
{
    lemma2_to64();
    if s.len() == 0 {
        assert(s.push(b).skip(1) =~= Seq::<u8>::empty());
        assert(groups_value(s.push(b).skip(1)) == 0);
        assert(7 * s.len() == 0);
        assert((b % 128) as nat * pow2(0) == (b % 128) as nat) by (nonlinear_arith)
            requires
                pow2(0) == 1,
        ;
    } else {
        let t = s.skip(1);
        lemma_groups_push(t, b);
        assert(s.push(b).skip(1) =~= t.push(b));
        lemma_pow2_adds(7, 7 * t.len());
        assert(7 + 7 * t.len() == 7 * s.len());
        assert(s.push(b)[0] == s[0]);
        assert(128 * ((b % 128) as nat * pow2(7 * t.len())) == (b % 128) as nat * (128 * pow2(
            7 * t.len(),
        ))) by (nonlinear_arith);
    }
}

proof fn lemma_varint_bounds(s: Seq<u8>, from: int)
    requires
        0 <= from,
    ensures
        varint_len(s, from) == 0 || from < varint_len(s, from) <= s.len(),
        varint_len(s, from) <= 10,
    decreases s.len() - from,
{
    if from < s.len() && from < 10 && s[from] >= 0x80 {
        lemma_varint_bounds(s, from + 1);
    }
}

/// Reads a varint: its value and how many bytes it takes.
pub fn decode_varint(data: &[u8]) -> (r: (u64, usize))
    ensures
        r.0 == varint(data@).0,
        r.1 == varint(data@).1,
{
    let mut val: u128 = 0;
    let mut scale: u128 = 1;
    let mut i: usize = 0;
    proof {
        lemma2_to64();
        lemma2_to64_rest();
        lemma_pow2_adds(63, 7);
        assert(data@.take(0) =~= Seq::<u8>::empty());
    }
    while i < data.len()
        invariant
            i <= data.len(),
            i <= 10,
            val == groups_value(data@.take(i as int)),
            scale == pow2(7 * i as nat),
            pow2(70) == 0x40_0000_0000_0000_0000,
            varint_len(data@, 0) == varint_len(data@, i as int),
        decreases data.len() - i,
    {
        if i >= 10 {
            return (0, 0);
        }
        let b: u8 = data[i];
        proof {
            let t = data@.take(i as int);
            lemma_groups_push(t, b);
            assert(data@.take(i as int + 1) =~= t.push(b));
            lemma_pow2_adds(7, 7 * i as nat);
            lemma2_to64();
            if 7 * i + 7 < 70 {
                lemma_pow2_strictly_increases(7 * i as nat + 7, 70);
            }
            lemma_groups_push(t.push(b), 0);
            assert((b % 128) as nat * scale <= 127 * scale) by (nonlinear_arith)
                requires
                    b % 128 <= 127,
            ;
        }
        val = val + ((b % 128) as u128) * scale;
        if b < 0x80 {
            return ((val % 0x1_0000_0000_0000_0000) as u64, i + 1);
        }
        scale = scale * 128;
        i = i + 1;
    }
    (0, 0)
}

// ---------------------------------------------------------------------------
// Emulation prevention
// ---------------------------------------------------------------------------

/// Zero bytes that end the first `n` bytes of `s`, counted since the last byte
/// that was dropped.
pub open spec fn zeros_before(s: Seq<u8>, n: int) -> int
    decreases n, 0int,
{
    if n <= 0 || emulation_at(s, n - 1) || s[n - 1] != 0 {
        0
    } else {
        zeros_before(s, n - 1) + 1
    }
}

/// Byte `i` is an emulation prevention byte: a 3 behind two zeros.
pub open spec fn emulation_at(s: Seq<u8>, i: int) -> bool
    decreases i, 1int,
{
    0 <= i && zeros_before(s, i) >= 2 && s[i] == 3
}

/// The first `n` bytes of `s` without emulation prevention bytes.
pub open spec fn stripped(s: Seq<u8>, n: int) -> Seq<u8>
    decreases n,
{
    if n <= 0 {
        Seq::empty()
    } else if emulation_at(s, n - 1) {
        stripped(s, n - 1)
    } else {
        stripped(s, n - 1).push(s[n - 1])
    }
}

/// Removes H.264 emulation prevention bytes.
pub fn strip_emulation_bytes(data: &[u8]) -> (out: Vec<u8>)
    ensures
        out@ == stripped(data@, data@.len() as int),
{
    let mut out: Vec<u8> = Vec::new();
    let mut zeros: usize = 0;
    let mut i: usize = 0;
    while i < data.len()
        invariant
            i <= data.len(),
            zeros <= i,
            zeros == zeros_before(data@, i as int),
            out@ == stripped(data@, i as int),
        decreases data.len() - i,
    {
        let b: u8 = data[i];
        proof {
            reveal_with_fuel(zeros_before, 2);
            reveal_with_fuel(emulation_at, 2);
            assert(emulation_at(data@, i as int) == (zeros >= 2 && b == 3));
        }
        if zeros >= 2 && b == 3 {
            zeros = 0;
        } else {
            out.push(b);
            if b == 0 {
                zeros = zeros + 1;
            } else {
                zeros = 0;
            }
        }
        i = i + 1;
    }
    out
}

// ---------------------------------------------------------------------------
// The message
// ---------------------------------------------------------------------------

/// One decoded frame.
#[derive(Clone, Copy, Debug)]
pub struct SeiFrame {
    pub lat: F64,
    pub lon: F64,
    pub gear: u8,
    pub ap_state: u8,
    pub speed: F32,
    pub accel_pos: F32,
    pub blinker_left: bool,
    pub blinker_right: bool,
    pub brake: bool,
    /// Lateral acceleration.
    pub accel_x: F32,
    /// Longitudinal acceleration.
    pub accel_y: F32,
}

/// A frame with every field absent, which reads as zero or off.
pub open spec fn blank_frame() -> SeiFrame {
    SeiFrame {
        lat: zero(),
        lon: zero(),
        gear: 0,
        ap_state: 0,
        speed: F32 { bits: 0 },
        accel_pos: F32 { bits: 0 },
        blinker_left: false,
        blinker_right: false,
        brake: false,
        accel_x: F32 { bits: 0 },
        accel_y: F32 { bits: 0 },
    }
}

/// A varint field: gear, blinkers, brake, autopilot.
pub open spec fn with_varint(f: SeiFrame, field: u64, val: u64) -> SeiFrame {
    if field == 2 {
        SeiFrame { gear: (val % 256) as u8, ..f }
    } else if field == 7 {
        SeiFrame { blinker_left: val != 0, ..f }
    } else if field == 8 {
        SeiFrame { blinker_right: val != 0, ..f }
    } else if field == 9 {
        SeiFrame { brake: val != 0, ..f }
    } else if field == 10 {
        SeiFrame { ap_state: (val % 256) as u8, ..f }
    } else {
        f
    }
}

/// A 64-bit field: latitude, longitude, accelerations.
pub open spec fn with_double(f: SeiFrame, field: u64, val: F64) -> SeiFrame {
    if field == 11 {
        SeiFrame { lat: val, ..f }
    } else if field == 12 {
        SeiFrame { lon: val, ..f }
    } else if field == 14 {
        SeiFrame { accel_x: narrow(val), ..f }
    } else if field == 15 {
        SeiFrame { accel_y: narrow(val), ..f }
    } else {
        f
    }
}

/// A 32-bit field: speed, pedal.
pub open spec fn with_single(f: SeiFrame, field: u64, val: F32) -> SeiFrame {
    if field == 4 {
        SeiFrame { speed: val, ..f }
    } else if field == 5 {
        SeiFrame { accel_pos: val, ..f }
    } else {
        f
    }
}

/// What one field does to the reading of a message.
pub enum FieldStep {
    /// The message ends, or is no message.
    Done(Option<SeiFrame>),
    /// Reading goes on at a byte.
    Next(int, SeiFrame),
}

/// The field at byte `i`. A field that is cut off or has an unknown wire type
/// spoils the message. A skipped field may run past the end, which ends the
/// message, and so does a tag that is no varint.
pub open spec fn field_step(data: Seq<u8>, i: int, f: SeiFrame) -> FieldStep {
    let (tag, t) = varint(data.skip(i));
    let j = i + t;
    let (val, n) = varint(data.skip(j));
    let field = tag / 8;
    let wire = tag % 8;
    if i >= data.len() || t <= 0 {
        FieldStep::Done(Some(f))
    } else if wire == 0 && n > 0 {
        FieldStep::Next(j + n, with_varint(f, field, val))
    } else if wire == 1 && j + 8 <= data.len() {
        FieldStep::Next(
            j + 8,
            with_double(f, field, F64 { bits: le_value(data.subrange(j, j + 8)) as u64 }),
        )
    } else if wire == 2 && n > 0 {
        FieldStep::Next(j + n + val, f)
    } else if wire == 5 && j + 4 <= data.len() {
        FieldStep::Next(
            j + 4,
            with_single(f, field, F32 { bits: le_value(data.subrange(j, j + 4)) as u32 }),
        )
    } else {
        FieldStep::Done(None)
    }
}

/// The frame after the fields from byte `i` on, the last of each winning.
pub open spec fn read_fields(data: Seq<u8>, i: int, f: SeiFrame) -> Option<SeiFrame>
    decreases
            if i < data.len() {
                data.len() - i
            } else {
                0
            },
{
    match field_step(data, i, f) {
        FieldStep::Done(r) => r,
        FieldStep::Next(j, g) => read_fields(data, j, g),
    }
}

/// The position of a frame is on Earth and is a fix.
pub open spec fn plausible(f: SeiFrame) -> bool {
    &&& is_finite(f.lat)
    &&& is_finite(f.lon)
    &&& !(feq(f.lat, zero()) && feq(f.lon, zero()))
    &&& fle(fabs(f.lat), from_int(90))
    &&& fle(fabs(f.lon), from_int(180))
}

/// An acceleration that is no number counts as none.
pub open spec fn cleaned(v: F32) -> F32 {
    if is_finite32(v) {
        v
    } else {
        F32 { bits: 0 }
    }
}

/// The frame that a message holds.
pub open spec fn message_frame(data: Seq<u8>) -> Option<SeiFrame> {
    match read_fields(data, 0, blank_frame()) {
        Some(f) if plausible(f) => Some(
            SeiFrame { accel_x: cleaned(f.accel_x), accel_y: cleaned(f.accel_y), ..f },
        ),
        _ => None,
    }
}

fn varint_at(data: &[u8], i: usize) -> (r: (u64, usize))
    requires
        i <= data.len(),
    ensures
        r.0 == varint(data@.skip(i as int)).0,
        r.1 == varint(data@.skip(i as int)).1,
        i + r.1 <= data.len(),
{
    proof {
        lemma_varint_bounds(data@.skip(i as int), 0);
        assert(data@.subrange(i as int, data@.len() as int) =~= data@.skip(i as int));
    }
    decode_varint(vstd::slice::slice_subrange(data, i, data.len()))
}

fn low_byte(v: u64) -> (b: u8)
    ensures
        b == (v % 256) as u8,
{
    (v % 256) as u8
}

/// The field at byte `i`, with the byte that follows it held at the end.
fn one_field(data: &[u8], i: usize, f0: SeiFrame) -> (r: Result<(usize, SeiFrame), Option<SeiFrame>>)
    requires
        i <= data.len(),
    ensures
        match (r, field_step(data@, i as int, f0)) {
            (Err(x), FieldStep::Done(y)) => x == y,
            (Ok(p), FieldStep::Next(j, g)) => p.1 == g && i < p.0 <= data.len() && p.0 == (if j
                > data.len() {
                data.len() as int
            } else {
                j
            }),
            _ => false,
        },
{
    let mut f: SeiFrame = f0;
    if i == data.len() {
        return Err(Some(f));
    }
    let (tag, n) = varint_at(data, i);
    if n == 0 {
        return Err(Some(f));
    }
    let j: usize = i + n;
    let field: u64 = tag / 8;
    let wire: u64 = tag % 8;
    if wire == 0 {
        let (val, m) = varint_at(data, j);
        if m == 0 {
            return Err(None);
        }
        if field == 2 {
            f.gear = low_byte(val);
        } else if field == 7 {
            f.blinker_left = val != 0;
        } else if field == 8 {
            f.blinker_right = val != 0;
        } else if field == 9 {
            f.brake = val != 0;
        } else if field == 10 {
            f.ap_state = low_byte(val);
        }
        Ok((j + m, f))
    } else if wire == 1 {
        if data.len() - j < 8 {
            return Err(None);
        }
        let val: F64 = F64::from_bits(get_le(data, j, 8));
        if field == 11 {
            f.lat = val;
        } else if field == 12 {
            f.lon = val;
        } else if field == 14 {
            f.accel_x = val.to_f32();
        } else if field == 15 {
            f.accel_y = val.to_f32();
        }
        Ok((j + 8, f))
    } else if wire == 2 {
        let (length, m) = varint_at(data, j);
        if m == 0 {
            return Err(None);
        }
        let rest: usize = data.len() - j - m;
        if length > rest as u64 {
            return Ok((data.len(), f));
        }
        Ok((j + m + length as usize, f))
    } else if wire == 5 {
        if data.len() - j < 4 {
            return Err(None);
        }
        let val: F32 = F32::from_bits(get_le(data, j, 4) as u32);
        if field == 4 {
            f.speed = val;
        } else if field == 5 {
            f.accel_pos = val;
        }
        Ok((j + 4, f))
    } else {
        Err(None)
    }
}

fn all_fields(data: &[u8]) -> (r: Option<SeiFrame>)
    ensures
        r == read_fields(data@, 0, blank_frame()),
{
    let mut f: SeiFrame = SeiFrame {
        lat: F64::from_bits(0),
        lon: F64::from_bits(0),
        gear: 0,
        ap_state: 0,
        speed: F32::from_bits(0),
        accel_pos: F32::from_bits(0),
        blinker_left: false,
        blinker_right: false,
        brake: false,
        accel_x: F32::from_bits(0),
        accel_y: F32::from_bits(0),
    };
    let mut i: usize = 0;
    loop
        invariant
            i <= data.len(),
            read_fields(data@, 0, blank_frame()) == read_fields(data@, i as int, f),
        decreases data.len() - i,
    {
        match one_field(data, i, f) {
            Err(r) => {
                return r;
            },
            Ok(p) => {
                proof {
                    // Past the end and at the end, reading stops alike.
                    let j = field_step(data@, i as int, f)->Next_0;
                    if j > data@.len() {
                        assert(read_fields(data@, j, p.1) == Some(p.1));
                        assert(read_fields(data@, data@.len() as int, p.1) == Some(p.1));
                    }
                }
                i = p.0;
                f = p.1;
            },
        }
    }
}

/// Decodes the telemetry message: position, gear, autopilot, speed, pedal,
/// blinkers, brake and accelerations.
pub fn decode_sei_gps(data: &[u8]) -> (r: Option<SeiFrame>)
    ensures
        r == message_frame(data@),
{
    let f: SeiFrame = match all_fields(data) {
        Some(f) => f,
        None => {
            return None;
        },
    };
    let z: F64 = F64::from_bits(0);
    if f.lat.finite() && f.lon.finite() && !(f.lat.same(z) && f.lon.same(z)) && f.lat.abs().le(
        F64::of_u64(90),
    ) && f.lon.abs().le(F64::of_u64(180)) {
        let mut g: SeiFrame = f;
        if !f.accel_x.finite() {
            g.accel_x = F32::from_bits(0);
        }
        if !f.accel_y.finite() {
            g.accel_y = F32::from_bits(0);
        }
        Some(g)
    } else {
        None
    }
}

// ---------------------------------------------------------------------------
// The unit around the message
// ---------------------------------------------------------------------------

/// End of the run of 0x42 bytes from `i` on.
pub open spec fn marker_end(nal: Seq<u8>, i: int) -> int
    decreases nal.len() - i,
{
    if 0 <= i < nal.len() && nal[i] == 0x42 {
        marker_end(nal, i + 1)
    } else {
        i
    }
}

/// The message in a supplemental unit: behind three bytes of header, at least one
/// 0x42 and a 0x69, up to the byte before the last.
pub open spec fn unit_message(nal: Seq<u8>) -> Option<Seq<u8>> {
    let i = marker_end(nal, 3);
    if i <= 3 || i + 1 >= nal.len() || nal[i] != 0x69 {
        None
    } else {
        let body = nal.skip(i + 1);
        Some(
            if body.len() > 1 {
                body.drop_last()
            } else {
                body
            },
        )
    }
}

/// The frame in a supplemental unit.
pub open spec fn unit_frame(nal: Seq<u8>) -> Option<SeiFrame> {
    match unit_message(nal) {
        Some(m) => message_frame(stripped(m, m.len() as int)),
        None => None,
    }
}

/// Finds the vendor's message in a supplemental unit and decodes it.
pub fn parse_tesla_sei(nal: &[u8]) -> (r: Option<SeiFrame>)
    ensures
        r == unit_frame(nal@),
{
    let mut i: usize = 3;
    while i < nal.len() && nal[i] == 0x42
        invariant
            i >= 3,
            i <= nal.len() || i == 3,
            marker_end(nal@, 3) == marker_end(nal@, i as int),
        decreases nal.len() - i,
    {
        i = i + 1;
    }
    if i <= 3 || i >= nal.len() || i + 1 >= nal.len() || nal[i] != 0x69 {
        return None;
    }
    let from: usize = i + 1;
    let to: usize = if nal.len() - from > 1 {
        nal.len() - 1
    } else {
        nal.len()
    };
    let body: &[u8] = vstd::slice::slice_subrange(nal, from, to);
    proof {
        assert(unit_message(nal@) is Some);
        assert(body@ =~= unit_message(nal@)->0);
    }
    let clean: Vec<u8> = strip_emulation_bytes(body);
    decode_sei_gps(&clean)
}

// ---------------------------------------------------------------------------
// Runs
// ---------------------------------------------------------------------------

/// `n` copies of `b`.
pub open spec fn repeated(b: u8, n: nat) -> Seq<u8> {
    Seq::new(n, |i: int| b)
}

/// The gear of every frame that runs cover, in order.
pub open spec fn gears_of(runs: Seq<GearRun>) -> Seq<u8>
    decreases runs.len(),
{
    if runs.len() == 0 {
        Seq::empty()
    } else {
        gears_of(runs.drop_last()) + repeated(runs.last().gear, runs.last().frames as nat)
    }
}

/// No run is empty and no run continues the one before it.
pub open spec fn maximal_gear_runs(runs: Seq<GearRun>) -> bool {
    &&& forall|i: int| 0 <= i < runs.len() ==> (#[trigger] runs[i]).frames > 0
    &&& forall|i: int| 1 <= i < runs.len() ==> runs[i - 1].gear != (#[trigger] runs[i]).gear
}

/// Runs of frames in one gear. They spell the frames out, and each is as long as
/// it can be.
pub fn compute_gear_runs(gears: &[u8]) -> (runs: Vec<GearRun>)
    requires
        gears@.len() <= u32::MAX,
    ensures
        gears_of(runs@) == gears@,
        maximal_gear_runs(runs@),
{
    let mut runs: Vec<GearRun> = Vec::new();
    if gears.len() == 0 {
        proof {
            assert(gears_of(runs@) =~= gears@);
        }
        return runs;
    }
    let mut gear: u8 = gears[0];
    let mut count: u32 = 1;
    let mut i: usize = 1;
    proof {
        assert(gears_of(runs@) + repeated(gear, 1) =~= gears@.take(1));
    }
    while i < gears.len()
        invariant
            1 <= i <= gears.len(),
            gears@.len() <= u32::MAX,
            1 <= count <= i,
            gears_of(runs@) + repeated(gear, count as nat) =~= gears@.take(i as int),
            maximal_gear_runs(runs@),
            runs@.len() > 0 ==> runs@.last().gear != gear,
        decreases gears.len() - i,
    {
        let g: u8 = gears[i];
        let ghost before = gears_of(runs@) + repeated(gear, count as nat);
        proof {
            assert(gears@.take(i as int + 1) =~= gears@.take(i as int).push(g));
        }
        if g == gear {
            proof {
                assert(gears_of(runs@) + repeated(gear, (count + 1) as nat) =~= before.push(g));
            }
            count = count + 1;
        } else {
            let run: GearRun = GearRun { gear, frames: count };
            let ghost old_runs = runs@;
            runs.push(run);
            proof {
                assert(runs@.drop_last() =~= old_runs);
                assert(gears_of(runs@) == before);
                assert(before + repeated(g, 1) =~= before.push(g));
            }
            gear = g;
            count = 1;
        }
        i = i + 1;
    }
    let ghost old_runs = runs@;
    runs.push(GearRun { gear, frames: count });
    proof {
        assert(runs@.drop_last() =~= old_runs);
        assert(gears@.take(gears@.len() as int) =~= gears@);
    }
    runs
}

/// Runs of one frame sequence add up to its length.
pub proof fn law_gear_runs_cover_every_frame(runs: Seq<GearRun>)
    ensures
        gears_of(runs).len() == frames_before(runs, runs.len() as int),
    decreases runs.len(),
{
    if runs.len() > 0 {
        let head = runs.drop_last();
        law_gear_runs_cover_every_frame(head);
        lemma_frames_prefix(runs, head, head.len() as int);
    }
}

proof fn lemma_frames_prefix(a: Seq<GearRun>, b: Seq<GearRun>, n: int)
    requires
        0 <= n <= a.len(),
        n <= b.len(),
        forall|i: int| 0 <= i < n ==> a[i] == b[i],
    ensures
        frames_before(a, n) == frames_before(b, n),
    decreases n,
{
    if n > 0 {
        lemma_frames_prefix(a, b, n - 1);
    }
}

/// The runs of a frame sequence are determined by it: two lists of maximal runs
/// that spell the same frames are the same list.
pub proof fn law_gear_runs_are_unique(a: Seq<GearRun>, b: Seq<GearRun>)
    requires
        maximal_gear_runs(a),
        maximal_gear_runs(b),
        gears_of(a) == gears_of(b),
    ensures
        a == b,
    decreases a.len(),
{
    let s = gears_of(a);
    if a.len() == 0 {
        if b.len() > 0 {
            assert(gears_of(b).len() >= b.last().frames);
        }
        assert(a =~= b);
    } else if b.len() == 0 {
        assert(gears_of(a).len() >= a.last().frames);
    } else {
        let x = a.last();
        let y = b.last();
        let ah = a.drop_last();
        let bh = b.drop_last();
        assert(s[s.len() - 1] == x.gear);
        assert(s[s.len() - 1] == y.gear);
        lemma_last_gear(ah);
        lemma_last_gear(bh);
        if x.frames < y.frames {
            let k = s.len() - x.frames - 1;
            assert(s[k] == y.gear);
            assert(ah.len() > 0) by {
                if ah.len() == 0 {
                    assert(gears_of(ah).len() == 0);
                }
            }
            assert(a[a.len() - 2].gear != a[a.len() - 1].gear);
            assert(s[k] == gears_of(ah)[gears_of(ah).len() - 1]);
        } else if y.frames < x.frames {
            let k = s.len() - y.frames - 1;
            assert(s[k] == x.gear);
            assert(bh.len() > 0) by {
                if bh.len() == 0 {
                    assert(gears_of(bh).len() == 0);
                }
            }
            assert(b[b.len() - 2].gear != b[b.len() - 1].gear);
            assert(s[k] == gears_of(bh)[gears_of(bh).len() - 1]);
        }
        assert(gears_of(ah) =~= s.take(s.len() - x.frames));
        assert(gears_of(bh) =~= s.take(s.len() - y.frames));
        assert(maximal_gear_runs(ah)) by {
            assert forall|i: int| 0 <= i < ah.len() implies (#[trigger] ah[i]).frames > 0 by {
                assert(ah[i] == a[i]);
            }
            assert forall|i: int| 1 <= i < ah.len() implies ah[i - 1].gear != (
            #[trigger] ah[i]).gear by {
                assert(ah[i] == a[i]);
            }
        }
        assert(maximal_gear_runs(bh)) by {
            assert forall|i: int| 0 <= i < bh.len() implies (#[trigger] bh[i]).frames > 0 by {
                assert(bh[i] == b[i]);
            }
            assert forall|i: int| 1 <= i < bh.len() implies bh[i - 1].gear != (
            #[trigger] bh[i]).gear by {
                assert(bh[i] == b[i]);
            }
        }
        law_gear_runs_are_unique(ah, bh);
        assert(a =~= ah.push(x));
        assert(b =~= bh.push(y));
    }
}

proof fn lemma_last_gear(runs: Seq<GearRun>)
    requires
        runs.len() > 0 ==> runs.last().frames > 0,
    ensures
        runs.len() > 0 ==> gears_of(runs).len() > 0 && gears_of(runs).last() == runs.last().gear,
{
}

/// The flag byte of every frame that runs cover, in order.
pub open spec fn flags_of(runs: Seq<FlagRun>) -> Seq<u8>
    decreases runs.len(),
{
    if runs.len() == 0 {
        Seq::empty()
    } else {
        flags_of(runs.drop_last()) + repeated(runs.last().flags, runs.last().frames as nat)
    }
}

/// Frames of the first `n` runs.
pub open spec fn flag_frames_before(runs: Seq<FlagRun>, n: int) -> int
    decreases n,
{
    if n <= 0 {
        0
    } else {
        flag_frames_before(runs, n - 1) + runs[n - 1].frames
    }
}

/// No run is empty and no run continues the one before it.
pub open spec fn maximal_flag_runs(runs: Seq<FlagRun>) -> bool {
    &&& forall|i: int| 0 <= i < runs.len() ==> (#[trigger] runs[i]).frames > 0
    &&& forall|i: int| 1 <= i < runs.len() ==> runs[i - 1].flags != (#[trigger] runs[i]).flags
}

/// Speed magnitude at frame `i`; zero where none was recorded.
pub open spec fn frame_speed(speeds: Seq<F32>, i: int) -> F64 {
    if 0 <= i < speeds.len() {
        fabs(widen(speeds[i]))
    } else {
        zero()
    }
}

/// The greatest speed magnitude of the frames `lo <= i < hi`.
pub open spec fn frame_peak(speeds: Seq<F32>, lo: int, hi: int) -> F64
    decreases hi - lo,
{
    if hi <= lo + 1 {
        frame_speed(speeds, lo)
    } else if flt(frame_peak(speeds, lo, hi - 1), frame_speed(speeds, hi - 1)) {
        frame_speed(speeds, hi - 1)
    } else {
        frame_peak(speeds, lo, hi - 1)
    }
}

/// Run `i` carries the greatest speed magnitude of its own frames, to one
/// decimal, where speeds were recorded at all.
pub open spec fn run_peak(runs: Seq<FlagRun>, speeds: Option<Seq<F32>>, i: int) -> Option<F64> {
    match speeds {
        Some(s) => Some(
            rounded1(frame_peak(s, flag_frames_before(runs, i), flag_frames_before(runs, i + 1))),
        ),
        None => None,
    }
}

pub open spec fn view_of(s: Option<&[F32]>) -> Option<Seq<F32>> {
    match s {
        Some(v) => Some(v@),
        None => None,
    }
}

fn speed_of(speeds: Option<&[F32]>, i: usize) -> (v: F64)
    ensures
        speeds matches Some(s) ==> v == frame_speed(s@, i as int),
{
    match speeds {
        Some(s) => {
            if i < s.len() {
                s[i].to_f64().abs()
            } else {
                F64::from_bits(0)
            }
        },
        None => F64::from_bits(0),
    }
}

fn peak_of(speeds: Option<&[F32]>, peak: F64) -> (m: Option<F64>)
    ensures
        m == match speeds {
            Some(_) => Some(rounded1(peak)),
            None => None,
        },
{
    match speeds {
        Some(_) => Some(round1(peak)),
        None => None,
    }
}

proof fn lemma_flag_frames_prefix(a: Seq<FlagRun>, b: Seq<FlagRun>, n: int)
    requires
        0 <= n <= a.len(),
        n <= b.len(),
        forall|i: int| 0 <= i < n ==> a[i] == b[i],
    ensures
        flag_frames_before(a, n) == flag_frames_before(b, n),
    decreases n,
{
    if n > 0 {
        lemma_flag_frames_prefix(a, b, n - 1);
    }
}

proof fn lemma_flag_push(runs: Seq<FlagRun>, speeds: Option<Seq<F32>>, x: FlagRun, i: int)
    requires
        0 <= i <= runs.len(),
    ensures
        i < runs.len() ==> run_peak(runs.push(x), speeds, i) == run_peak(runs, speeds, i),
        flag_frames_before(runs.push(x), i) == flag_frames_before(runs, i),
        flags_of(runs.push(x)) == flags_of(runs) + repeated(x.flags, x.frames as nat),
{
    let p = runs.push(x);
    lemma_flag_frames_prefix(p, runs, i);
    if i < runs.len() {
        lemma_flag_frames_prefix(p, runs, i + 1);
    }
    assert(p.drop_last() =~= runs);
}

/// Runs of frames with one flag byte, over raw frames, each with the greatest
/// speed magnitude within it where `speeds` are given.
pub fn compute_flag_runs(flags: &[u8], speeds: Option<&[F32]>) -> (runs: Vec<FlagRun>)
    requires
        flags@.len() <= u32::MAX,
    ensures
        flags_of(runs@) == flags@,
        maximal_flag_runs(runs@),
        forall|i: int|
            0 <= i < runs@.len() ==> (#[trigger] runs@[i]).max_mps == run_peak(
                runs@,
                view_of(speeds),
                i,
            ),
{
    let mut runs: Vec<FlagRun> = Vec::new();
    if flags.len() == 0 {
        proof {
            assert(flags_of(runs@) =~= flags@);
        }
        return runs;
    }
    let ghost sv = view_of(speeds);
    let mut current: u8 = flags[0];
    let mut count: u32 = 1;
    let mut peak: F64 = speed_of(speeds, 0);
    let mut i: usize = 1;
    proof {
        assert(flags_of(runs@) + repeated(current, 1) =~= flags@.take(1));
    }
    while i < flags.len()
        invariant
            1 <= i <= flags.len(),
            flags@.len() <= u32::MAX,
            1 <= count <= i,
            sv == view_of(speeds),
            flags_of(runs@) + repeated(current, count as nat) =~= flags@.take(i as int),
            flag_frames_before(runs@, runs@.len() as int) == i - count,
            sv matches Some(s) ==> peak == frame_peak(s, i - count, i as int),
            maximal_flag_runs(runs@),
            runs@.len() > 0 ==> runs@.last().flags != current,
            forall|k: int|
                0 <= k < runs@.len() ==> (#[trigger] runs@[k]).max_mps == run_peak(runs@, sv, k),
        decreases flags.len() - i,
    {
        let f: u8 = flags[i];
        let ghost before = flags_of(runs@) + repeated(current, count as nat);
        proof {
            assert(flags@.take(i as int + 1) =~= flags@.take(i as int).push(f));
        }
        let here: F64 = speed_of(speeds, i);
        if f == current {
            proof {
                assert(flags_of(runs@) + repeated(current, (count + 1) as nat) =~= before.push(f));
            }
            count = count + 1;
            if peak.lt(here) {
                peak = here;
            }
        } else {
            let run: FlagRun = FlagRun {
                flags: current,
                frames: count,
                max_mps: peak_of(speeds, peak),
            };
            let ghost old_runs = runs@;
            runs.push(run);
            proof {
                assert(before + repeated(f, 1) =~= before.push(f));
                lemma_flag_push(old_runs, sv, run, old_runs.len() as int);
                assert forall|k: int| 0 <= k < runs@.len() implies (#[trigger] runs@[k]).max_mps
                    == run_peak(runs@, sv, k) by {
                    if k < old_runs.len() {
                        lemma_flag_push(old_runs, sv, run, k);
                    }
                }
            }
            current = f;
            count = 1;
            peak = here;
        }
        i = i + 1;
    }
    let run: FlagRun = FlagRun { flags: current, frames: count, max_mps: peak_of(speeds, peak) };
    let ghost old_runs = runs@;
    runs.push(run);
    proof {
        assert(flags@.take(flags@.len() as int) =~= flags@);
        lemma_flag_push(old_runs, sv, run, old_runs.len() as int);
        assert forall|k: int| 0 <= k < runs@.len() implies (#[trigger] runs@[k]).max_mps
            == run_peak(runs@, sv, k) by {
            if k < old_runs.len() {
                lemma_flag_push(old_runs, sv, run, k);
            }
        }
    }
    runs
}

/// Runs of one frame sequence add up to its length.
pub proof fn law_flag_runs_cover_every_frame(runs: Seq<FlagRun>)
    ensures
        flags_of(runs).len() == flag_frames_before(runs, runs.len() as int),
    decreases runs.len(),
{
    if runs.len() > 0 {
        let head = runs.drop_last();
        law_flag_runs_cover_every_frame(head);
        lemma_flag_frames_prefix(runs, head, head.len() as int);
    }
}

// ---------------------------------------------------------------------------
// Standing points
// ---------------------------------------------------------------------------

/// Two fixes at one place.
pub open spec fn same_place(a: GpsPoint, b: GpsPoint) -> bool {
    feq(a.lat, b.lat) && feq(a.lng, b.lng)
}

/// Which of the first `n` points stay: those at another place than the last one
/// that stayed.
pub open spec fn moved(points: Seq<GpsPoint>, n: int) -> Seq<int>
    decreases n,
{
    if n <= 0 {
        Seq::empty()
    } else if n > 1 && same_place(points[n - 1], points[moved(points, n - 1).last()]) {
        moved(points, n - 1)
    } else {
        moved(points, n - 1).push(n - 1)
    }
}

/// `s` at the positions `at`.
pub open spec fn picked<T>(s: Seq<T>, at: Seq<int>) -> Seq<T> {
    Seq::new(at.len(), |i: int| s[at[i]])
}

/// The sample of greatest magnitude among `lo <= i < hi`, the first of equals.
pub open spec fn strongest(s: Seq<F32>, lo: int, hi: int) -> F32
    decreases hi - lo,
{
    if hi <= lo + 1 {
        s[lo]
    } else {
        let p = strongest(s, lo, hi - 1);
        if flt32(fabs32(p), fabs32(s[hi - 1])) {
            s[hi - 1]
        } else {
            p
        }
    }
}

/// Where the stretch that begins at kept point `i` ends.
pub open spec fn stretch_end(at: Seq<int>, i: int, n: int) -> int {
    if i + 1 < at.len() {
        at[i + 1]
    } else {
        n
    }
}

/// The strongest sample of every stretch.
pub open spec fn stretch_peaks(s: Seq<F32>, at: Seq<int>, n: int) -> Seq<F32> {
    Seq::new(at.len(), |i: int| strongest(s, at[i], stretch_end(at, i, n)))
}

proof fn lemma_moved(points: Seq<GpsPoint>, n: int)
    requires
        0 <= n <= points.len(),
    ensures
        n > 0 ==> moved(points, n).len() > 0,
        moved(points, n).len() <= n,
        forall|i: int| 0 <= i < moved(points, n).len() ==> 0 <= #[trigger] moved(points, n)[i] < n,
    decreases n,
{
    if n > 0 {
        lemma_moved(points, n - 1);
    }
}

/// Drops points at the place of the one before. Parallel arrays follow; of the
/// accelerations, where both cover every point, each stretch keeps its strongest
/// sample, sign and all.
pub fn dedup_consecutive(
    points: &mut Vec<GpsPoint>,
    gears: &mut Vec<u8>,
    ap_states: &mut Vec<u8>,
    speeds: &mut Vec<F32>,
    accel_positions: &mut Vec<F32>,
    accel_x: &mut Vec<F32>,
    accel_y: &mut Vec<F32>,
)
    requires
        old(gears)@.len() == old(points)@.len(),
        old(ap_states)@.len() == old(points)@.len(),
        old(speeds)@.len() == old(points)@.len(),
        old(accel_positions)@.len() == old(points)@.len(),
    ensures
        ({
            let n = old(points)@.len() as int;
            let at = moved(old(points)@, n);
            let imu = old(accel_x)@.len() == n && old(accel_y)@.len() == n;
            &&& final(points)@ == picked(old(points)@, at)
            &&& final(gears)@ == picked(old(gears)@, at)
            &&& final(ap_states)@ == picked(old(ap_states)@, at)
            &&& final(speeds)@ == picked(old(speeds)@, at)
            &&& final(accel_positions)@ == picked(old(accel_positions)@, at)
            &&& final(accel_x)@ == if imu {
                stretch_peaks(old(accel_x)@, at, n)
            } else {
                old(accel_x)@
            }
            &&& final(accel_y)@ == if imu {
                stretch_peaks(old(accel_y)@, at, n)
            } else {
                old(accel_y)@
            }
        }),
{
    let n: usize = points.len();
    let imu: bool = accel_x.len() == n && accel_y.len() == n;
    let mut p: Vec<GpsPoint> = Vec::new();
    let mut g: Vec<u8> = Vec::new();
    let mut a: Vec<u8> = Vec::new();
    let mut v: Vec<F32> = Vec::new();
    let mut c: Vec<F32> = Vec::new();
    let mut x: Vec<F32> = Vec::new();
    let mut y: Vec<F32> = Vec::new();
    let ghost pts = points@;
    let mut i: usize = 0;
    while i < n
        invariant
            i <= n,
            pts == points@,
            *points == *old(points),
            *gears == *old(gears),
            *ap_states == *old(ap_states),
            *speeds == *old(speeds),
            *accel_positions == *old(accel_positions),
            *accel_x == *old(accel_x),
            *accel_y == *old(accel_y),
            n == points@.len(),
            gears@.len() == n,
            ap_states@.len() == n,
            speeds@.len() == n,
            accel_positions@.len() == n,
            imu == (accel_x@.len() == n && accel_y@.len() == n),
            p@ == picked(pts, moved(pts, i as int)),
            g@ == picked(gears@, moved(pts, i as int)),
            a@ == picked(ap_states@, moved(pts, i as int)),
            v@ == picked(speeds@, moved(pts, i as int)),
            c@ == picked(accel_positions@, moved(pts, i as int)),
            imu ==> x@ == stretch_peaks(accel_x@, moved(pts, i as int), i as int),
            imu ==> y@ == stretch_peaks(accel_y@, moved(pts, i as int), i as int),
        decreases n - i,
    {
        let ghost at = moved(pts, i as int);
        proof {
            lemma_moved(pts, i as int);
            lemma_moved(pts, i as int + 1);
        }
        let kept: usize = p.len();
        if i > 0 && points[i].lat.same(p[kept - 1].lat) && points[i].lng.same(p[kept - 1].lng) {
            proof {
                assert(p@[kept - 1] == pts[at.last()]);
            }
            if imu {
                let nx: F32 = accel_x[i];
                let ny: F32 = accel_y[i];
                let last_x: F32 = x[kept - 1];
                let last_y: F32 = y[kept - 1];
                if last_x.abs().lt(nx.abs()) {
                    x.set(kept - 1, nx);
                }
                if last_y.abs().lt(ny.abs()) {
                    y.set(kept - 1, ny);
                }
                proof {
                    assert(x@ =~= stretch_peaks(accel_x@, at, i as int + 1));
                    assert(y@ =~= stretch_peaks(accel_y@, at, i as int + 1));
                }
            }
        } else {
            proof {
                if i > 0 {
                    assert(p@[kept - 1] == pts[at.last()]);
                }
                assert(moved(pts, i as int + 1) == at.push(i as int));
            }
            p.push(points[i]);
            g.push(gears[i]);
            a.push(ap_states[i]);
            v.push(speeds[i]);
            c.push(accel_positions[i]);
            if imu {
                x.push(accel_x[i]);
                y.push(accel_y[i]);
            }
            proof {
                let next = at.push(i as int);
                assert(p@ =~= picked(pts, next));
                assert(g@ =~= picked(gears@, next));
                assert(a@ =~= picked(ap_states@, next));
                assert(v@ =~= picked(speeds@, next));
                assert(c@ =~= picked(accel_positions@, next));
                if imu {
                    assert(x@ =~= stretch_peaks(accel_x@, next, i as int + 1));
                    assert(y@ =~= stretch_peaks(accel_y@, next, i as int + 1));
                }
            }
        }
        i = i + 1;
    }
    *points = p;
    *gears = g;
    *ap_states = a;
    *speeds = v;
    *accel_positions = c;
    if imu {
        *accel_x = x;
        *accel_y = y;
    }
}

// ---------------------------------------------------------------------------
// Boxes and units
// ---------------------------------------------------------------------------

/// Supplemental units longer than this are not read.
pub const MAX_UNIT_BYTES: u64 = 65_536;

/// The number that bytes spell, most significant first.
pub open spec fn be_value(s: Seq<u8>) -> nat
    decreases s.len(),
{
    if s.len() == 0 {
        0
    } else {
        256 * be_value(s.drop_last()) + s.last() as nat
    }
}

fn be_u64(s: &[u8], from: usize, n: usize) -> (v: u64)
    requires
        n <= 8,
        from + n <= s.len(),
    ensures
        v == be_value(s@.subrange(from as int, from + n)),
        n <= 4 ==> v < 0x1_0000_0000,
{
    let mut v: u64 = 0;
    let mut i: usize = 0;
    proof {
        lemma2_to64();
        lemma2_to64_rest();
        assert(s@.subrange(from as int, from as int) =~= Seq::<u8>::empty());
    }
    while i < n
        invariant
            i <= n <= 8,
            from + n <= s.len(),
            v == be_value(s@.subrange(from as int, from + i)),
            v < pow2(8 * i as nat),
            pow2(56) == 0x100_0000_0000_0000,
            pow2(32) == 0x1_0000_0000,
            pow2(64) == 0x1_0000_0000_0000_0000,
        decreases n - i,
    {
        proof {
            let t = s@.subrange(from as int, from + i + 1);
            assert(t.drop_last() =~= s@.subrange(from as int, from + i));
            lemma_pow2_adds(8, 8 * i as nat);
            lemma2_to64();
            if 8 * i < 56 {
                lemma_pow2_strictly_increases(8 * i as nat, 56);
            }
        }
        v = v * 256 + s[from + i] as u64;
        i = i + 1;
    }
    proof {
        if n < 4 {
            lemma_pow2_strictly_increases(8 * n as nat, 32);
        }
    }
    v
}

/// What a top-level box of the file asks for.
#[derive(Clone, Copy, Debug, PartialEq, Eq, Structural)]
pub enum BoxStep {
    /// The media data: where it starts and how long it is.
    Mdat { offset: u64, size: u64 },
    /// Another box; the next one starts here.
    Skip { next: u64 },
    /// A box shorter than its own header, or one that ends past any file.
    Stop,
}

/// Bytes of the box at `pos`: the 32-bit field, the 64-bit field where that one
/// reads 1, or the rest of the file where it reads 0.
pub open spec fn box_size(pos: int, file_size: int, header: Seq<u8>, long_size: Option<u64>) -> int {
    let field = be_value(header.take(4));
    match long_size {
        Some(v) if field == 1 => v as int,
        _ => if field == 0 {
            file_size - pos
        } else {
            field as int
        },
    }
}

pub open spec fn box_header(header: Seq<u8>) -> int {
    if be_value(header.take(4)) == 1 {
        16
    } else {
        8
    }
}

pub open spec fn is_mdat(header: Seq<u8>) -> bool {
    header[4] == 0x6d && header[5] == 0x64 && header[6] == 0x61 && header[7] == 0x74
}

/// True when the header announces a 64-bit size behind it.
pub fn box_has_long_size(header: &[u8]) -> (b: bool)
    requires
        header@.len() >= 8,
    ensures
        b == (be_value(header@.take(4)) == 1),
{
    proof {
        assert(header@.subrange(0, 4) =~= header@.take(4));
    }
    be_u64(header, 0, 4) == 1
}

/// Reads a big-endian 64-bit size.
pub fn read_long_size(bytes: &[u8]) -> (v: u64)
    requires
        bytes@.len() == 8,
    ensures
        v == be_value(bytes@),
{
    proof {
        assert(bytes@.subrange(0, 8) =~= bytes@);
    }
    be_u64(bytes, 0, 8)
}

/// The next step of the search for the media data, from the first eight bytes of
/// the box at `pos` and its 64-bit size where it has one.
pub fn box_step(pos: u64, file_size: u64, header: &[u8], long_size: Option<u64>) -> (r: BoxStep)
    requires
        header@.len() >= 8,
        pos < file_size <= i64::MAX,
        be_value(header@.take(4)) == 1 ==> long_size is Some,
    ensures
        ({
            let size = box_size(pos as int, file_size as int, header@, long_size);
            let head = box_header(header@);
            match r {
                BoxStep::Stop => size < head || (!is_mdat(header@) && pos + size > u64::MAX),
                BoxStep::Mdat { offset, size: n } => size >= head && is_mdat(header@) && offset == pos
                    + head && n == size - head,
                BoxStep::Skip { next } => size >= head && !is_mdat(header@) && next == pos + size,
            }
        }),
{
    proof {
        assert(header@.subrange(0, 4) =~= header@.take(4));
    }
    let field: u64 = be_u64(header, 0, 4);
    let head: u64 = if field == 1 {
        16
    } else {
        8
    };
    let size: u64 = match long_size {
        Some(v) => {
            if field == 1 {
                v
            } else if field == 0 {
                file_size - pos
            } else {
                field
            }
        },
        None => {
            if field == 0 {
                file_size - pos
            } else {
                field
            }
        },
    };
    if size < head {
        return BoxStep::Stop;
    }
    if header[4] == 0x6d && header[5] == 0x64 && header[6] == 0x61 && header[7] == 0x74 {
        return BoxStep::Mdat { offset: pos + head, size: size - head };
    }
    if size > u64::MAX - pos {
        return BoxStep::Stop;
    }
    BoxStep::Skip { next: pos + size }
}

/// Length of the unit whose four length bytes were just read, `cursor` standing
/// behind them; nothing where it is under two bytes or leaves the media data.
pub fn unit_length(cursor: u64, end: u64, length_bytes: &[u8]) -> (r: Option<u64>)
    requires
        length_bytes@.len() == 4,
        cursor <= end,
    ensures
        ({
            let n = be_value(length_bytes@);
            match r {
                Some(v) => v == n && n >= 2 && cursor + n <= end,
                None => n < 2 || cursor + n > end,
            }
        }),
{
    proof {
        assert(length_bytes@.subrange(0, 4) =~= length_bytes@);
    }
    let n: u64 = be_u64(length_bytes, 0, 4);
    if n < 2 || n > end - cursor {
        None
    } else {
        Some(n)
    }
}

/// True for a supplemental unit short enough to be read.
pub fn unit_is_supplemental(type_byte: u8, length: u64) -> (b: bool)
    ensures
        b == (type_byte % 32 == 6 && length <= MAX_UNIT_BYTES),
{
    type_byte % 32 == 6 && length <= MAX_UNIT_BYTES
}

// ---------------------------------------------------------------------------
// Frames of a clip
// ---------------------------------------------------------------------------

/// Per-frame arrays, one entry per decoded frame.
#[derive(Clone, Debug)]
pub struct RawFrames {
    pub points: Vec<GpsPoint>,
    pub gears: Vec<u8>,
    pub ap_states: Vec<u8>,
    pub speeds: Vec<F32>,
    pub accel_positions: Vec<F32>,
    pub flags: Vec<u8>,
    pub accel_x: Vec<F32>,
    pub accel_y: Vec<F32>,
}

/// A coordinate to six decimals.
pub open spec fn rounded6(v: F64) -> F64 {
    fdiv(fround(fmul(v, from_int(1_000_000))), from_int(1_000_000))
}

/// The flag byte of a frame.
pub open spec fn frame_flags(f: SeiFrame) -> u8 {
    ((if f.blinker_left {
        FLAG_BLINKER_LEFT as int
    } else {
        0
    }) + (if f.blinker_right {
        FLAG_BLINKER_RIGHT as int
    } else {
        0
    }) + (if f.brake {
        FLAG_BRAKE as int
    } else {
        0
    }) + (if flt32(F32 { bits: 0 }, f.accel_pos) {
        FLAG_ACCEL as int
    } else {
        0
    })) as u8
}

impl RawFrames {
    /// The arrays are parallel but for those of the acceleration.
    pub open spec fn parallel(self) -> bool {
        let n = self.points@.len();
        &&& self.gears@.len() == n
        &&& self.ap_states@.len() == n
        &&& self.speeds@.len() == n
        &&& self.accel_positions@.len() == n
        &&& self.flags@.len() == n
    }

    /// All arrays are parallel.
    pub open spec fn wf(self) -> bool {
        let n = self.points@.len();
        &&& self.parallel()
        &&& self.accel_x@.len() == n
        &&& self.accel_y@.len() == n
    }

    pub fn new() -> (r: RawFrames)
        ensures
            r.wf(),
            r.points@.len() == 0,
    {
        RawFrames {
            points: Vec::new(),
            gears: Vec::new(),
            ap_states: Vec::new(),
            speeds: Vec::new(),
            accel_positions: Vec::new(),
            flags: Vec::new(),
            accel_x: Vec::new(),
            accel_y: Vec::new(),
        }
    }

    /// Appends one frame.
    pub fn push(&mut self, f: SeiFrame)
        requires
            old(self).wf(),
        ensures
            final(self).wf(),
            final(self).points@ == old(self).points@.push(
                GpsPoint { lat: rounded6(f.lat), lng: rounded6(f.lon) },
            ),
            final(self).gears@ == old(self).gears@.push(f.gear),
            final(self).ap_states@ == old(self).ap_states@.push(f.ap_state),
            final(self).speeds@ == old(self).speeds@.push(f.speed),
            final(self).accel_positions@ == old(self).accel_positions@.push(f.accel_pos),
            final(self).flags@ == old(self).flags@.push(frame_flags(f)),
            final(self).accel_x@ == old(self).accel_x@.push(f.accel_x),
            final(self).accel_y@ == old(self).accel_y@.push(f.accel_y),
    {
        let million: F64 = F64::of_u64(1_000_000);
        let lat: F64 = f.lat.times(million).round().over(million);
        let lng: F64 = f.lon.times(million).round().over(million);
        let mut flags: u8 = 0;
        if f.blinker_left {
            flags = flags + FLAG_BLINKER_LEFT;
        }
        if f.blinker_right {
            flags = flags + FLAG_BLINKER_RIGHT;
        }
        if f.brake {
            flags = flags + FLAG_BRAKE;
        }
        if F32::from_bits(0).lt(f.accel_pos) {
            flags = flags + FLAG_ACCEL;
        }
        self.points.push(GpsPoint { lat, lng });
        self.gears.push(f.gear);
        self.ap_states.push(f.ap_state);
        self.speeds.push(f.speed);
        self.accel_positions.push(f.accel_pos);
        self.flags.push(flags);
        self.accel_x.push(f.accel_x);
        self.accel_y.push(f.accel_y);
    }

    /// Appends the frame of a supplemental unit, where it holds one.
    pub fn absorb(&mut self, nal: &[u8])
        requires
            old(self).wf(),
        ensures
            final(self).wf(),
            unit_frame(nal@) is None ==> *final(self) == *old(self),
            unit_frame(nal@) matches Some(f) ==> {
                &&& final(self).points@ == old(self).points@.push(
                    GpsPoint { lat: rounded6(f.lat), lng: rounded6(f.lon) },
                )
                &&& final(self).gears@ == old(self).gears@.push(f.gear)
                &&& final(self).ap_states@ == old(self).ap_states@.push(f.ap_state)
                &&& final(self).speeds@ == old(self).speeds@.push(f.speed)
                &&& final(self).accel_positions@ == old(self).accel_positions@.push(f.accel_pos)
                &&& final(self).flags@ == old(self).flags@.push(frame_flags(f))
                &&& final(self).accel_x@ == old(self).accel_x@.push(f.accel_x)
                &&& final(self).accel_y@ == old(self).accel_y@.push(f.accel_y)
            },
    {
        match parse_tesla_sei(nal) {
            Some(f) => self.push(f),
            None => {},
        }
    }
}

/// How many of the first `n` entries are Park.
pub open spec fn park_count(gears: Seq<u8>, n: int) -> nat
    decreases n,
{
    if n <= 0 {
        0
    } else if gears[n - 1] == GEAR_PARK {
        park_count(gears, n - 1) + 1
    } else {
        park_count(gears, n - 1)
    }
}

/// Every sample is zero: the car does not send the channel.
pub open spec fn silent(s: Seq<F32>) -> bool {
    forall|i: int| 0 <= i < s.len() ==> feq32(#[trigger] s[i], F32 { bits: 0 })
}

fn is_silent(s: &[F32]) -> (b: bool)
    ensures
        b == silent(s@),
{
    let mut i: usize = 0;
    while i < s.len()
        invariant
            i <= s.len(),
            forall|j: int| 0 <= j < i ==> feq32(#[trigger] s@[j], F32 { bits: 0 }),
        decreases s.len() - i,
    {
        if !s[i].same(F32::from_bits(0)) {
            proof {
                assert(!feq32(s@[i as int], F32 { bits: 0 }));
            }
            return false;
        }
        i = i + 1;
    }
    true
}

/// `r` is made of the frames `f`: counts and runs over all of them, the arrays
/// without standing points.
pub open spec fn is_assembled(f: RawFrames, r: ExtractedGps) -> bool {
    let n = f.points@.len() as int;
    let at = moved(f.points@, n);
    let quiet = silent(f.accel_x@) && silent(f.accel_y@);
    let imu = f.accel_x@.len() == n && f.accel_y@.len() == n;
    &&& r.raw_frame_count == n
    &&& r.raw_park_count == park_count(f.gears@, n)
    &&& gears_of(r.gear_runs@) == f.gears@
    &&& maximal_gear_runs(r.gear_runs@)
    &&& flags_of(r.flag_runs@) == f.flags@
    &&& maximal_flag_runs(r.flag_runs@)
    &&& forall|i: int|
        0 <= i < r.flag_runs@.len() ==> (#[trigger] r.flag_runs@[i]).max_mps == run_peak(
            r.flag_runs@,
            Some(f.speeds@),
            i,
        )
    &&& r.points@ == picked(f.points@, at)
    &&& r.gear_states@ == picked(f.gears@, at)
    &&& r.autopilot_states@ == picked(f.ap_states@, at)
    &&& r.speeds@ == picked(f.speeds@, at)
    &&& r.accel_positions@ == picked(f.accel_positions@, at)
    &&& r.accel_x@ == if quiet {
        Seq::empty()
    } else if imu {
        stretch_peaks(f.accel_x@, at, n)
    } else {
        f.accel_x@
    }
    &&& r.accel_y@ == if quiet {
        Seq::empty()
    } else if imu {
        stretch_peaks(f.accel_y@, at, n)
    } else {
        f.accel_y@
    }
}

/// Counts and runs over every raw frame, then the point arrays without standing
/// points. The order matters: runs taken after standing points are dropped would
/// lose a Park that begins once the car has stopped.
pub fn assemble_extracted(f: RawFrames) -> (r: ExtractedGps)
    requires
        f.parallel(),
        f.points@.len() <= u32::MAX,
    ensures
        is_assembled(f, r),
{
    let n: usize = f.gears.len();
    let mut parked: u32 = 0;
    let mut i: usize = 0;
    while i < n
        invariant
            i <= n,
            n == f.gears@.len(),
            n <= u32::MAX,
            parked == park_count(f.gears@, i as int),
            parked <= i,
        decreases n - i,
    {
        if f.gears[i] == GEAR_PARK {
            parked = parked + 1;
        }
        i = i + 1;
    }
    let gear_runs: Vec<GearRun> = compute_gear_runs(f.gears.as_slice());
    let flag_runs: Vec<FlagRun> = compute_flag_runs(
        f.flags.as_slice(),
        Some(f.speeds.as_slice()),
    );
    let mut points: Vec<GpsPoint> = f.points;
    let mut gears: Vec<u8> = f.gears;
    let mut ap_states: Vec<u8> = f.ap_states;
    let mut speeds: Vec<F32> = f.speeds;
    let mut accel_positions: Vec<F32> = f.accel_positions;
    let mut accel_x: Vec<F32> = f.accel_x;
    let mut accel_y: Vec<F32> = f.accel_y;
    if is_silent(accel_x.as_slice()) && is_silent(accel_y.as_slice()) {
        accel_x = Vec::new();
        accel_y = Vec::new();
        proof {
            if n == 0 {
                assert(stretch_peaks(accel_x@, moved(points@, 0), 0) =~= Seq::<F32>::empty());
            }
        }
    }
    dedup_consecutive(
        &mut points,
        &mut gears,
        &mut ap_states,
        &mut speeds,
        &mut accel_positions,
        &mut accel_x,
        &mut accel_y,
    );
    ExtractedGps {
        points,
        gear_states: gears,
        autopilot_states: ap_states,
        speeds,
        accel_positions,
        raw_park_count: parked,
        raw_frame_count: n as u32,
        gear_runs,
        flag_runs,
        accel_x,
        accel_y,
    }
}

impl ExtractedGps {
    /// The result for a clip without media data.
    pub fn empty() -> (r: ExtractedGps)
        ensures
            r.points@.len() == 0,
            r.gear_states@.len() == 0,
            r.autopilot_states@.len() == 0,
            r.speeds@.len() == 0,
            r.accel_positions@.len() == 0,
            r.raw_park_count == 0,
            r.raw_frame_count == 0,
            r.gear_runs@.len() == 0,
            r.flag_runs@.len() == 0,
            r.accel_x@.len() == 0,
            r.accel_y@.len() == 0,
    {
        ExtractedGps {
            points: Vec::new(),
            gear_states: Vec::new(),
            autopilot_states: Vec::new(),
            speeds: Vec::new(),
            accel_positions: Vec::new(),
            raw_park_count: 0,
            raw_frame_count: 0,
            gear_runs: Vec::new(),
            flag_runs: Vec::new(),
            accel_x: Vec::new(),
            accel_y: Vec::new(),
        }
    }
}

/// Bytes without an emulation prevention byte stay as they are.
pub proof fn law_clean_bytes_stay(s: Seq<u8>, n: int)
    requires
        0 <= n <= s.len(),
        forall|i: int| 0 <= i < n ==> !#[trigger] emulation_at(s, i),
    ensures
        stripped(s, n) == s.take(n),
    decreases n,
{
    if n > 0 {
        law_clean_bytes_stay(s, n - 1);
        assert(!emulation_at(s, n - 1));
        assert(s.take(n) =~= s.take(n - 1).push(s[n - 1]));
    } else {
        assert(s.take(0) =~= Seq::<u8>::empty());
    }
}

} // verus!
