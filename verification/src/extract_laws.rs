//! What is read out of a clip is what was written into it.

use crate::blob::le_value;
use crate::extract::{
    FieldStep, RawFrames, SeiFrame, blank_frame, emulation_at, field_step, frame_flags, frame_peak,
    frame_speed, groups_value, is_assembled, message_frame, moved, park_count, read_fields,
    same_place, stripped, strongest, varint, varint_len, zeros_before,
};
use crate::float::{
    F32, F64, fabs, fabs32, feq, fle, flt, flt32, from_int, is_finite, is_finite32, is_nan32,
    narrow, widen, zero,
};
use crate::types::{ExtractedGps, GpsPoint};
use vstd::prelude::*;

verus! {

// ---------------------------------------------------------------------------
// Numbers and fields
// ---------------------------------------------------------------------------

/// A number in groups of seven bits, least significant first; all but the last carry the
/// top bit.
pub open spec fn varint_bytes(v: nat) -> Seq<u8>
    decreases v,
{
    if v < 128 {
        seq![v as u8]
    } else {
        seq![(v % 128 + 128) as u8] + varint_bytes(v / 128)
    }
}

proof fn lemma_varint_bytes(v: nat, k: nat)
    requires
        v < vstd::arithmetic::power2::pow2(7 * k),
        k >= 1,
    ensures
        1 <= varint_bytes(v).len() <= k,
        varint_bytes(v).last() < 0x80,
        forall|i: int| 0 <= i < varint_bytes(v).len() - 1 ==> #[trigger] varint_bytes(v)[i] >= 0x80,
        groups_value(varint_bytes(v)) == v,
    decreases v,
{
    vstd::arithmetic::power2::lemma2_to64();
    let s = varint_bytes(v);
    if v < 128 {
        assert(s.skip(1) =~= Seq::<u8>::empty());
        assert(groups_value(s.skip(1)) == 0);
    } else {
        if k == 1 {
            assert(false);
        }
        let j = (k - 1) as nat;
        vstd::arithmetic::power2::lemma_pow2_adds(7, 7 * j);
        lemma_varint_bytes(v / 128, j);
        let t = varint_bytes(v / 128);
        assert(s.skip(1) =~= t);
        assert(s.last() == t.last());
        assert forall|i: int| 0 <= i < s.len() - 1 implies #[trigger] s[i] >= 0x80 by {
            if i > 0 {
                assert(s[i] == t[i - 1]);
            }
        }
        assert(s[0] % 128 == v % 128);
    }
}

proof fn lemma_varint_len(s: Seq<u8>, n: int, from: int)
    requires
        0 <= from < n <= 10,
        n <= s.len(),
        s[n - 1] < 0x80,
        forall|i: int| 0 <= i < n - 1 ==> #[trigger] s[i] >= 0x80,
    ensures
        varint_len(s, from) == n,
    decreases n - from,
{
    if from < n - 1 {
        assert(s[from] >= 0x80);
        lemma_varint_len(s, n, from + 1);
    }
}

/// A number that was written is read back, whatever follows it, with the bytes it takes.
pub proof fn law_varints_read_back(v: u64, rest: Seq<u8>)
    ensures
        varint(varint_bytes(v as nat) + rest) == (v, varint_bytes(v as nat).len() as int),
{
    let t = varint_bytes(v as nat);
    let s = t + rest;
    vstd::arithmetic::power2::lemma2_to64();
    vstd::arithmetic::power2::lemma2_to64_rest();
    vstd::arithmetic::power2::lemma_pow2_strictly_increases(64, 70);
    lemma_varint_bytes(v as nat, 10);
    let n = t.len() as int;
    assert forall|i: int| 0 <= i < n - 1 implies #[trigger] s[i] >= 0x80 by {
        assert(s[i] == t[i]);
    }
    assert(s[n - 1] == t.last());
    lemma_varint_len(s, n, 0);
    assert(s.take(n) =~= t);
}

/// The tag of a field with one byte.
pub open spec fn tagged(data: Seq<u8>, i: int, field: int, wire: int) -> bool {
    0 <= i < data.len() && data[i] == 8 * field + wire && 0 <= field <= 15 && 0 <= wire <= 5
}

proof fn lemma_tag(data: Seq<u8>, i: int, field: int, wire: int)
    requires
        tagged(data, i, field, wire),
    ensures
        varint(data.skip(i)) == ((8 * field + wire) as u64, 1int),
        data.skip(i).skip(1) =~= data.skip(i + 1),
{
    let s = data.skip(i);
    assert(s[0] == data[i]);
    assert(varint_len(s, 0) == 1);
    assert(s.take(1).skip(1) =~= Seq::<u8>::empty());
    assert(groups_value(s.take(1).skip(1)) == 0);
    assert(groups_value(s.take(1)) == (data[i] % 128) as nat);
}

/// Whole-number fields: 2 is the gear, 7 and 8 the left and the right indicator, 9 the
/// brake and 10 the autopilot; others change nothing.
pub proof fn law_whole_number_fields(data: Seq<u8>, i: int, field: int, f: SeiFrame)
    requires
        tagged(data, i, field, 0),
        varint(data.skip(i + 1)).1 > 0,
    ensures
        ({
            let (v, n) = varint(data.skip(i + 1));
            match field_step(data, i, f) {
                FieldStep::Next(j, g) => {
                    &&& j == i + 1 + n
                    &&& g.gear == if field == 2 {
                        (v % 256) as u8
                    } else {
                        f.gear
                    }
                    &&& g.blinker_left == if field == 7 {
                        v != 0
                    } else {
                        f.blinker_left
                    }
                    &&& g.blinker_right == if field == 8 {
                        v != 0
                    } else {
                        f.blinker_right
                    }
                    &&& g.brake == if field == 9 {
                        v != 0
                    } else {
                        f.brake
                    }
                    &&& g.ap_state == if field == 10 {
                        (v % 256) as u8
                    } else {
                        f.ap_state
                    }
                    &&& g.lat == f.lat && g.lon == f.lon && g.speed == f.speed && g.accel_pos
                        == f.accel_pos && g.accel_x == f.accel_x && g.accel_y == f.accel_y
                },
                FieldStep::Done(_) => false,
            }
        }),
{
    lemma_tag(data, i, field, 0);
}

/// 64-bit fields: 11 is the latitude, 12 the longitude, 14 and 15 the accelerations.
pub proof fn law_double_fields(data: Seq<u8>, i: int, field: int, f: SeiFrame)
    requires
        tagged(data, i, field, 1),
        i + 9 <= data.len(),
    ensures
        ({
            let v = F64 { bits: le_value(data.subrange(i + 1, i + 9)) as u64 };
            match field_step(data, i, f) {
                FieldStep::Next(j, g) => {
                    &&& j == i + 9
                    &&& g.lat == if field == 11 {
                        v
                    } else {
                        f.lat
                    }
                    &&& g.lon == if field == 12 {
                        v
                    } else {
                        f.lon
                    }
                    &&& g.accel_x == if field == 14 {
                        narrow(v)
                    } else {
                        f.accel_x
                    }
                    &&& g.accel_y == if field == 15 {
                        narrow(v)
                    } else {
                        f.accel_y
                    }
                    &&& g.gear == f.gear && g.ap_state == f.ap_state && g.speed == f.speed
                        && g.accel_pos == f.accel_pos && g.blinker_left == f.blinker_left
                        && g.blinker_right == f.blinker_right && g.brake == f.brake
                },
                FieldStep::Done(_) => false,
            }
        }),
{
    lemma_tag(data, i, field, 1);
}

/// 32-bit fields: 4 is the speed, 5 the pedal.
pub proof fn law_single_fields(data: Seq<u8>, i: int, field: int, f: SeiFrame)
    requires
        tagged(data, i, field, 5),
        i + 5 <= data.len(),
    ensures
        ({
            let v = F32 { bits: le_value(data.subrange(i + 1, i + 5)) as u32 };
            match field_step(data, i, f) {
                FieldStep::Next(j, g) => {
                    &&& j == i + 5
                    &&& g.speed == if field == 4 {
                        v
                    } else {
                        f.speed
                    }
                    &&& g.accel_pos == if field == 5 {
                        v
                    } else {
                        f.accel_pos
                    }
                    &&& g.lat == f.lat && g.lon == f.lon && g.gear == f.gear && g.ap_state == f.ap_state
                        && g.accel_x == f.accel_x && g.accel_y == f.accel_y && g.blinker_left
                        == f.blinker_left && g.blinker_right == f.blinker_right && g.brake == f.brake
                },
                FieldStep::Done(_) => false,
            }
        }),
{
    lemma_tag(data, i, field, 5);
}

/// Other fields: one with a length is passed over, all of it; one that is cut off, or of a
/// kind that does not exist, spoils the message.
pub proof fn law_other_fields(data: Seq<u8>, i: int, field: int, wire: int, f: SeiFrame)
    requires
        tagged(data, i, field, wire),
    ensures
        wire == 2 && varint(data.skip(i + 1)).1 > 0 ==> field_step(data, i, f) == FieldStep::Next(
            i + 1 + varint(data.skip(i + 1)).1 + varint(data.skip(i + 1)).0,
            f,
        ),
        wire == 3 || wire == 4 ==> field_step(data, i, f) == FieldStep::Done(None),
        wire == 1 && i + 9 > data.len() ==> field_step(data, i, f) == FieldStep::Done(None),
        wire == 5 && i + 5 > data.len() ==> field_step(data, i, f) == FieldStep::Done(None),
{
    lemma_tag(data, i, field, wire);
}

/// Only frames with a fix on Earth are taken, and accelerations that are no numbers count
/// as none; all else is as it was read.
pub proof fn law_frames_have_a_fix(data: Seq<u8>)
    ensures
        match (message_frame(data), read_fields(data, 0, blank_frame())) {
            (Some(g), Some(f)) => {
                &&& is_finite(f.lat) && is_finite(f.lon)
                &&& !feq(f.lat, zero()) || !feq(f.lon, zero())
                &&& fle(fabs(f.lat), from_int(90)) && fle(fabs(f.lon), from_int(180))
                &&& g.lat == f.lat && g.lon == f.lon && g.gear == f.gear && g.ap_state == f.ap_state
                &&& g.speed == f.speed && g.accel_pos == f.accel_pos
                &&& g.blinker_left == f.blinker_left && g.blinker_right == f.blinker_right
                &&& g.brake == f.brake
                &&& is_finite32(f.accel_x) ==> g.accel_x == f.accel_x
                &&& !is_finite32(f.accel_x) ==> g.accel_x.bits == 0
                &&& is_finite32(f.accel_y) ==> g.accel_y == f.accel_y
                &&& !is_finite32(f.accel_y) ==> g.accel_y.bits == 0
            },
            (None, Some(f)) => !is_finite(f.lat) || !is_finite(f.lon) || (feq(f.lat, zero()) && feq(
                f.lon,
                zero(),
            )) || !fle(fabs(f.lat), from_int(90)) || !fle(fabs(f.lon), from_int(180)),
            (Some(_), None) => false,
            (None, None) => true,
        },
{
}

// ---------------------------------------------------------------------------
// Emulation prevention
// ---------------------------------------------------------------------------

/// `s` with a 3 put in wherever a byte up to 3 would follow two zeros.
pub open spec fn escaped(s: Seq<u8>) -> Seq<u8>
    decreases s.len(),
{
    if s.len() == 0 {
        Seq::empty()
    } else {
        let head = escaped(s.drop_last());
        if zeros_before(head, head.len() as int) >= 2 && s.last() <= 3 {
            head.push(3).push(s.last())
        } else {
            head.push(s.last())
        }
    }
}

proof fn lemma_prefix_alike(a: Seq<u8>, b: Seq<u8>, n: int)
    requires
        0 <= n <= a.len(),
        n <= b.len(),
        forall|i: int| 0 <= i < n ==> a[i] == b[i],
    ensures
        zeros_before(a, n) == zeros_before(b, n),
        stripped(a, n) == stripped(b, n),
    decreases n,
{
    if n > 0 {
        lemma_prefix_alike(a, b, n - 1);
        assert(a[n - 1] == b[n - 1]);
        assert(emulation_at(a, n - 1) == emulation_at(b, n - 1));
    }
}

/// Stripping gives back what was escaped.
pub proof fn law_stripping_undoes_escaping(s: Seq<u8>)
    ensures
        stripped(escaped(s), escaped(s).len() as int) == s,
    decreases s.len(),
{
    let e = escaped(s);
    if s.len() == 0 {
        assert(stripped(e, 0) =~= s);
    } else {
        let body = s.drop_last();
        let x = s.last();
        law_stripping_undoes_escaping(body);
        let head = escaped(body);
        let n = head.len() as int;
        let z = zeros_before(head, n);
        assert(body.push(x) =~= s);
        lemma_prefix_alike(head, e, n);
        if z >= 2 && x <= 3 {
            assert(e[n] == 3 && e[n + 1] == x);
            assert(emulation_at(e, n));
            assert(zeros_before(e, n + 1) == 0);
            assert(!emulation_at(e, n + 1));
            assert(stripped(e, n + 1) == body);
        } else {
            assert(e[n] == x);
            assert(!emulation_at(e, n));
        }
    }
}

// ---------------------------------------------------------------------------
// What stays of the frames
// ---------------------------------------------------------------------------

proof fn lemma_moved(points: Seq<GpsPoint>, n: int)
    requires
        0 <= n <= points.len(),
    ensures
        ({
            let at = moved(points, n);
            &&& n > 0 ==> at.len() > 0 && at[0] == 0
            &&& forall|i: int| 0 <= i < at.len() ==> 0 <= #[trigger] at[i] < n
            &&& forall|i: int, j: int| 0 <= i < j < at.len() ==> #[trigger] at[i] < #[trigger] at[j]
            &&& forall|i: int|
                1 <= i < at.len() ==> !same_place(points[#[trigger] at[i]], points[at[i - 1]])
            &&& forall|i: int, k: int|
                0 <= i < at.len() && #[trigger] at[i] < k < (if i + 1 < at.len() {
                    at[i + 1]
                } else {
                    n
                }) ==> same_place(#[trigger] points[k], points[at[i]])
        }),
    decreases n,
{
    if n > 0 {
        lemma_moved(points, n - 1);
        let b = moved(points, n - 1);
        let at = moved(points, n);
        if at.len() > b.len() {
            assert forall|i: int, k: int|
                0 <= i < at.len() && #[trigger] at[i] < k < (if i + 1 < at.len() {
                    at[i + 1]
                } else {
                    n
                }) implies same_place(#[trigger] points[k], points[at[i]]) by {
                if i < b.len() {
                    assert(at[i] == b[i]);
                }
            }
        }
    }
}

/// The points of a clip are its frames without those that stay at the place of the last
/// point: every point is at another place than the one before it, what was left out is at
/// the place of the point before it, and the columns keep step.
pub proof fn law_standing_frames_are_left_out(f: RawFrames, r: ExtractedGps)
    requires
        is_assembled(f, r),
        f.parallel(),
    ensures
        exists|at: Seq<int>|
            {
                let n = f.points@.len() as int;
                &&& #[trigger] keeps_places(f.points@, at)
                &&& r.points@.len() == at.len()
                &&& r.gear_states@.len() == at.len()
                &&& r.autopilot_states@.len() == at.len()
                &&& r.speeds@.len() == at.len()
                &&& r.accel_positions@.len() == at.len()
                &&& forall|i: int|
                    0 <= i < at.len() ==> r.points@[i] == f.points@[#[trigger] at[i]]
                        && r.gear_states@[i] == f.gears@[at[i]] && r.autopilot_states@[i]
                        == f.ap_states@[at[i]] && r.speeds@[i] == f.speeds@[at[i]]
                        && r.accel_positions@[i] == f.accel_positions@[at[i]]
            },
        r.raw_frame_count == f.points@.len(),
        r.raw_park_count == Set::new(
            |i: int| 0 <= i < f.points@.len() && f.gears@[i] == 0,
        ).len(),
{
    let n = f.points@.len() as int;
    lemma_moved(f.points@, n);
    assert(keeps_places(f.points@, moved(f.points@, n)));
    lemma_park_count(f.gears@, n);
    assert(Set::new(|i: int| 0 <= i < n && f.gears@[i] == 0) =~= Set::new(
        |i: int| 0 <= i < f.points@.len() && f.gears@[i] == 0,
    ));
}

/// `at` are the points that are at another place than the one kept before them.
pub open spec fn keeps_places(points: Seq<GpsPoint>, at: Seq<int>) -> bool {
    let n = points.len() as int;
    &&& n > 0 ==> at.len() > 0 && at[0] == 0
    &&& forall|i: int| 0 <= i < at.len() ==> 0 <= #[trigger] at[i] < n
    &&& forall|i: int, j: int| 0 <= i < j < at.len() ==> #[trigger] at[i] < #[trigger] at[j]
    &&& forall|i: int|
        1 <= i < at.len() ==> !(feq(points[#[trigger] at[i]].lat, points[at[i - 1]].lat) && feq(
            points[at[i]].lng,
            points[at[i - 1]].lng,
        ))
    &&& forall|i: int, k: int|
        0 <= i < at.len() && #[trigger] at[i] < k < (if i + 1 < at.len() {
            at[i + 1]
        } else {
            n
        }) ==> feq((#[trigger] points[k]).lat, points[at[i]].lat) && feq(
            points[k].lng,
            points[at[i]].lng,
        )
}

pub proof fn lemma_park_count(gears: Seq<u8>, n: int)
    requires
        0 <= n,
    ensures
        Set::new(|i: int| 0 <= i < n && gears[i] == 0).finite(),
        park_count(gears, n) == Set::new(|i: int| 0 <= i < n && gears[i] == 0).len(),
    decreases n,
{
    let s = Set::new(|i: int| 0 <= i < n && gears[i] == 0);
    if n <= 0 {
        assert(s =~= Set::empty());
    } else {
        lemma_park_count(gears, n - 1);
        let b = Set::new(|i: int| 0 <= i < n - 1 && gears[i] == 0);
        if gears[n - 1] == 0 {
            assert(s =~= b.insert(n - 1));
        } else {
            assert(s =~= b);
        }
    }
}

/// The strongest acceleration of a stretch is one of it, and none of it is stronger.
pub proof fn law_strongest_is_strongest(s: Seq<F32>, lo: int, hi: int)
    requires
        0 <= lo < hi <= s.len(),
        forall|i: int| lo <= i < hi ==> !is_nan32(#[trigger] s[i]),
    ensures
        exists|i: int| lo <= i < hi && #[trigger] s[i] == strongest(s, lo, hi),
        forall|i: int| lo <= i < hi ==> !flt32(fabs32(strongest(s, lo, hi)), fabs32(#[trigger] s[i])),
    decreases hi - lo,
{
    if hi == lo + 1 {
        assert(s[lo] == strongest(s, lo, hi));
    } else {
        law_strongest_is_strongest(s, lo, hi - 1);
        let p = strongest(s, lo, hi - 1);
        let q = strongest(s, lo, hi);
        let i = choose|i: int| lo <= i < hi - 1 && #[trigger] s[i] == p;
        assert(!is_nan32(s[i]) && !is_nan32(s[hi - 1]));
        if q == p {
            assert(s[i] == q);
        } else {
            assert(s[hi - 1] == q);
        }
        assert forall|j: int| lo <= j < hi implies !flt32(fabs32(q), fabs32(#[trigger] s[j])) by {
            assert(!is_nan32(s[j]));
            if j < hi - 1 {
                assert(!flt32(fabs32(p), fabs32(s[j])));
            }
        }
    }
}

/// The speed of a flag run is the greatest of its frames: none is faster, and one has it.
pub proof fn law_run_speed_is_the_greatest(speeds: Seq<F32>, lo: int, hi: int)
    requires
        0 <= lo < hi <= speeds.len(),
        forall|i: int| lo <= i < hi ==> is_finite32(#[trigger] speeds[i]),
    ensures
        exists|i: int|
            lo <= i < hi && fabs(widen(#[trigger] speeds[i])) == frame_peak(speeds, lo, hi),
        forall|i: int|
            lo <= i < hi ==> !flt(frame_peak(speeds, lo, hi), fabs(widen(#[trigger] speeds[i]))),
    decreases hi - lo,
{
    if hi == lo + 1 {
        assert(fabs(widen(speeds[lo])) == frame_peak(speeds, lo, hi));
    } else {
        law_run_speed_is_the_greatest(speeds, lo, hi - 1);
        let p = frame_peak(speeds, lo, hi - 1);
        let q = frame_peak(speeds, lo, hi);
        let i = choose|i: int| lo <= i < hi - 1 && fabs(widen(#[trigger] speeds[i])) == p;
        if flt(p, frame_speed(speeds, hi - 1)) {
            assert(fabs(widen(speeds[hi - 1])) == q);
            assert forall|j: int| lo <= j < hi implies !flt(q, fabs(widen(#[trigger] speeds[j]))) by {
                if j < hi - 1 {
                    assert(!flt(p, fabs(widen(speeds[j]))));
                }
            }
        } else {
            assert(fabs(widen(speeds[i])) == q);
        }
    }
}

/// The flags of a frame: the left indicator counts one, the right one two, the brake four
/// and a pressed accelerator eight.
pub proof fn law_flags_tell_each_signal(f: SeiFrame)
    ensures
        frame_flags(f) < 16,
        frame_flags(f) % 2 == 1 <==> f.blinker_left,
        frame_flags(f) / 2 % 2 == 1 <==> f.blinker_right,
        frame_flags(f) / 4 % 2 == 1 <==> f.brake,
        frame_flags(f) / 8 % 2 == 1 <==> flt32(F32 { bits: 0 }, f.accel_pos),
{
}

} // verus!
