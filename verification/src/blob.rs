//! Little-endian, fixed-stride encodings of a route's point data.

use crate::float::{F32, F64};
use crate::text::copy_range;
use crate::types::{GearRun, GpsPoint};
use vstd::prelude::*;
use vstd::arithmetic::power2::*;
use vstd::arithmetic::div_mod::*;

verus! {

/// Bytes per point.
pub const POINT_STRIDE: usize = 16;

/// Bytes per binary32 value.
pub const F32_STRIDE: usize = 4;

/// Bytes per gear run.
pub const GEAR_RUN_STRIDE: usize = 5;

/// A stored blob whose length is no multiple of its stride.
#[derive(Clone, Copy, Debug, PartialEq, Eq, Structural)]
pub struct BlobError {
    pub length: usize,
    pub stride: usize,
}

/// `v` in `n` bytes, least significant first.
pub open spec fn le_bytes(v: nat, n: nat) -> Seq<u8>
    decreases n,
{
    if n == 0 {
        Seq::empty()
    } else {
        seq![(v % 256) as u8] + le_bytes(v / 256, (n - 1) as nat)
    }
}

/// The number that bytes spell, least significant first.
pub open spec fn le_value(s: Seq<u8>) -> nat
    decreases s.len(),
{
    if s.len() == 0 {
        0
    } else {
        s[0] as nat + 256 * le_value(s.skip(1))
    }
}

proof fn lemma_le_len(v: nat, n: nat)
    ensures
        le_bytes(v, n).len() == n,
    decreases n,
{
    if n > 0 {
        lemma_le_len(v / 256, (n - 1) as nat);
    }
}

/// Bytes written are read back.
pub proof fn lemma_le_round_trip(v: nat, n: nat)
    requires
        v < pow2(8 * n),
    ensures
        le_value(le_bytes(v, n)) == v,
        le_bytes(v, n).len() == n,
    decreases n,
{
    lemma2_to64();
    lemma_le_len(v, n);
    if n > 0 {
        let m = (n - 1) as nat;
        lemma_pow2_adds(8, 8 * m);
        assert(v / 256 < pow2(8 * m)) by {
            lemma_fundamental_div_mod(v as int, 256);
        }
        lemma_le_round_trip(v / 256, m);
        assert(le_bytes(v, n).skip(1) =~= le_bytes(v / 256, m));
    }
}

/// Bytes read are written again.
pub proof fn lemma_le_written_again(s: Seq<u8>)
    ensures
        le_bytes(le_value(s), s.len()) == s,
    decreases s.len(),
{
    if s.len() == 0 {
        assert(le_bytes(le_value(s), 0) =~= s);
    } else {
        let rest = s.skip(1);
        let v = le_value(s);
        lemma_le_written_again(rest);
        lemma_fundamental_div_mod_converse(v as int, 256, le_value(rest) as int, s[0] as int);
        assert(le_bytes(v, s.len()) =~= seq![s[0]] + rest);
        assert(seq![s[0]] + rest =~= s);
    }
}

proof fn lemma_le_bound(s: Seq<u8>)
    ensures
        le_value(s) < pow2(8 * s.len()),
    decreases s.len(),
{
    lemma2_to64();
    if s.len() > 0 {
        lemma_le_bound(s.skip(1));
        lemma_pow2_adds(8, 8 * (s.len() - 1) as nat);
    }
}

fn put_le(buf: &mut Vec<u8>, v: u64, n: usize)
    ensures
        final(buf)@ == old(buf)@ + le_bytes(v as nat, n as nat),
{
    let mut rest: u64 = v;
    let mut i: usize = n;
    proof {
        assert(buf@ + le_bytes(v as nat, n as nat) =~= old(buf)@ + le_bytes(v as nat, n as nat));
    }
    while i > 0
        invariant
            buf@ + le_bytes(rest as nat, i as nat) =~= old(buf)@ + le_bytes(v as nat, n as nat),
        decreases i,
    {
        let ghost before = buf@;
        buf.push((rest % 256) as u8);
        proof {
            assert(before + le_bytes(rest as nat, i as nat) =~= buf@ + le_bytes(
                rest as nat / 256,
                (i - 1) as nat,
            ));
        }
        rest = rest / 256;
        i = i - 1;
    }
    proof {
        assert(buf@ + le_bytes(rest as nat, 0) =~= buf@);
    }
}

/// `n` bytes of `buf` at `off`, for `n` up to 8.
pub fn get_le(buf: &[u8], off: usize, n: usize) -> (r: u64)
    requires
        n <= 8,
        off + n <= buf.len(),
    ensures
        r == le_value(buf@.subrange(off as int, off + n)),
{
    let mut v: u128 = 0;
    let mut i: usize = n;
    proof {
        lemma2_to64();
        lemma2_to64_rest();
        assert(buf@.subrange(off + n, off + n) =~= Seq::<u8>::empty());
    }
    while i > 0
        invariant
            n <= 8,
            i <= n,
            off + n <= buf.len(),
            v == le_value(buf@.subrange(off + i, off + n)),
            v <= u64::MAX,
        decreases i,
    {
        proof {
            let s = buf@.subrange(off + i - 1, off + n);
            assert(s.skip(1) =~= buf@.subrange(off + i, off + n));
            lemma_le_bound(s);
            lemma2_to64_rest();
            if 8 * s.len() < 64 {
                lemma_pow2_strictly_increases(8 * s.len(), 64);
            }
        }
        i = i - 1;
        v = v * 256 + buf[off + i] as u128;
    }
    v as u64
}

// ---------------------------------------------------------------------------
// Points
// ---------------------------------------------------------------------------

pub open spec fn point_bytes(p: GpsPoint) -> Seq<u8> {
    le_bytes(p.lat.bits as nat, 8) + le_bytes(p.lng.bits as nat, 8)
}

/// Every point's latitude and longitude bits, eight bytes each.
pub open spec fn points_blob(pts: Seq<GpsPoint>) -> Seq<u8>
    decreases pts.len(),
{
    if pts.len() == 0 {
        Seq::empty()
    } else {
        points_blob(pts.drop_last()) + point_bytes(pts.last())
    }
}

/// The points that a blob of full strides holds.
pub open spec fn blob_points(buf: Seq<u8>) -> Seq<GpsPoint> {
    Seq::new(
        buf.len() / 16,
        |i: int|
            GpsPoint {
                lat: F64 { bits: le_value(buf.subrange(16 * i, 16 * i + 8)) as u64 },
                lng: F64 { bits: le_value(buf.subrange(16 * i + 8, 16 * i + 16)) as u64 },
            },
    )
}

proof fn lemma_points_blob_len(pts: Seq<GpsPoint>)
    ensures
        points_blob(pts).len() == 16 * pts.len(),
    decreases pts.len(),
{
    if pts.len() > 0 {
        lemma_points_blob_len(pts.drop_last());
        lemma_le_len(pts.last().lat.bits as nat, 8);
        lemma_le_len(pts.last().lng.bits as nat, 8);
    }
}

/// Decoding gives back the points that were encoded, bit for bit.
pub proof fn law_points_round_trip(pts: Seq<GpsPoint>)
    ensures
        points_blob(pts).len() % 16 == 0,
        blob_points(points_blob(pts)) == pts,
    decreases pts.len(),
{
    lemma_points_blob_len(pts);
    if pts.len() == 0 {
        assert(blob_points(points_blob(pts)) =~= pts);
    } else {
        let head = pts.drop_last();
        let p = pts.last();
        let b = points_blob(pts);
        let hb = points_blob(head);
        law_points_round_trip(head);
        lemma_points_blob_len(head);
        lemma2_to64_rest();
        lemma_le_round_trip(p.lat.bits as nat, 8);
        lemma_le_round_trip(p.lng.bits as nat, 8);
        assert forall|i: int| 0 <= i < pts.len() implies blob_points(b)[i] == pts[i] by {
            if i < head.len() {
                assert(b.subrange(16 * i, 16 * i + 8) =~= hb.subrange(16 * i, 16 * i + 8));
                assert(b.subrange(16 * i + 8, 16 * i + 16) =~= hb.subrange(16 * i + 8, 16 * i + 16));
                assert(blob_points(hb)[i] == head[i]);
            } else {
                assert(b.subrange(16 * i, 16 * i + 8) =~= le_bytes(p.lat.bits as nat, 8));
                assert(b.subrange(16 * i + 8, 16 * i + 16) =~= le_bytes(p.lng.bits as nat, 8));
            }
        }
        assert(blob_points(b) =~= pts);
    }
}

/// Encoding what a whole blob holds gives the blob back, byte for byte.
pub proof fn law_point_blobs_are_kept(buf: Seq<u8>)
    requires
        buf.len() % 16 == 0,
    ensures
        points_blob(blob_points(buf)) == buf,
    decreases buf.len(),
{
    let s = blob_points(buf);
    if buf.len() == 0 {
        assert(points_blob(s) =~= buf);
    } else {
        let n = buf.len() - 16;
        let head = buf.take(n);
        let last = buf.skip(n);
        law_point_blobs_are_kept(head);
        assert forall|i: int| 0 <= i < blob_points(head).len() implies blob_points(head)[i]
            == #[trigger] s[i] by {
            assert(head.subrange(16 * i, 16 * i + 8) =~= buf.subrange(16 * i, 16 * i + 8));
            assert(head.subrange(16 * i + 8, 16 * i + 16) =~= buf.subrange(16 * i + 8, 16 * i + 16));
        }
        assert(s.drop_last() =~= blob_points(head));
        lemma2_to64();
        lemma2_to64_rest();
        let (a, b) = (buf.subrange(n, n + 8), buf.subrange(n + 8, n + 16));
        lemma_le_bound(a);
        lemma_le_bound(b);
        lemma_le_written_again(a);
        lemma_le_written_again(b);
        assert(point_bytes(s.last()) =~= last);
        assert(head + last =~= buf);
    }
}

/// Encodes points; no points at all stay none.
pub fn encode_points(pts: Option<&[GpsPoint]>) -> (r: Option<Vec<u8>>)
    ensures
        match (pts, r) {
            (Some(p), Some(b)) => b@ == points_blob(p@),
            (None, None) => true,
            _ => false,
        },
{
    let pts = match pts {
        Some(p) => p,
        None => {
            return None;
        },
    };
    let mut buf: Vec<u8> = Vec::new();
    let mut i: usize = 0;
    proof {
        assert(pts@.take(0) =~= Seq::<GpsPoint>::empty());
    }
    while i < pts.len()
        invariant
            i <= pts.len(),
            buf@ == points_blob(pts@.take(i as int)),
        decreases pts.len() - i,
    {
        let ghost before = buf@;
        put_le(&mut buf, pts[i].lat.bits, 8);
        put_le(&mut buf, pts[i].lng.bits, 8);
        proof {
            let t = pts@.take(i as int + 1);
            assert(t.drop_last() =~= pts@.take(i as int));
            assert(buf@ =~= before + point_bytes(t.last()));
        }
        i = i + 1;
    }
    proof {
        assert(pts@.take(pts@.len() as int) =~= pts@);
    }
    Some(buf)
}

/// Decodes points; a length that is no multiple of the stride is refused.
pub fn decode_points(buf: Option<&[u8]>) -> (r: Result<Option<Vec<GpsPoint>>, BlobError>)
    ensures
        match (buf, r) {
            (None, Ok(None)) => true,
            (Some(b), Ok(Some(v))) => b@.len() % 16 == 0 && v@ == blob_points(b@),
            (Some(b), Err(e)) => b@.len() % 16 != 0 && e.length == b@.len() && e.stride == 16,
            _ => false,
        },
{
    let buf = match buf {
        Some(b) => b,
        None => {
            return Ok(None);
        },
    };
    if buf.len() % POINT_STRIDE != 0 {
        return Err(BlobError { length: buf.len(), stride: POINT_STRIDE });
    }
    let n: usize = buf.len() / POINT_STRIDE;
    let mut out: Vec<GpsPoint> = Vec::new();
    let mut i: usize = 0;
    while i < n
        invariant
            i <= n,
            n == buf@.len() / 16,
            buf@.len() % 16 == 0,
            buf@.len() <= usize::MAX,
            out@ =~= blob_points(buf@).take(i as int),
        decreases n - i,
    {
        let off: usize = i * POINT_STRIDE;
        let lat: F64 = F64::from_bits(get_le(buf, off, 8));
        let lng: F64 = F64::from_bits(get_le(buf, off + 8, 8));
        out.push(GpsPoint { lat, lng });
        i = i + 1;
    }
    Ok(Some(out))
}

// ---------------------------------------------------------------------------
// Bytes
// ---------------------------------------------------------------------------

/// Encodes a byte array as itself.
pub fn encode_u8s(s: Option<&[u8]>) -> (r: Option<Vec<u8>>)
    ensures
        match (s, r) {
            (Some(b), Some(v)) => v@ == b@,
            (None, None) => true,
            _ => false,
        },
{
    match s {
        Some(b) => {
            proof {
                assert(b@.subrange(0, b@.len() as int) =~= b@);
            }
            Some(copy_range(b, 0, b.len()))
        },
        None => None,
    }
}

/// Decodes a byte array as itself.
pub fn decode_u8s(buf: Option<&[u8]>) -> (r: Option<Vec<u8>>)
    ensures
        match (buf, r) {
            (Some(b), Some(v)) => v@ == b@,
            (None, None) => true,
            _ => false,
        },
{
    encode_u8s(buf)
}

// ---------------------------------------------------------------------------
// binary32 arrays
// ---------------------------------------------------------------------------

/// Every value's bits, four bytes each.
pub open spec fn f32s_blob(s: Seq<F32>) -> Seq<u8>
    decreases s.len(),
{
    if s.len() == 0 {
        Seq::empty()
    } else {
        f32s_blob(s.drop_last()) + le_bytes(s.last().bits as nat, 4)
    }
}

pub open spec fn blob_f32s(buf: Seq<u8>) -> Seq<F32> {
    Seq::new(
        buf.len() / 4,
        |i: int| F32 { bits: le_value(buf.subrange(4 * i, 4 * i + 4)) as u32 },
    )
}

proof fn lemma_f32s_blob_len(s: Seq<F32>)
    ensures
        f32s_blob(s).len() == 4 * s.len(),
    decreases s.len(),
{
    if s.len() > 0 {
        lemma_f32s_blob_len(s.drop_last());
        lemma_le_len(s.last().bits as nat, 4);
    }
}

/// Decoding gives back the values that were encoded, bit for bit.
pub proof fn law_f32s_round_trip(s: Seq<F32>)
    ensures
        f32s_blob(s).len() % 4 == 0,
        blob_f32s(f32s_blob(s)) == s,
    decreases s.len(),
{
    lemma_f32s_blob_len(s);
    if s.len() == 0 {
        assert(blob_f32s(f32s_blob(s)) =~= s);
    } else {
        let head = s.drop_last();
        let b = f32s_blob(s);
        let hb = f32s_blob(head);
        law_f32s_round_trip(head);
        lemma_f32s_blob_len(head);
        lemma2_to64();
        lemma_le_round_trip(s.last().bits as nat, 4);
        assert forall|i: int| 0 <= i < s.len() implies blob_f32s(b)[i] == s[i] by {
            if i < head.len() {
                assert(b.subrange(4 * i, 4 * i + 4) =~= hb.subrange(4 * i, 4 * i + 4));
                assert(blob_f32s(hb)[i] == head[i]);
            } else {
                assert(b.subrange(4 * i, 4 * i + 4) =~= le_bytes(s.last().bits as nat, 4));
            }
        }
        assert(blob_f32s(b) =~= s);
    }
}

/// Encoding what a whole blob holds gives the blob back, byte for byte.
pub proof fn law_f32_blobs_are_kept(buf: Seq<u8>)
    requires
        buf.len() % 4 == 0,
    ensures
        f32s_blob(blob_f32s(buf)) == buf,
    decreases buf.len(),
{
    let s = blob_f32s(buf);
    if buf.len() == 0 {
        assert(f32s_blob(s) =~= buf);
    } else {
        let n = buf.len() - 4;
        let head = buf.take(n);
        let last = buf.skip(n);
        law_f32_blobs_are_kept(head);
        assert forall|i: int| 0 <= i < blob_f32s(head).len() implies blob_f32s(head)[i]
            == #[trigger] s[i] by {
            assert(head.subrange(4 * i, 4 * i + 4) =~= buf.subrange(4 * i, 4 * i + 4));
        }
        assert(s.drop_last() =~= blob_f32s(head));
        lemma2_to64();
        lemma2_to64_rest();
        let a = buf.subrange(n, n + 4);
        lemma_le_bound(a);
        lemma_le_written_again(a);
        assert(le_bytes(s.last().bits as nat, 4) =~= last);
        assert(head + last =~= buf);
    }
}

pub fn encode_f32s(s: Option<&[F32]>) -> (r: Option<Vec<u8>>)
    ensures
        match (s, r) {
            (Some(p), Some(b)) => b@ == f32s_blob(p@),
            (None, None) => true,
            _ => false,
        },
{
    let s = match s {
        Some(p) => p,
        None => {
            return None;
        },
    };
    let mut buf: Vec<u8> = Vec::new();
    let mut i: usize = 0;
    proof {
        assert(s@.take(0) =~= Seq::<F32>::empty());
    }
    while i < s.len()
        invariant
            i <= s.len(),
            buf@ == f32s_blob(s@.take(i as int)),
        decreases s.len() - i,
    {
        let ghost before = buf@;
        put_le(&mut buf, s[i].bits as u64, 4);
        proof {
            let t = s@.take(i as int + 1);
            assert(t.drop_last() =~= s@.take(i as int));
        }
        i = i + 1;
    }
    proof {
        assert(s@.take(s@.len() as int) =~= s@);
    }
    Some(buf)
}

pub fn decode_f32s(buf: Option<&[u8]>) -> (r: Result<Option<Vec<F32>>, BlobError>)
    ensures
        match (buf, r) {
            (None, Ok(None)) => true,
            (Some(b), Ok(Some(v))) => b@.len() % 4 == 0 && v@ == blob_f32s(b@),
            (Some(b), Err(e)) => b@.len() % 4 != 0 && e.length == b@.len() && e.stride == 4,
            _ => false,
        },
{
    let buf = match buf {
        Some(b) => b,
        None => {
            return Ok(None);
        },
    };
    if buf.len() % F32_STRIDE != 0 {
        return Err(BlobError { length: buf.len(), stride: F32_STRIDE });
    }
    let n: usize = buf.len() / F32_STRIDE;
    let mut out: Vec<F32> = Vec::new();
    let mut i: usize = 0;
    while i < n
        invariant
            i <= n,
            n == buf@.len() / 4,
            buf@.len() % 4 == 0,
            buf@.len() <= usize::MAX,
            out@ =~= blob_f32s(buf@).take(i as int),
        decreases n - i,
    {
        let v: u64 = get_le(buf, i * F32_STRIDE, 4);
        proof {
            lemma2_to64();
            lemma_le_bound(buf@.subrange(4 * i, 4 * i + 4));
        }
        out.push(F32::from_bits(v as u32));
        i = i + 1;
    }
    Ok(Some(out))
}

// ---------------------------------------------------------------------------
// Gear runs
// ---------------------------------------------------------------------------

pub open spec fn gear_run_bytes(r: GearRun) -> Seq<u8> {
    seq![r.gear] + le_bytes(r.frames as nat, 4)
}

/// Every run's gear byte and frame count in four bytes.
pub open spec fn gear_runs_blob(s: Seq<GearRun>) -> Seq<u8>
    decreases s.len(),
{
    if s.len() == 0 {
        Seq::empty()
    } else {
        gear_runs_blob(s.drop_last()) + gear_run_bytes(s.last())
    }
}

pub open spec fn blob_gear_runs(buf: Seq<u8>) -> Seq<GearRun> {
    Seq::new(
        buf.len() / 5,
        |i: int|
            GearRun {
                gear: buf[5 * i],
                frames: le_value(buf.subrange(5 * i + 1, 5 * i + 5)) as u32,
            },
    )
}

proof fn lemma_gear_runs_blob_len(s: Seq<GearRun>)
    ensures
        gear_runs_blob(s).len() == 5 * s.len(),
    decreases s.len(),
{
    if s.len() > 0 {
        lemma_gear_runs_blob_len(s.drop_last());
        lemma_le_len(s.last().frames as nat, 4);
    }
}

/// Decoding gives back the runs that were encoded.
pub proof fn law_gear_runs_round_trip(s: Seq<GearRun>)
    ensures
        gear_runs_blob(s).len() % 5 == 0,
        blob_gear_runs(gear_runs_blob(s)) == s,
    decreases s.len(),
{
    lemma_gear_runs_blob_len(s);
    if s.len() == 0 {
        assert(blob_gear_runs(gear_runs_blob(s)) =~= s);
    } else {
        let head = s.drop_last();
        let b = gear_runs_blob(s);
        let hb = gear_runs_blob(head);
        law_gear_runs_round_trip(head);
        lemma_gear_runs_blob_len(head);
        lemma2_to64();
        lemma_le_round_trip(s.last().frames as nat, 4);
        assert forall|i: int| 0 <= i < s.len() implies blob_gear_runs(b)[i] == s[i] by {
            if i < head.len() {
                assert(b.subrange(5 * i + 1, 5 * i + 5) =~= hb.subrange(5 * i + 1, 5 * i + 5));
                assert(b[5 * i] == hb[5 * i]);
                assert(blob_gear_runs(hb)[i] == head[i]);
            } else {
                assert(b.subrange(5 * i + 1, 5 * i + 5) =~= le_bytes(s.last().frames as nat, 4));
            }
        }
        assert(blob_gear_runs(b) =~= s);
    }
}

/// Encoding what a whole blob holds gives the blob back, byte for byte.
pub proof fn law_gear_run_blobs_are_kept(buf: Seq<u8>)
    requires
        buf.len() % 5 == 0,
    ensures
        gear_runs_blob(blob_gear_runs(buf)) == buf,
    decreases buf.len(),
{
    let s = blob_gear_runs(buf);
    if buf.len() == 0 {
        assert(gear_runs_blob(s) =~= buf);
    } else {
        let n = buf.len() - 5;
        let head = buf.take(n);
        let last = buf.skip(n);
        law_gear_run_blobs_are_kept(head);
        assert forall|i: int| 0 <= i < blob_gear_runs(head).len() implies blob_gear_runs(head)[i]
            == #[trigger] s[i] by {
            assert(head.subrange(5 * i + 1, 5 * i + 5) =~= buf.subrange(5 * i + 1, 5 * i + 5));
            assert(head[5 * i] == buf[5 * i]);
        }
        assert(s.drop_last() =~= blob_gear_runs(head));
        lemma2_to64();
        lemma2_to64_rest();
        let a = buf.subrange(n + 1, n + 5);
        lemma_le_bound(a);
        lemma_le_written_again(a);
        assert(gear_run_bytes(s.last()) =~= last);
        assert(head + last =~= buf);
    }
}

pub fn encode_gear_runs(runs: Option<&[GearRun]>) -> (r: Option<Vec<u8>>)
    ensures
        match (runs, r) {
            (Some(p), Some(b)) => b@ == gear_runs_blob(p@),
            (None, None) => true,
            _ => false,
        },
{
    let runs = match runs {
        Some(p) => p,
        None => {
            return None;
        },
    };
    let mut buf: Vec<u8> = Vec::new();
    let mut i: usize = 0;
    proof {
        assert(runs@.take(0) =~= Seq::<GearRun>::empty());
    }
    while i < runs.len()
        invariant
            i <= runs.len(),
            buf@ == gear_runs_blob(runs@.take(i as int)),
        decreases runs.len() - i,
    {
        let ghost before = buf@;
        buf.push(runs[i].gear);
        put_le(&mut buf, runs[i].frames as u64, 4);
        proof {
            let t = runs@.take(i as int + 1);
            assert(t.drop_last() =~= runs@.take(i as int));
            assert(buf@ =~= before + gear_run_bytes(t.last()));
        }
        i = i + 1;
    }
    proof {
        assert(runs@.take(runs@.len() as int) =~= runs@);
    }
    Some(buf)
}

pub fn decode_gear_runs(buf: Option<&[u8]>) -> (r: Result<Option<Vec<GearRun>>, BlobError>)
    ensures
        match (buf, r) {
            (None, Ok(None)) => true,
            (Some(b), Ok(Some(v))) => b@.len() % 5 == 0 && v@ == blob_gear_runs(b@),
            (Some(b), Err(e)) => b@.len() % 5 != 0 && e.length == b@.len() && e.stride == 5,
            _ => false,
        },
{
    let buf = match buf {
        Some(b) => b,
        None => {
            return Ok(None);
        },
    };
    if buf.len() % GEAR_RUN_STRIDE != 0 {
        return Err(BlobError { length: buf.len(), stride: GEAR_RUN_STRIDE });
    }
    let n: usize = buf.len() / GEAR_RUN_STRIDE;
    let mut out: Vec<GearRun> = Vec::new();
    let mut i: usize = 0;
    while i < n
        invariant
            i <= n,
            n == buf@.len() / 5,
            buf@.len() % 5 == 0,
            buf@.len() <= usize::MAX,
            out@ =~= blob_gear_runs(buf@).take(i as int),
        decreases n - i,
    {
        let off: usize = i * GEAR_RUN_STRIDE;
        let frames: u64 = get_le(buf, off + 1, 4);
        proof {
            lemma2_to64();
            lemma_le_bound(buf@.subrange(5 * i + 1, 5 * i + 5));
        }
        out.push(GearRun { gear: buf[off], frames: frames as u32 });
        i = i + 1;
    }
    Ok(Some(out))
}

} // verus!
