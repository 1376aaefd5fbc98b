//! One drive in full: its line, its figures and what the driver did.

use crate::aggregate::{count_where, peak_where, sum_where};
use crate::analytics::held64;
use crate::calc::{MPS_TO_KMH, MPS_TO_MPH, M_PER_MILE, lit, round2, rounded2};
use crate::clock::{
    clip_stamp, epoch_ms, format_stamp, iso_moment, move_by, parse_clip_timestamp,
    parse_iso_moment, shifted, span, span_ms, stamp_text, to_epoch_ms,
};
use crate::float::{
    F32, F64, fadd, fdiv, fle, flt, flt32, fmin, fmul, from_int, fsub, to_int, widen, zero,
};
use crate::grouper::{Piece, gear_split, piece_fits, pieces_fit, routes_fit, split_by_gear_state};
use crate::summary::{
    compute_autopilot_percents, copy_text, find_tags, held32, hold32, hold64, percent_of,
    tags_under, text_view, texts,
};
use crate::timeline::{Timed, in_time, indices_below, put_in_time, views};
use crate::track::{
    Located, clean_track, drop_null_island, hops_along, is_cleaned, measure_hops, real_spots,
};
use crate::types::{
    AUTOPILOT_AUTOSTEER, AUTOPILOT_FSD, AUTOPILOT_OFF, AUTOPILOT_TACC, Drive, DrivePoint, FsdEvent,
    GEAR_PARK, GpsPoint, Route, TagEntry,
};
use vstd::prelude::*;

verus! {

/// One telemetry sample of a drive.
#[derive(Clone, Copy, Debug, PartialEq, Eq, Structural)]
pub struct Sample {
    pub lat: F64,
    pub lng: F64,
    pub time_ms: F64,
    pub autopilot: u8,
    pub gear: u8,
    pub speed: F32,
    pub accel: F32,
}

impl Located for Sample {
    open spec fn spot(&self) -> GpsPoint {
        GpsPoint { lat: self.lat, lng: self.lng }
    }

    fn position(&self) -> (p: GpsPoint) {
        GpsPoint { lat: self.lat, lng: self.lng }
    }
}

// ---------------------------------------------------------------------------
// Samples of the pieces
// ---------------------------------------------------------------------------

/// A column of the clip, of length `n`, tells of every point of the piece.
pub open spec fn column_covers(r: Route, p: Piece, n: int) -> bool {
    if p.whole {
        n == r.points@.len()
    } else {
        n >= p.end
    }
}

/// Time of point `i` of the piece, spread over a one-minute clip.
pub open spec fn point_time(p: Piece, i: int) -> F64 {
    let n = p.end - p.start;
    if n > 1 {
        fadd(from_int(epoch_ms(p.ts as int)), fdiv(fmul(from_int(60_000), from_int(i)), from_int(n - 1)))
    } else {
        from_int(epoch_ms(p.ts as int))
    }
}

/// Sample of point `i` of the piece; what no column tells is zero.
pub open spec fn sample_of(r: Route, p: Piece, i: int) -> Sample {
    let k = p.start + i;
    Sample {
        lat: r.points@[k].lat,
        lng: r.points@[k].lng,
        time_ms: point_time(p, i),
        autopilot: if column_covers(r, p, r.autopilot_states@.len() as int) {
            r.autopilot_states@[k]
        } else {
            0
        },
        gear: if column_covers(r, p, r.gear_states@.len() as int) {
            r.gear_states@[k]
        } else {
            0
        },
        speed: if column_covers(r, p, r.speeds@.len() as int) {
            r.speeds@[k]
        } else {
            F32 { bits: 0 }
        },
        accel: if column_covers(r, p, r.accel_positions@.len() as int) {
            r.accel_positions@[k]
        } else {
            F32 { bits: 0 }
        },
    }
}

/// Samples of one piece.
pub open spec fn piece_samples(r: Route, p: Piece) -> Seq<Sample> {
    Seq::new((p.end - p.start) as nat, |i: int| sample_of(r, p, i))
}

/// Samples of the first `n` pieces.
pub open spec fn samples_of(routes: Seq<Route>, ps: Seq<Piece>, n: int) -> Seq<Sample>
    decreases n,
{
    if n <= 0 {
        Seq::empty()
    } else {
        samples_of(routes, ps, n - 1) + piece_samples(routes[ps[n - 1].route as int], ps[n - 1])
    }
}

fn covers_column(r: &Route, p: Piece, n: usize) -> (b: bool)
    ensures
        b == column_covers(*r, p, n as int),
{
    if p.whole {
        n == r.points.len()
    } else {
        n >= p.end
    }
}

fn build_sample(r: &Route, p: Piece, i: usize) -> (s: Sample)
    requires
        p.start + i < p.end <= r.points@.len(),
        p.whole ==> p.start == 0 && p.end == r.points@.len(),
    ensures
        s == sample_of(*r, p, i as int),
{
    let k: usize = p.start + i;
    let n: usize = p.end - p.start;
    let base: F64 = F64::of_i64(to_epoch_ms(p.ts));
    let time_ms: F64 = if n > 1 {
        base.plus(F64::of_u64(60_000).times(F64::of_usize(i)).over(F64::of_usize(n - 1)))
    } else {
        base
    };
    Sample {
        lat: r.points[k].lat,
        lng: r.points[k].lng,
        time_ms,
        autopilot: if covers_column(r, p, r.autopilot_states.len()) {
            r.autopilot_states[k]
        } else {
            0
        },
        gear: if covers_column(r, p, r.gear_states.len()) {
            r.gear_states[k]
        } else {
            0
        },
        speed: if covers_column(r, p, r.speeds.len()) {
            r.speeds[k]
        } else {
            F32::from_bits(0)
        },
        accel: if covers_column(r, p, r.accel_positions.len()) {
            r.accel_positions[k]
        } else {
            F32::from_bits(0)
        },
    }
}

/// Samples of all pieces, in order.
pub fn merge_samples(routes: &[Route], ps: &[Piece]) -> (r: Vec<Sample>)
    requires
        pieces_fit(routes@, ps@),
    ensures
        r@ == samples_of(routes@, ps@, ps@.len() as int),
{
    let mut out: Vec<Sample> = Vec::new();
    let mut m: usize = 0;
    while m < ps.len()
        invariant
            m <= ps@.len(),
            pieces_fit(routes@, ps@),
            out@ == samples_of(routes@, ps@, m as int),
        decreases ps.len() - m,
    {
        let p: Piece = ps[m];
        proof {
            assert(piece_fits(routes@, ps@[m as int]));
        }
        let ghost before = out@;
        let ghost r = routes@[p.route as int];
        let n: usize = p.end - p.start;
        let mut i: usize = 0;
        proof {
            assert(out@ =~= before + piece_samples(r, p).take(0));
        }
        while i < n
            invariant
                i <= n,
                n == p.end - p.start,
                p.route < routes@.len(),
                r == routes@[p.route as int],
                piece_fits(routes@, p),
                out@ == before + piece_samples(r, p).take(i as int),
            decreases n - i,
        {
            out.push(build_sample(&routes[p.route], p, i));
            i = i + 1;
            proof {
                assert(out@ =~= before + piece_samples(r, p).take(i as int));
            }
        }
        proof {
            assert(piece_samples(r, p).take(n as int) =~= piece_samples(r, p));
        }
        m = m + 1;
    }
    out
}

// ---------------------------------------------------------------------------
// Distance and speed
// ---------------------------------------------------------------------------

/// Some sample carries a speed.
pub open spec fn speeds_recorded(pts: Seq<Sample>) -> bool {
    exists|i: int| 0 <= i < pts.len() && flt32(F32 { bits: 0 }, (#[trigger] pts[i]).speed)
}

/// Seconds from sample `i - 1` to sample `i`.
pub open spec fn step_seconds(pts: Seq<Sample>, i: int) -> F64 {
    fdiv(fsub(pts[i].time_ms, pts[i - 1].time_ms), from_int(1000))
}

/// Speed at sample `i`: recorded, or from the distance to the one before.
pub open spec fn pace(pts: Seq<Sample>, hops: Seq<F64>) -> spec_fn(int) -> F64 {
    |i: int|
        if speeds_recorded(pts) {
            widen(pts[i].speed)
        } else {
            fdiv(hops[i], step_seconds(pts, i))
        }
}

/// That speed is believable.
pub open spec fn pace_counts(pts: Seq<Sample>, hops: Seq<F64>) -> spec_fn(int) -> bool {
    |i: int|
        if speeds_recorded(pts) {
            fle(zero(), pace(pts, hops)(i)) && flt(pace(pts, hops)(i), from_int(100))
        } else {
            flt(zero(), step_seconds(pts, i)) && flt(pace(pts, hops)(i), from_int(70))
        }
}

pub open spec fn hop_lengths(hops: Seq<F64>) -> spec_fn(int) -> F64 {
    |i: int| hops[i]
}

/// Steps that end in `mode`; all steps for `None`.
pub open spec fn ends_in(pts: Seq<Sample>, mode: Option<u8>) -> spec_fn(int) -> bool {
    |i: int|
        match mode {
            Some(m) => pts[i].autopilot == m,
            None => true,
        }
}

/// Steps that end with any assistance.
pub open spec fn ends_assisted(pts: Seq<Sample>) -> spec_fn(int) -> bool {
    |i: int| pts[i].autopilot != AUTOPILOT_OFF
}

/// Metres of the whole drive, or of the steps that end in `mode`.
pub open spec fn metres_in(pts: Seq<Sample>, hops: Seq<F64>, mode: Option<u8>) -> F64 {
    sum_where(hop_lengths(hops), ends_in(pts, mode), pts.len() as int)
}

/// Milliseconds of a step, cut towards zero.
pub open spec fn step_length(pts: Seq<Sample>, i: int) -> int {
    to_int(fsub(pts[i].time_ms, pts[i - 1].time_ms), i64::MIN as int, i64::MAX as int)
}

/// Milliseconds of the first `n` samples' steps that end in `mode`.
pub open spec fn ms_in(pts: Seq<Sample>, mode: u8, n: int) -> int
    decreases n,
{
    if n <= 1 {
        0
    } else if pts[n - 1].autopilot == mode {
        ms_in(pts, mode, n - 1) + step_length(pts, n - 1)
    } else {
        ms_in(pts, mode, n - 1)
    }
}

pub open spec fn mean_pace(pts: Seq<Sample>, hops: Seq<F64>) -> F64 {
    let n = pts.len() as int;
    if count_where(pace_counts(pts, hops), n) > 0 {
        fdiv(
            sum_where(pace(pts, hops), pace_counts(pts, hops), n),
            from_int(count_where(pace_counts(pts, hops), n) as int),
        )
    } else {
        zero()
    }
}

pub open spec fn top_pace(pts: Seq<Sample>, hops: Seq<F64>) -> F64 {
    peak_where(pace(pts, hops), pace_counts(pts, hops), pts.len() as int)
}

fn any_speed(pts: &Vec<Sample>) -> (b: bool)
    ensures
        b == speeds_recorded(pts@),
{
    let none: F32 = F32::from_bits(0);
    let mut i: usize = 0;
    while i < pts.len()
        invariant
            i <= pts@.len(),
            none == (F32 { bits: 0 }),
            forall|k: int| 0 <= k < i ==> !flt32(F32 { bits: 0 }, (#[trigger] pts@[k]).speed),
        decreases pts.len() - i,
    {
        if none.lt(pts[i].speed) {
            proof {
                assert(flt32(F32 { bits: 0 }, pts@[i as int].speed));
            }
            return true;
        }
        i = i + 1;
    }
    false
}

/// Sum, count and greatest of the believable speeds.
struct Paces {
    sum: F64,
    count: usize,
    top: F64,
}

fn add_paces(pts: &Vec<Sample>, hops: &Vec<F64>, recorded: bool) -> (r: Paces)
    requires
        hops@.len() == pts@.len(),
        recorded == speeds_recorded(pts@),
    ensures
        r.sum == sum_where(pace(pts@, hops@), pace_counts(pts@, hops@), pts@.len() as int),
        r.count == count_where(pace_counts(pts@, hops@), pts@.len() as int),
        r.top == top_pace(pts@, hops@),
{
    let ghost v = pace(pts@, hops@);
    let ghost keep = pace_counts(pts@, hops@);
    let mut sum: F64 = F64::from_bits(0);
    let mut top: F64 = F64::from_bits(0);
    let mut count: usize = 0;
    let mut i: usize = 1;
    let n: usize = pts.len();
    while i < n
        invariant
            1 <= i,
            i <= n || (i == 1 && n == 0),
            n == pts@.len(),
            hops@.len() == n,
            recorded == speeds_recorded(pts@),
            v == pace(pts@, hops@),
            keep == pace_counts(pts@, hops@),
            sum == sum_where(v, keep, i as int),
            count == count_where(keep, i as int),
            count <= i,
            top == peak_where(v, keep, i as int),
        decreases n - i,
    {
        if recorded {
            let speed: F64 = pts[i].speed.to_f64();
            if F64::from_bits(0).le(speed) && speed.lt(F64::of_u64(100)) {
                sum = sum.plus(speed);
                count = count + 1;
                if top.lt(speed) {
                    top = speed;
                }
            }
        } else {
            let dt: F64 = pts[i].time_ms.minus(pts[i - 1].time_ms).over(F64::of_u64(1000));
            if F64::from_bits(0).lt(dt) {
                let speed: F64 = hops[i].over(dt);
                if speed.lt(F64::of_u64(70)) {
                    sum = sum.plus(speed);
                    count = count + 1;
                    if top.lt(speed) {
                        top = speed;
                    }
                }
            }
        }
        i = i + 1;
    }
    Paces { sum, count, top }
}

fn add_metres(pts: &Vec<Sample>, hops: &Vec<F64>, mode: Option<u8>) -> (r: F64)
    requires
        hops@.len() == pts@.len(),
    ensures
        r == metres_in(pts@, hops@, mode),
{
    let ghost v = hop_lengths(hops@);
    let ghost keep = ends_in(pts@, mode);
    let mut sum: F64 = F64::from_bits(0);
    let mut i: usize = 1;
    let n: usize = pts.len();
    while i < n
        invariant
            1 <= i,
            i <= n || (i == 1 && n == 0),
            n == pts@.len(),
            hops@.len() == n,
            v == hop_lengths(hops@),
            keep == ends_in(pts@, mode),
            sum == sum_where(v, keep, i as int),
        decreases n - i,
    {
        let here: bool = match mode {
            Some(m) => pts[i].autopilot == m,
            None => true,
        };
        if here {
            sum = sum.plus(hops[i]);
        }
        i = i + 1;
    }
    sum
}

fn add_assisted(pts: &Vec<Sample>, hops: &Vec<F64>) -> (r: F64)
    requires
        hops@.len() == pts@.len(),
    ensures
        r == sum_where(hop_lengths(hops@), ends_assisted(pts@), pts@.len() as int),
{
    let ghost v = hop_lengths(hops@);
    let ghost keep = ends_assisted(pts@);
    let mut sum: F64 = F64::from_bits(0);
    let mut i: usize = 1;
    let n: usize = pts.len();
    while i < n
        invariant
            1 <= i,
            i <= n || (i == 1 && n == 0),
            n == pts@.len(),
            hops@.len() == n,
            v == hop_lengths(hops@),
            keep == ends_assisted(pts@),
            sum == sum_where(v, keep, i as int),
        decreases n - i,
    {
        if pts[i].autopilot != AUTOPILOT_OFF {
            sum = sum.plus(hops[i]);
        }
        i = i + 1;
    }
    sum
}

fn add_ms(pts: &Vec<Sample>, mode: u8) -> (r: i64)
    ensures
        r == hold64(ms_in(pts@, mode, pts@.len() as int)),
{
    let mut sum: i128 = 0;
    let mut i: usize = 1;
    let n: usize = pts.len();
    while i < n
        invariant
            1 <= i,
            i <= n || (i == 1 && n == 0),
            n == pts@.len(),
            sum == ms_in(pts@, mode, i as int),
            -0x8000_0000_0000_0000 * i <= sum <= 0x8000_0000_0000_0000 * i,
        decreases n - i,
    {
        if pts[i].autopilot == mode {
            let dt: i64 = pts[i].time_ms.minus(pts[i - 1].time_ms).to_i64();
            sum = sum + dt as i128;
        }
        i = i + 1;
    }
    held64(sum)
}

// ---------------------------------------------------------------------------
// The line
// ---------------------------------------------------------------------------

/// Speed shown at sample `i`.
pub open spec fn shown_speed(pts: Seq<Sample>, hops: Seq<F64>, i: int) -> F64 {
    if speeds_recorded(pts) {
        widen(pts[i].speed)
    } else if i > 0 && flt(zero(), step_seconds(pts, i)) {
        fmin(fdiv(hops[i], step_seconds(pts, i)), from_int(70))
    } else {
        zero()
    }
}

/// The line of the drive, timed from its start.
pub open spec fn line_of(pts: Seq<Sample>, hops: Seq<F64>, start: int) -> Seq<DrivePoint> {
    Seq::new(
        pts.len(),
        |i: int|
            DrivePoint {
                lat: pts[i].lat,
                lng: pts[i].lng,
                time_ms: fsub(pts[i].time_ms, from_int(start)),
                speed_mps: rounded2(shown_speed(pts, hops, i)),
            },
    )
}

/// A per-sample column; empty where it never leaves zero.
pub open spec fn states(codes: Seq<u8>) -> Seq<i32> {
    if exists|i: int| 0 <= i < codes.len() && #[trigger] codes[i] != 0 {
        Seq::new(codes.len(), |i: int| codes[i] as i32)
    } else {
        Seq::empty()
    }
}

pub open spec fn gears(pts: Seq<Sample>) -> Seq<u8> {
    Seq::new(pts.len(), |i: int| pts[i].gear)
}

pub open spec fn autopilots(pts: Seq<Sample>) -> Seq<u8> {
    Seq::new(pts.len(), |i: int| pts[i].autopilot)
}

/// Some sample was assisted.
pub open spec fn any_assisted(pts: Seq<Sample>) -> bool {
    exists|i: int| 0 <= i < pts.len() && (#[trigger] pts[i]).autopilot != AUTOPILOT_OFF
}

fn build_line(pts: &Vec<Sample>, hops: &Vec<F64>, recorded: bool, start: i64) -> (r: Vec<DrivePoint>)
    requires
        hops@.len() == pts@.len(),
        recorded == speeds_recorded(pts@),
    ensures
        r@ == line_of(pts@, hops@, start as int),
{
    let base: F64 = F64::of_i64(start);
    let mut out: Vec<DrivePoint> = Vec::new();
    let mut i: usize = 0;
    while i < pts.len()
        invariant
            i <= pts@.len(),
            hops@.len() == pts@.len(),
            recorded == speeds_recorded(pts@),
            base == from_int(start as int),
            out@ =~= line_of(pts@, hops@, start as int).take(i as int),
        decreases pts.len() - i,
    {
        let speed: F64 = if recorded {
            pts[i].speed.to_f64()
        } else if i > 0 {
            let dt: F64 = pts[i].time_ms.minus(pts[i - 1].time_ms).over(F64::of_u64(1000));
            if F64::from_bits(0).lt(dt) {
                hops[i].over(dt).min(F64::of_u64(70))
            } else {
                F64::from_bits(0)
            }
        } else {
            F64::from_bits(0)
        };
        out.push(
            DrivePoint {
                lat: pts[i].lat,
                lng: pts[i].lng,
                time_ms: pts[i].time_ms.minus(base),
                speed_mps: round2(speed),
            },
        );
        i = i + 1;
    }
    proof {
        assert(out@ =~= line_of(pts@, hops@, start as int));
    }
    out
}

fn build_states(pts: &Vec<Sample>, gear: bool) -> (r: Vec<i32>)
    ensures
        r@ == states(
            if gear {
                gears(pts@)
            } else {
                autopilots(pts@)
            },
        ),
{
    let ghost codes = if gear {
        gears(pts@)
    } else {
        autopilots(pts@)
    };
    let mut out: Vec<i32> = Vec::new();
    let mut any: bool = false;
    let mut i: usize = 0;
    while i < pts.len()
        invariant
            i <= pts@.len(),
            codes == if gear {
                gears(pts@)
            } else {
                autopilots(pts@)
            },
            out@.len() == i,
            forall|k: int| 0 <= k < i ==> #[trigger] out@[k] == codes[k] as i32,
            any ==> exists|k: int| 0 <= k < codes.len() && #[trigger] codes[k] != 0,
            !any ==> forall|k: int| 0 <= k < i ==> #[trigger] codes[k] == 0,
        decreases pts.len() - i,
    {
        let code: u8 = if gear {
            pts[i].gear
        } else {
            pts[i].autopilot
        };
        proof {
            assert(code == codes[i as int]);
        }
        out.push(code as i32);
        if code != 0 {
            any = true;
        }
        i = i + 1;
    }
    if any {
        proof {
            assert(out@ =~= states(codes));
        }
        out
    } else {
        let none: Vec<i32> = Vec::new();
        proof {
            assert(none@ =~= states(codes));
        }
        none
    }
}

// ---------------------------------------------------------------------------
// What the driver did
// ---------------------------------------------------------------------------

/// An event: what it was and where.
#[derive(Clone, Copy, Debug, PartialEq, Eq, Structural)]
pub struct FsdMark {
    /// A disengagement; else a push of the pedal.
    pub disengagement: bool,
    pub at: GpsPoint,
}

/// Where the walk over a drive's samples stands.
pub struct DriveWalk {
    /// Time of the last engagement; zero before the first.
    pub engaged: F64,
    /// A disengagement not yet decided: its time and place.
    pub pending: Option<(F64, GpsPoint)>,
    /// Where the push under way began.
    pub pressing: Option<GpsPoint>,
    pub marks: Seq<FsdMark>,
}

/// Pedal position in percent; fractions are scaled up.
pub open spec fn pedal_percent(accel: F32) -> F64 {
    let v = widen(accel);
    if fle(v, from_int(1)) {
        fmul(v, from_int(100))
    } else {
        v
    }
}

/// A pending disengagement at `cur`: Park within two seconds cancels it, two
/// seconds or a new engagement decide it.
pub open spec fn decide(w: DriveWalk, cur: Sample) -> DriveWalk {
    match w.pending {
        None => w,
        Some((t, at)) => {
            let since = fsub(cur.time_ms, t);
            if cur.gear == GEAR_PARK && fle(since, from_int(2000)) {
                DriveWalk { pending: None, ..w }
            } else if flt(from_int(2000), since) || cur.autopilot == AUTOPILOT_FSD {
                DriveWalk {
                    pending: None,
                    marks: w.marks.push(FsdMark { disengagement: true, at }),
                    ..w
                }
            } else {
                w
            }
        },
    }
}

/// Engagement and disengagement from `prev` to `cur`.
pub open spec fn switch(w: DriveWalk, prev: Sample, cur: Sample) -> DriveWalk {
    let before = prev.autopilot == AUTOPILOT_FSD;
    let now = cur.autopilot == AUTOPILOT_FSD;
    if !before && now {
        DriveWalk { engaged: cur.time_ms, pressing: None, ..w }
    } else if before && !now {
        DriveWalk { pending: Some((cur.time_ms, cur.spot())), pressing: None, ..w }
    } else {
        w
    }
}

/// The pedal at `cur`: a push begins three seconds after engaging or later, and
/// counts when the pedal is released.
pub open spec fn push_pedal(w: DriveWalk, cur: Sample) -> DriveWalk {
    let pct = pedal_percent(cur.accel);
    let pressing = if cur.autopilot == AUTOPILOT_FSD && w.pressing is None && flt(from_int(1), pct)
        && fle(from_int(3000), fsub(cur.time_ms, w.engaged)) {
        Some(cur.spot())
    } else {
        w.pressing
    };
    match pressing {
        Some(at) if fle(pct, zero()) => DriveWalk {
            pressing: None,
            marks: w.marks.push(FsdMark { disengagement: false, at }),
            ..w
        },
        _ => DriveWalk { pressing, ..w },
    }
}

/// The walk over the first `n` samples.
pub open spec fn walk_drive(pts: Seq<Sample>, n: int) -> DriveWalk
    decreases n,
{
    if n <= 1 {
        DriveWalk { engaged: zero(), pending: None, pressing: None, marks: Seq::empty() }
    } else {
        push_pedal(
            switch(decide(walk_drive(pts, n - 1), pts[n - 1]), pts[n - 2], pts[n - 1]),
            pts[n - 1],
        )
    }
}

/// All events: a disengagement still open at the end counts unless the car is
/// parked there.
pub open spec fn marks_of(pts: Seq<Sample>) -> Seq<FsdMark> {
    if !any_assisted(pts) || pts.len() <= 1 {
        Seq::empty()
    } else {
        let w = walk_drive(pts, pts.len() as int);
        match w.pending {
            Some((_, at)) if pts.last().gear != GEAR_PARK => w.marks.push(
                FsdMark { disengagement: true, at },
            ),
            _ => w.marks,
        }
    }
}

/// How many of the first `n` events are disengagements, or pushes.
pub open spec fn mark_count(marks: Seq<FsdMark>, disengagement: bool, n: int) -> int
    decreases n,
{
    if n <= 0 {
        0
    } else if marks[n - 1].disengagement == disengagement {
        mark_count(marks, disengagement, n - 1) + 1
    } else {
        mark_count(marks, disengagement, n - 1)
    }
}

/// `e` tells of `m`.
pub open spec fn is_event_of(e: FsdEvent, m: FsdMark) -> bool {
    &&& e.lat == m.at.lat
    &&& e.lng == m.at.lng
    &&& e.event_type@ == if m.disengagement {
        "disengagement"@
    } else {
        "accel_push"@
    }
}

fn find_assisted(pts: &Vec<Sample>) -> (b: bool)
    ensures
        b == any_assisted(pts@),
{
    let mut i: usize = 0;
    while i < pts.len()
        invariant
            i <= pts@.len(),
            forall|k: int| 0 <= k < i ==> (#[trigger] pts@[k]).autopilot == AUTOPILOT_OFF,
        decreases pts.len() - i,
    {
        if pts[i].autopilot != AUTOPILOT_OFF {
            proof {
                assert(pts@[i as int].autopilot != AUTOPILOT_OFF);
            }
            return true;
        }
        i = i + 1;
    }
    false
}

/// What the driver did, in order.
pub fn find_marks(pts: &Vec<Sample>) -> (r: Vec<FsdMark>)
    ensures
        r@ == marks_of(pts@),
{
    let mut marks: Vec<FsdMark> = Vec::new();
    let n: usize = pts.len();
    if n <= 1 || !find_assisted(pts) {
        proof {
            assert(marks@ =~= marks_of(pts@));
        }
        return marks;
    }
    let mut engaged: F64 = F64::from_bits(0);
    let mut pending: Option<(F64, GpsPoint)> = None;
    let mut pressing: Option<GpsPoint> = None;
    let mut i: usize = 1;
    proof {
        assert(marks@ =~= walk_drive(pts@, 1).marks);
    }
    while i < n
        invariant
            1 <= i <= n,
            n == pts@.len(),
            walk_drive(pts@, i as int) == (DriveWalk { engaged, pending, pressing, marks: marks@ }),
        decreases n - i,
    {
        let ghost w0 = walk_drive(pts@, i as int);
        let prev: Sample = pts[i - 1];
        let cur: Sample = pts[i];
        let now: bool = cur.autopilot == AUTOPILOT_FSD;
        let before: bool = prev.autopilot == AUTOPILOT_FSD;
        if let Some(open) = pending {
            let since: F64 = cur.time_ms.minus(open.0);
            if cur.gear == GEAR_PARK && since.le(F64::of_u64(2000)) {
                pending = None;
            } else if F64::of_u64(2000).lt(since) || now {
                marks.push(FsdMark { disengagement: true, at: open.1 });
                pending = None;
            }
        }
        let ghost w1 = DriveWalk { engaged, pending, pressing, marks: marks@ };
        proof {
            assert(w1 == decide(w0, cur));
        }
        if !before && now {
            pressing = None;
            engaged = cur.time_ms;
        }
        if before && !now {
            pending = Some((cur.time_ms, cur.position()));
            pressing = None;
        }
        let ghost w2 = DriveWalk { engaged, pending, pressing, marks: marks@ };
        proof {
            assert(w2 == switch(w1, prev, cur));
        }
        let raw: F64 = cur.accel.to_f64();
        let pct: F64 = if raw.le(F64::of_u64(1)) {
            raw.times(F64::of_u64(100))
        } else {
            raw
        };
        if now && pressing.is_none() && F64::of_u64(1).lt(pct) && F64::of_u64(3000).le(
            cur.time_ms.minus(engaged),
        ) {
            pressing = Some(cur.position());
        }
        if let Some(at) = pressing {
            if pct.le(F64::from_bits(0)) {
                marks.push(FsdMark { disengagement: false, at });
                pressing = None;
            }
        }
        proof {
            assert((DriveWalk { engaged, pending, pressing, marks: marks@ }) == push_pedal(w2, cur));
        }
        i = i + 1;
    }
    if let Some(open) = pending {
        if pts[n - 1].gear != GEAR_PARK {
            marks.push(FsdMark { disengagement: true, at: open.1 });
        }
    }
    marks
}

fn count_marks(marks: &Vec<FsdMark>, disengagement: bool) -> (r: i32)
    ensures
        r == hold32(mark_count(marks@, disengagement, marks@.len() as int)),
{
    let mut count: usize = 0;
    let mut i: usize = 0;
    while i < marks.len()
        invariant
            i <= marks@.len(),
            count <= i,
            count == mark_count(marks@, disengagement, i as int),
        decreases marks.len() - i,
    {
        if marks[i].disengagement == disengagement {
            count = count + 1;
        }
        i = i + 1;
    }
    held32(count as i128)
}

fn build_events(marks: &Vec<FsdMark>) -> (r: Vec<FsdEvent>)
    ensures
        r@.len() == marks@.len(),
        forall|i: int| 0 <= i < r@.len() ==> is_event_of(#[trigger] r@[i], marks@[i]),
{
    let mut out: Vec<FsdEvent> = Vec::new();
    let mut i: usize = 0;
    while i < marks.len()
        invariant
            i <= marks@.len(),
            out@.len() == i,
            forall|k: int| 0 <= k < i ==> is_event_of(#[trigger] out@[k], marks@[k]),
        decreases marks.len() - i,
    {
        let m: FsdMark = marks[i];
        let event_type: String = if m.disengagement {
            "disengagement".to_string()
        } else {
            "accel_push".to_string()
        };
        let e: FsdEvent = FsdEvent { lat: m.at.lat, lng: m.at.lng, event_type };
        out.push(e);
        i = i + 1;
    }
    out
}

// ---------------------------------------------------------------------------
// The drive
// ---------------------------------------------------------------------------

/// End of the drive: a minute behind the start of its last piece.
pub open spec fn pieces_end(ps: Seq<Piece>) -> int {
    shifted(ps.last().ts as int, 60_000)
}

/// The fields that tell when and what the drive is.
pub open spec fn drive_labelled(
    routes: Seq<Route>,
    ps: Seq<Piece>,
    idx: i32,
    tags: Seq<TagEntry>,
    d: Drive,
) -> bool {
    let first = routes[ps[0].route as int];
    let start = ps[0].ts as int;
    &&& d.id == idx
    &&& d.date@ == first.date@
    &&& d.start_time@ == stamp_text(start)
    &&& d.end_time@ == stamp_text(pieces_end(ps))
    &&& d.duration_ms == span(start, pieces_end(ps))
    &&& d.clip_count == ps.len()
    &&& texts(d.tags@) == tags_under(tags, stamp_text(start), 0)
    &&& !d.summon
    &&& text_view(d.source) == text_view(first.source)
    &&& text_view(d.external_signature) == text_view(first.external_signature)
    &&& d.tessie_autopilot_percent == first.tessie_autopilot_percent
}

/// The fields that measure the drive, from its samples and the steps between.
pub open spec fn drive_measured(pts: Seq<Sample>, hops: Seq<F64>, start: int, d: Drive) -> bool {
    let n = pts.len() as int;
    let metres = metres_in(pts, hops, None);
    let marks = marks_of(pts);
    &&& d.distance_mi == rounded2(fdiv(metres, lit(M_PER_MILE)))
    &&& d.distance_km == rounded2(fdiv(metres, from_int(1000)))
    &&& d.avg_speed_mph == rounded2(fmul(mean_pace(pts, hops), lit(MPS_TO_MPH)))
    &&& d.max_speed_mph == rounded2(fmul(top_pace(pts, hops), lit(MPS_TO_MPH)))
    &&& d.avg_speed_kmh == rounded2(fmul(mean_pace(pts, hops), lit(MPS_TO_KMH)))
    &&& d.max_speed_kmh == rounded2(fmul(top_pace(pts, hops), lit(MPS_TO_KMH)))
    &&& d.point_count == n
    &&& d.points@ == line_of(pts, hops, start)
    &&& d.gear_states@ == states(gears(pts))
    &&& d.fsd_states@ == states(autopilots(pts))
    &&& d.fsd_events@.len() == marks.len()
    &&& forall|i: int|
        0 <= i < marks.len() ==> is_event_of(#[trigger] d.fsd_events@[i], marks[i])
    &&& d.fsd_disengagements == hold32(mark_count(marks, true, marks.len() as int))
    &&& d.fsd_accel_pushes == hold32(mark_count(marks, false, marks.len() as int))
    &&& mode_measured(pts, hops, AUTOPILOT_FSD, d.fsd_engaged_ms, d.fsd_percent, d.fsd_distance_km, d.fsd_distance_mi)
    &&& mode_measured(
        pts,
        hops,
        AUTOPILOT_AUTOSTEER,
        d.autosteer_engaged_ms,
        d.autosteer_percent,
        d.autosteer_distance_km,
        d.autosteer_distance_mi,
    )
    &&& mode_measured(pts, hops, AUTOPILOT_TACC, d.tacc_engaged_ms, d.tacc_percent, d.tacc_distance_km, d.tacc_distance_mi)
    &&& d.assisted_percent == percent_of(
        sum_where(hop_lengths(hops), ends_assisted(pts), n),
        metres,
    )
}

/// Time, share and distance of the steps that end in `mode`.
pub open spec fn mode_measured(
    pts: Seq<Sample>,
    hops: Seq<F64>,
    mode: u8,
    ms: i64,
    percent: F64,
    km: F64,
    mi: F64,
) -> bool {
    let metres = metres_in(pts, hops, Some(mode));
    &&& ms == hold64(ms_in(pts, mode, pts.len() as int))
    &&& percent == percent_of(metres, metres_in(pts, hops, None))
    &&& km == rounded2(fdiv(metres, from_int(1000)))
    &&& mi == rounded2(fdiv(metres, lit(M_PER_MILE)))
}

/// A drive from its samples, outliers already left out, and the distances
/// between them.
pub fn drive_from_samples(
    routes: &[Route],
    ps: &[Piece],
    pts: &Vec<Sample>,
    hops: &Vec<F64>,
    idx: i32,
    tags: &[TagEntry],
) -> (d: Drive)
    requires
        ps@.len() > 0,
        pieces_fit(routes@, ps@),
        hops@.len() == pts@.len(),
    ensures
        drive_labelled(routes@, ps@, idx, tags@, d),
        drive_measured(pts@, hops@, epoch_ms(ps@[0].ts as int), d),
{
    let start: i64 = ps[0].ts;
    let end: i64 = move_by(ps[ps.len() - 1].ts, 60_000);
    proof {
        assert(piece_fits(routes@, ps@[0]));
    }
    let first: &Route = &routes[ps[0].route];
    let recorded: bool = any_speed(pts);
    let paces: Paces = add_paces(pts, hops, recorded);
    let mean: F64 = if paces.count > 0 {
        paces.sum.over(F64::of_usize(paces.count))
    } else {
        F64::from_bits(0)
    };
    let metres: F64 = add_metres(pts, hops, None);
    let fsd: F64 = add_metres(pts, hops, Some(AUTOPILOT_FSD));
    let steer: F64 = add_metres(pts, hops, Some(AUTOPILOT_AUTOSTEER));
    let tacc: F64 = add_metres(pts, hops, Some(AUTOPILOT_TACC));
    let assisted: F64 = add_assisted(pts, hops);
    let shares: (F64, F64, F64, F64) = compute_autopilot_percents(
        metres,
        fsd,
        steer,
        tacc,
        assisted,
    );
    let marks: Vec<FsdMark> = find_marks(pts);
    let mile: F64 = F64::from_bits(M_PER_MILE);
    let km: F64 = F64::of_u64(1000);
    let start_time: String = format_stamp(start);
    let drive_tags: Vec<String> = find_tags(tags, &start_time);
    Drive {
        id: idx,
        date: first.date.clone(),
        start_time,
        end_time: format_stamp(end),
        duration_ms: span_ms(start, end),
        distance_mi: round2(metres.over(mile)),
        distance_km: round2(metres.over(km)),
        avg_speed_mph: round2(mean.times(F64::from_bits(MPS_TO_MPH))),
        max_speed_mph: round2(paces.top.times(F64::from_bits(MPS_TO_MPH))),
        avg_speed_kmh: round2(mean.times(F64::from_bits(MPS_TO_KMH))),
        max_speed_kmh: round2(paces.top.times(F64::from_bits(MPS_TO_KMH))),
        clip_count: ps.len(),
        point_count: pts.len(),
        points: build_line(pts, hops, recorded, to_epoch_ms(start)),
        gear_states: build_states(pts, true),
        fsd_states: build_states(pts, false),
        fsd_events: build_events(&marks),
        tags: drive_tags,
        fsd_engaged_ms: add_ms(pts, AUTOPILOT_FSD),
        fsd_disengagements: count_marks(&marks, true),
        fsd_accel_pushes: count_marks(&marks, false),
        fsd_percent: shares.0,
        fsd_distance_km: round2(fsd.over(km)),
        fsd_distance_mi: round2(fsd.over(mile)),
        autosteer_engaged_ms: add_ms(pts, AUTOPILOT_AUTOSTEER),
        autosteer_percent: shares.1,
        autosteer_distance_km: round2(steer.over(km)),
        autosteer_distance_mi: round2(steer.over(mile)),
        tacc_engaged_ms: add_ms(pts, AUTOPILOT_TACC),
        tacc_percent: shares.2,
        tacc_distance_km: round2(tacc.over(km)),
        tacc_distance_mi: round2(tacc.over(mile)),
        assisted_percent: shares.3,
        summon: false,
        source: copy_text(&first.source),
        external_signature: copy_text(&first.external_signature),
        tessie_autopilot_percent: first.tessie_autopilot_percent,
    }
}

/// `d` is the drive of these pieces, by the distances that `geodesic` gave.
pub open spec fn is_drive<G: Fn(F64, F64, F64, F64) -> F64>(
    routes: Seq<Route>,
    ps: Seq<Piece>,
    idx: i32,
    tags: Seq<TagEntry>,
    geodesic: G,
    d: Drive,
) -> bool {
    let all = real_spots(samples_of(routes, ps, ps.len() as int));
    &&& drive_labelled(routes, ps, idx, tags, d)
    &&& exists|pts: Seq<Sample>, hops: Seq<F64>|
        is_cleaned(all, geodesic, pts) && #[trigger] hops_along(pts, geodesic, hops)
            && drive_measured(pts, hops, epoch_ms(ps[0].ts as int), d)
}

/// The drive that these pieces make up.
pub fn build_drive_stats<G: Fn(F64, F64, F64, F64) -> F64>(
    routes: &[Route],
    ps: &[Piece],
    idx: i32,
    tags: &[TagEntry],
    geodesic: &G,
) -> (d: Drive)
    requires
        ps@.len() > 0,
        pieces_fit(routes@, ps@),
        forall|w: F64, x: F64, y: F64, z: F64| call_requires(*geodesic, (w, x, y, z)),
    ensures
        is_drive(routes@, ps@, idx, tags@, *geodesic, d),
{
    let merged: Vec<Sample> = merge_samples(routes, ps);
    let all: Vec<Sample> = drop_null_island(&merged);
    let pts: Vec<Sample> = clean_track(&all, geodesic);
    let hops: Vec<F64> = measure_hops(&pts, geodesic);
    let d: Drive = drive_from_samples(routes, ps, &pts, &hops, idx, tags);
    proof {
        assert(hops_along(pts@, *geodesic, hops@));
    }
    d
}

// ---------------------------------------------------------------------------
// A drive from its clips
// ---------------------------------------------------------------------------

/// The clips with a time in their name among the first `n`, in time.
pub open spec fn timed_clips(routes: Seq<Route>, n: int) -> Seq<Timed>
    decreases n,
{
    if n <= 0 {
        Seq::empty()
    } else {
        match clip_stamp(routes[n - 1].file@) {
            Some(t) => in_time(
                timed_clips(routes, n - 1),
                Timed { index: (n - 1) as usize, ts: t as i64 },
            ),
            None => timed_clips(routes, n - 1),
        }
    }
}

/// Whole seconds between two times.
pub open spec fn seconds_apart(a: int, b: int) -> int {
    let ms = span(b, a);
    (if ms < 0 {
        -ms
    } else {
        ms
    }) / 1000
}

/// The first of the first `n` groups whose start is nearest to `t`.
pub open spec fn nearest(groups: Seq<Seq<Piece>>, t: int, n: int) -> int
    decreases n,
{
    if n <= 1 {
        0
    } else {
        let best = nearest(groups, t, n - 1);
        if seconds_apart(groups[n - 1][0].ts as int, t) < seconds_apart(
            groups[best][0].ts as int,
            t,
        ) {
            n - 1
        } else {
            best
        }
    }
}

/// The group to show: the one that starts nearest to `target`, or the first.
pub open spec fn picked_group(groups: Seq<Seq<Piece>>, target: Option<Seq<char>>) -> int {
    match target {
        Some(text) => match iso_moment(text) {
            Some(t) => nearest(groups, t, groups.len() as int),
            None => 0,
        },
        None => 0,
    }
}

fn time_clips(routes: &[Route]) -> (line: Vec<Timed>)
    ensures
        line@ == timed_clips(routes@, routes@.len() as int),
        indices_below(line@, routes@.len() as int),
{
    let mut line: Vec<Timed> = Vec::new();
    let mut i: usize = 0;
    while i < routes.len()
        invariant
            i <= routes@.len(),
            line@ == timed_clips(routes@, i as int),
            indices_below(line@, routes@.len() as int),
        decreases routes.len() - i,
    {
        if let Some(ts) = parse_clip_timestamp(routes[i].file.as_str()) {
            put_in_time(&mut line, Timed { index: i, ts }, Ghost(routes@.len() as int));
        }
        i = i + 1;
    }
    line
}

fn gap_seconds(a: i64, b: i64) -> (r: u64)
    ensures
        r == seconds_apart(a as int, b as int),
{
    let ms: i128 = span_ms(b, a) as i128;
    let d: i128 = if ms < 0 {
        -ms
    } else {
        ms
    };
    (d / 1000) as u64
}

fn find_nearest(groups: &Vec<Vec<Piece>>, t: i64) -> (r: usize)
    requires
        groups@.len() > 0,
        forall|i: int| 0 <= i < groups@.len() ==> (#[trigger] groups@[i])@.len() > 0,
    ensures
        r == nearest(views(groups@), t as int, groups@.len() as int),
        r < groups@.len(),
{
    let ghost gv = views(groups@);
    let mut best: usize = 0;
    let mut i: usize = 1;
    while i < groups.len()
        invariant
            1 <= i <= groups@.len(),
            best < i,
            gv == views(groups@),
            forall|i: int| 0 <= i < groups@.len() ==> (#[trigger] groups@[i])@.len() > 0,
            best == nearest(gv, t as int, i as int),
        decreases groups.len() - i,
    {
        proof {
            assert(groups@[i as int]@.len() > 0);
            assert(groups@[best as int]@.len() > 0);
            assert(gv[i as int] == groups@[i as int]@);
            assert(gv[best as int] == groups@[best as int]@);
        }
        if gap_seconds(groups[i][0].ts, t) < gap_seconds(groups[best][0].ts, t) {
            best = i;
        }
        i = i + 1;
    }
    best
}

/// The drive of clips that belong to one drive; what Park cut off from it is left
/// out. `target_start` tells which part is meant.
pub fn build_single_drive_from_clips<G: Fn(F64, F64, F64, F64) -> F64>(
    routes: &[Route],
    idx: i32,
    tags: &[TagEntry],
    target_start: Option<&str>,
    geodesic: G,
) -> (r: Option<Drive>)
    requires
        routes_fit(routes@),
        forall|w: F64, x: F64, y: F64, z: F64| call_requires(geodesic, (w, x, y, z)),
    ensures
        ({
            let groups = gear_split(routes@, timed_clips(routes@, routes@.len() as int));
            let target = match target_start {
                Some(t) => Some(t@),
                None => None,
            };
            match r {
                Some(d) => groups.len() > 0 && is_drive(
                    routes@,
                    groups[picked_group(groups, target)],
                    idx,
                    tags@,
                    geodesic,
                    d,
                ),
                None => groups.len() == 0,
            }
        }),
{
    let line: Vec<Timed> = time_clips(routes);
    let groups: Vec<Vec<Piece>> = split_by_gear_state(routes, line.as_slice());
    let ghost gv = views(groups@);
    proof {
        assert(gv.len() == groups@.len());
    }
    if groups.len() == 0 {
        return None;
    }
    let mut pick: usize = 0;
    if let Some(text) = target_start {
        if let Some(t) = parse_iso_moment(text) {
            pick = find_nearest(&groups, t);
        }
    }
    proof {
        assert(gv[pick as int] == groups@[pick as int]@);
        assert(groups@[pick as int]@.len() > 0);
    }
    Some(build_drive_stats(routes, groups[pick].as_slice(), idx, tags, &geodesic))
}

} // verus!
