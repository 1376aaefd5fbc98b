//! How long and how far a drive went in a mode, and when its samples were taken.

use crate::calc::{null_island, rounded2};
use crate::charging_laws::is_last;
use crate::clock::{epoch_ms, shifted, span, stamp_text};
use crate::drive::{drive_labelled, point_time, sample_of, samples_of};
use crate::float::{F64, fadd, fdiv, fle, flt, fmul, from_int, is_nan, zero};
use crate::grouper::Piece;
use crate::nearness::{
    lemma_fold_near, lemma_near_int, lemma_near_itself, lemma_near_more, lemma_near_product,
    lemma_near_quotient, lemma_near_same, lemma_near_sum, lemma_rounded_near, lemma_within_int,
    lemma_within_more, lemma_within_product, near, total, within,
};
use crate::overview::spots_of;
use crate::rounding::{lemma_one, one, size_of};
use crate::row_laws::{lemma_last_grows, member_spots};
use crate::subclips::SubClipSummary;
use crate::summary::{
    Part, assisted_metres, bridge_total, clip_end, clip_engaged, clip_start, distance_total,
    engaged_total, fastest, gap_ends, labelled, last_seen, measured_columns, member_ms,
    mode_columns, moved_at_all, opens_clip, percent_of, scalars, seam_ms, share_of, share_total,
    starts_in, tags_under, texts,
};
use crate::summary_laws::{
    bridge_units, clip_behind, distances, gap_into, has_gap, is_made_of, lemma_bridges,
    lemma_column, lemma_opens_file, lemma_row_length, lemma_share_total, metres_tame, opens_file,
    shared_units, tame, terms,
};
use crate::types::{Drive, DriveSummary, GpsPoint, Route, RouteSummary, TagEntry};
use vstd::prelude::*;

verus! {

// ---------------------------------------------------------------------------
// Time in a mode
// ---------------------------------------------------------------------------

/// Engaged milliseconds of the clip behind member `i` in `mode`.
pub open spec fn engaged_in(s: Seq<RouteSummary>, c: Seq<SubClipSummary>, mode: u8, i: int) -> int {
    let a = clip_behind(s, c, i).aggregates;
    if mode == 1 {
        a.fsd_engaged_ms as int
    } else if mode == 2 {
        a.autosteer_engaged_ms as int
    } else {
        a.tacc_engaged_ms as int
    }
}

/// A seam lies in front of member `i`, and the clip behind it starts in `mode`.
pub open spec fn seam_into(s: Seq<RouteSummary>, c: Seq<SubClipSummary>, mode: u8, i: int) -> bool {
    &&& i > 0
    &&& opens_file(s, c, i)
    &&& c[i].start_frame == 0
    &&& c[i - 1].end_frame == c[i - 1].total_frames
    &&& clip_behind(s, c, i).aggregates.ap_at_start == Some(mode as i32)
}

/// How long that seam lasts: from the end of the clip before to the start of this one.
pub open spec fn seam_length(c: Seq<SubClipSummary>, i: int) -> int {
    let g = span(shifted(c[i - 1].ts as int, member_ms(c[i - 1])), c[i].ts as int);
    if g > 0 {
        g
    } else {
        0
    }
}

/// Time in `mode` of member `i`: its share of the clip's, and the seam before it.
pub open spec fn time_units(s: Seq<RouteSummary>, c: Seq<SubClipSummary>, mode: u8) -> spec_fn(int) -> nat {
    |i: int|
        engaged_in(s, c, mode, i) as nat * size_of(c[i].fraction) + if seam_into(s, c, mode, i) {
            seam_length(c, i) as nat * one()
        } else {
            0
        }
}

/// Times and shares are in order.
pub open spec fn times_tame(s: Seq<RouteSummary>, c: Seq<SubClipSummary>, mode: u8) -> bool {
    &&& c.len() <= 0x1_0000
    &&& forall|i: int|
        0 <= i < c.len() ==> tame((#[trigger] c[i]).fraction) && 0 <= engaged_in(s, c, mode, i)
            <= 0xFFFF_FFFF && (i > 0 ==> seam_length(c, i) <= 0xFFFF_FFFF)
    &&& total(time_units(s, c, mode), c.len() as int) <= one() * 0x4000_0000
}

proof fn lemma_part_of_total(p: spec_fn(int) -> nat, n: int, m: int)
    requires
        0 <= n <= m,
    ensures
        total(p, n) <= total(p, m),
    decreases m - n,
{
    if n < m {
        lemma_part_of_total(p, n, m - 1);
    }
}

proof fn lemma_engaged_total(s: Seq<RouteSummary>, c: Seq<SubClipSummary>, mode: u8, n: int)
    requires
        0 <= n <= c.len(),
        times_tame(s, c, mode),
        1 <= mode <= 3,
    ensures
        near(engaged_total(s, c, mode, n), total(time_units(s, c, mode), n), one(), (2 * n + 2) as nat),
    decreases n,
{
    let u = one();
    let q = time_units(s, c, mode);
    lemma_one();
    if n <= 0 {
        assert(size_of(zero()) == 0);
        assert(0 * one() == 0) by (nonlinear_arith);
    } else {
        let i = n - 1;
        lemma_engaged_total(s, c, mode, i);
        lemma_opens_file(s, c, i);
        lemma_part_of_total(q, n, c.len() as int);
        lemma_part_of_total(q, i, c.len() as int);
        assert(tame(c[i].fraction));
        let k = engaged_in(s, c, mode, i) as nat;
        let y = size_of(c[i].fraction);
        lemma_near_int(k);
        lemma_near_itself(c[i].fraction);
        lemma_within_int(k);
        lemma_within_more(k, 1, 32, 400);
        lemma_within_more(y, u, 100, 400);
        assert(0nat * 0 == 0);
        lemma_near_product(from_int(k as int), c[i].fraction, k, 1, y, u, 0, 0, 400);
        assert(1 * u == u) by (nonlinear_arith);
        let b = share_of(c, i, from_int(clip_engaged(scalars(s, c, i), mode) as int));
        assert(b == fmul(from_int(k as int), c[i].fraction));
        let a = engaged_total(s, c, mode, i);
        let e = (2 * i + 2) as nat;
        lemma_near_more(b, k * y, u, 2, e);
        lemma_room_for(total(q, i), u);
        lemma_room_for(k * y, u);
        lemma_near_sum(a, b, total(q, i), k * y, u, e);
        let t = fadd(a, b);
        let seam = opens_clip(s, c, i) && seam_ms(c, i) is Some && starts_in(s, c, i, mode);
        assert(seam == seam_into(s, c, mode, i));
        assert(q(i) == k * y + if seam {
            seam_length(c, i) as nat * u
        } else {
            0
        });
        assert(total(q, n) == total(q, i) + q(i));
        assert(engaged_total(s, c, mode, n) == if seam {
            fadd(t, seam_ms(c, i)->0)
        } else {
            t
        });
        if seam {
            assert(seam_ms(c, i)->0 == from_int(seam_length(c, i)));
            let g = seam_length(c, i) as nat;
            lemma_near_int(g);
            assert(u * 1 == u) by (nonlinear_arith);
            assert(g * u == (g * u) * 1) by (nonlinear_arith);
            lemma_near_same(from_int(g as int), g, 1, g * u, u, 0);
            lemma_near_more(from_int(g as int), g * u, u, 0, e + 1);
            lemma_room_for(g * u, u);
            lemma_room_for(total(q, i) + k * y, u);
            lemma_near_sum(t, from_int(g as int), total(q, i) + k * y, g * u, u, e + 1);
            assert(total(q, n) == total(q, i) + k * y + g * u);
            assert(engaged_total(s, c, mode, n) == fadd(t, from_int(g as int)));
        } else {
            lemma_near_more(t, total(q, i) + k * y, u, e + 1, e + 2);
            assert(total(q, n) == total(q, i) + k * y);
            assert(engaged_total(s, c, mode, n) == t);
        }
        assert(e + 2 == (2 * n + 2) as nat);
    }
}

proof fn lemma_room_for(a: nat, u: nat)
    requires
        a <= u * 0x4000_0000,
    ensures
        a <= u * vstd::arithmetic::power2::pow2(900),
{
    vstd::arithmetic::power2::lemma2_to64();
    vstd::arithmetic::power2::lemma_pow2_strictly_increases(32, 900);
    assert(a <= u * vstd::arithmetic::power2::pow2(900)) by (nonlinear_arith)
        requires
            a <= u * 0x4000_0000,
            vstd::arithmetic::power2::pow2(900) >= 0x4000_0000,
    ;
}

/// `ms` milliseconds are the time in `mode`, to the millisecond.
pub open spec fn is_time_in(s: Seq<RouteSummary>, c: Seq<SubClipSummary>, mode: u8, ms: int) -> bool {
    let t = total(time_units(s, c, mode), c.len() as int);
    ms * one() < t + one() && t < ms * one() + one()
}

proof fn lemma_time_in_mode(s: Seq<RouteSummary>, c: Seq<SubClipSummary>, bridges: Seq<F64>, mode: u8)
    requires
        times_tame(s, c, mode),
        1 <= mode <= 3,
    ensures
        is_time_in(s, c, mode, mode_columns(s, c, bridges, mode).engaged_ms as int),
{
    let n = c.len() as int;
    lemma_engaged_total(s, c, mode, n);
    let e = (2 * n + 2) as nat;
    assert(e * 0x4000_0000 <= 0x1_0000_0000_0000) by (nonlinear_arith)
        requires
            e <= 0x2_0002,
    ;
    lemma_rounded_near(
        engaged_total(s, c, mode, n),
        total(time_units(s, c, mode), n),
        one(),
        e,
        0x4000_0000,
        i64::MIN as int,
        i64::MAX as int,
    );
}

/// The time of a row in a mode is that of its clips, each by its share, and of the seams in
/// front of clips that start in it, to the millisecond.
pub proof fn law_row_times(
    s: Seq<RouteSummary>,
    c: Seq<SubClipSummary>,
    bridges: Seq<F64>,
    d: DriveSummary,
)
    requires
        measured_columns(s, c, bridges, d),
        times_tame(s, c, 1),
        times_tame(s, c, 2),
        times_tame(s, c, 3),
    ensures
        is_time_in(s, c, 1, d.fsd_engaged_ms as int),
        is_time_in(s, c, 2, d.autosteer_engaged_ms as int),
        is_time_in(s, c, 3, d.tacc_engaged_ms as int),
{
    lemma_time_in_mode(s, c, bridges, 1);
    lemma_time_in_mode(s, c, bridges, 2);
    lemma_time_in_mode(s, c, bridges, 3);
}

// ---------------------------------------------------------------------------
// Any assistance, and points
// ---------------------------------------------------------------------------

pub open spec fn assisted_distances(s: Seq<RouteSummary>, c: Seq<SubClipSummary>) -> spec_fn(int) -> F64 {
    |i: int| clip_behind(s, c, i).aggregates.assisted_distance_m
}

/// `m` metres are the clips' with any assistance, by their shares, and those of the gaps
/// in front of clips that start in a mode, up to rounding.
pub open spec fn is_assisted_length(m: F64, s: Seq<RouteSummary>, c: Seq<SubClipSummary>, bridges: Seq<F64>) -> bool {
    let n = c.len() as int;
    near(
        m,
        total(shared_units(c, assisted_distances(s, c)), n) + total(
            bridge_units(bridges, gap_into(s, c, 1u8)),
            n,
        ) + total(bridge_units(bridges, gap_into(s, c, 2u8)), n) + total(
            bridge_units(bridges, gap_into(s, c, 3u8)),
            n,
        ),
        one() * one(),
        (n + 5) as nat,
    )
}

/// The share of a row with any assistance is that of the assisted metres of the whole
/// distance.
pub proof fn law_row_assisted_share(
    s: Seq<RouteSummary>,
    c: Seq<SubClipSummary>,
    bridges: Seq<F64>,
    d: DriveSummary,
)
    requires
        measured_columns(s, c, bridges, d),
        c.len() <= 0x4_0000,
        metres_tame(s, c, bridges),
    ensures
        exists|m: F64, all: F64|
            #[trigger] is_assisted_length(m, s, c, bridges) && #[trigger] is_made_of(
                all,
                c,
                distances(s, c),
                bridges,
                has_gap(s, c),
            ) && d.assisted_percent == percent_of(m, all) && d.distance_km == rounded2(
                fdiv(all, from_int(1000)),
            ),
{
    let n = c.len() as int;
    let u = one();
    lemma_row_length(s, c, bridges);
    let f = assisted_distances(s, c);
    assert forall|i: int| 0 <= i < n implies tame(#[trigger] f(i)) by {
        assert(tame(c[i].fraction));
    }
    assert forall|i: int| 0 <= i < c.len() implies tame((#[trigger] c[i]).fraction) by {}
    lemma_column(s, c, Part::AssistedMetres, f);
    lemma_bridges(s, c, bridges, 1u8, n);
    lemma_bridges(s, c, bridges, 2u8, n);
    lemma_bridges(s, c, bridges, 3u8, n);
    let a = share_total(s, c, Part::AssistedMetres, n);
    let (x, y, z) = (
        bridge_total(s, c, bridges, 1u8, n),
        bridge_total(s, c, bridges, 2u8, n),
        bridge_total(s, c, bridges, 3u8, n),
    );
    let p = total(shared_units(c, f), n);
    let (i, j, k) = (
        total(bridge_units(bridges, gap_into(s, c, 1u8)), n),
        total(bridge_units(bridges, gap_into(s, c, 2u8)), n),
        total(bridge_units(bridges, gap_into(s, c, 3u8)), n),
    );
    let d2 = u * u;
    let e = n as nat;
    lemma_four_rooms(p, i, j, k, d2);
    lemma_near_sum(x, y, i, j, d2, e);
    lemma_near_more(z, k, d2, e, e + 1);
    lemma_near_sum(fadd(x, y), z, i + j, k, d2, e + 1);
    let b = fadd(fadd(x, y), z);
    lemma_near_more(b, i + j + k, d2, e + 2, e + 4);
    lemma_near_more(a, p, d2, (n + 2) as nat, e + 4);
    lemma_near_sum(a, b, p, i + j + k, d2, e + 4);
    assert(p + (i + j + k) == p + i + j + k);
    assert(is_assisted_length(assisted_metres(s, c, bridges), s, c, bridges));
    assert(is_made_of(
        distance_total(s, c, bridges, n),
        c,
        distances(s, c),
        bridges,
        has_gap(s, c),
    ));
}

proof fn lemma_four_rooms(a: nat, b: nat, c: nat, e: nat, d: nat)
    requires
        within(a, d, 232),
        within(b, d, 232),
        within(c, d, 232),
        within(e, d, 232),
    ensures
        a + b + c + e <= d * vstd::arithmetic::power2::pow2(900),
{
    lemma_within_more(a, d, 232, 898);
    lemma_within_more(b, d, 232, 898);
    lemma_within_more(c, d, 232, 898);
    lemma_within_more(e, d, 232, 898);
    vstd::arithmetic::power2::lemma_pow2_unfold(899);
    vstd::arithmetic::power2::lemma_pow2_unfold(900);
    let t = vstd::arithmetic::power2::pow2(898);
    assert(a + b + c + e <= d * (4 * t)) by (nonlinear_arith)
        requires
            a <= d * t,
            b <= d * t,
            c <= d * t,
            e <= d * t,
    ;
}

/// Points with a fix of member `i`, by its share.
pub open spec fn point_units(s: Seq<RouteSummary>, c: Seq<SubClipSummary>) -> spec_fn(int) -> nat {
    |i: int| clip_behind(s, c, i).aggregates.valid_point_count as nat * size_of(c[i].fraction)
}

/// A row counts the points of its clips, each by its share, to the nearest.
pub proof fn law_row_points(s: Seq<RouteSummary>, c: Seq<SubClipSummary>, idx: int, tags: Seq<TagEntry>, d: DriveSummary)
    requires
        labelled(s, c, idx, tags, d),
        c.len() <= 0x1_0000,
        forall|i: int|
            0 <= i < c.len() ==> tame((#[trigger] c[i]).fraction) && 0 <= clip_behind(
                s,
                c,
                i,
            ).aggregates.valid_point_count <= 0xFFFF_FFFF,
        total(point_units(s, c), c.len() as int) <= one() * 0x1000_0000,
    ensures
        ({
            let t = total(point_units(s, c), c.len() as int);
            d.point_count * one() < t + one() && t < d.point_count * one() + one()
        }),
{
    let n = c.len() as int;
    let u = one();
    let (v, q) = (terms(s, c, Part::Points), point_units(s, c));
    lemma_one();
    assert forall|i: int| 0 <= i < n implies within(#[trigger] q(i), u, 132) by {
        lemma_point_term(s, c, i);
    }
    assert forall|i: int| 0 <= i < n implies near(#[trigger] v(i), q(i), u, 2) by {
        lemma_point_term(s, c, i);
    }
    lemma_share_total(s, c, Part::Points, n);
    lemma_fold_near(v, q, u, 2, n, 132);
    let e = (n + 2) as nat;
    assert(e * 0x1000_0000 <= 0x1_0000_0000_0000) by (nonlinear_arith)
        requires
            e <= 0x1_0002,
    ;
    lemma_rounded_near(
        share_total(s, c, Part::Points, n),
        total(q, n),
        u,
        e,
        0x1000_0000,
        0,
        usize::MAX as int,
    );
}

proof fn lemma_point_term(s: Seq<RouteSummary>, c: Seq<SubClipSummary>, i: int)
    requires
        0 <= i < c.len(),
        tame(c[i].fraction),
        0 <= clip_behind(s, c, i).aggregates.valid_point_count <= 0xFFFF_FFFF,
    ensures
        within(point_units(s, c)(i), one(), 132),
        near(terms(s, c, Part::Points)(i), point_units(s, c)(i), one(), 2),
{
    let u = one();
    let k = clip_behind(s, c, i).aggregates.valid_point_count as nat;
    let y = size_of(c[i].fraction);
    lemma_one();
    lemma_near_int(k);
    lemma_near_itself(c[i].fraction);
    lemma_within_int(k);
    lemma_within_product(k, 1, 32, y, u, 100);
    lemma_within_more(k, 1, 32, 400);
    lemma_within_more(y, u, 100, 400);
    assert(0nat * 0 == 0);
    assert(1 * u == u) by (nonlinear_arith);
    lemma_near_product(from_int(k as int), c[i].fraction, k, 1, y, u, 0, 0, 400);
}

// ---------------------------------------------------------------------------
// Gaps
// ---------------------------------------------------------------------------

/// Where member `i` was last seen: its end, or else its start.
pub open spec fn seen_at(s: Seq<RouteSummary>, c: Seq<SubClipSummary>) -> Seq<Option<GpsPoint>> {
    Seq::new(
        c.len(),
        |i: int|
            if member_spots(s, c, false)[i] is Some {
                member_spots(s, c, false)[i]
            } else {
                member_spots(s, c, true)[i]
            },
    )
}

proof fn lemma_last_seen(s: Seq<RouteSummary>, c: Seq<SubClipSummary>, n: int)
    requires
        0 <= n <= c.len(),
    ensures
        is_last(seen_at(s, c).take(n), last_seen(s, c, n)),
    decreases n,
{
    if n > 0 {
        lemma_last_seen(s, c, n - 1);
        lemma_last_grows(seen_at(s, c), n, last_seen(s, c, n - 1));
        assert(member_spots(s, c, false)[n - 1] == clip_end(scalars(s, c, n - 1)));
        assert(member_spots(s, c, true)[n - 1] == clip_start(scalars(s, c, n - 1)));
    }
}

/// The gap in front of a clip leads from where the car was last seen before it to where the
/// clip starts; it is known where both are, and both are real positions.
pub proof fn law_gaps_lead_from_last_seen_to_start(s: Seq<RouteSummary>, c: Seq<SubClipSummary>, i: int)
    requires
        0 <= i < c.len(),
    ensures
        exists|p: Option<GpsPoint>|
            {
                let q = member_spots(s, c, true)[i];
                &&& #[trigger] is_last(seen_at(s, c).take(i), p)
                &&& gap_ends(s, c, i) is Some <==> p is Some && q is Some && !null_island(
                    p->0.lat,
                    p->0.lng,
                ) && !null_island(q->0.lat, q->0.lng)
                &&& gap_ends(s, c, i) is Some ==> gap_ends(s, c, i) == Some((p->0, q->0))
            },
{
    lemma_last_seen(s, c, i);
    assert(member_spots(s, c, true)[i] == clip_start(scalars(s, c, i)));
}

// ---------------------------------------------------------------------------
// Samples
// ---------------------------------------------------------------------------

/// A sample tells of its point: its place, and what the columns of the clip say of it,
/// where they cover the piece; what none says is zero.
pub proof fn law_samples_tell_of_their_points(r: Route, p: Piece, i: int)
    requires
        0 <= i < p.end - p.start,
    ensures
        ({
            let s = sample_of(r, p, i);
            let k = p.start + i;
            &&& s.lat == r.points@[k].lat && s.lng == r.points@[k].lng
            &&& p.whole && r.autopilot_states@.len() == r.points@.len() ==> s.autopilot
                == r.autopilot_states@[k]
            &&& p.whole && r.autopilot_states@.len() != r.points@.len() ==> s.autopilot == 0
            &&& p.whole && r.gear_states@.len() == r.points@.len() ==> s.gear == r.gear_states@[k]
            &&& p.whole && r.gear_states@.len() != r.points@.len() ==> s.gear == 0
            &&& p.whole && r.speeds@.len() == r.points@.len() ==> s.speed == r.speeds@[k]
            &&& p.whole && r.speeds@.len() != r.points@.len() ==> s.speed.bits == 0
            &&& p.whole && r.accel_positions@.len() == r.points@.len() ==> s.accel
                == r.accel_positions@[k]
            &&& p.whole && r.accel_positions@.len() != r.points@.len() ==> s.accel.bits == 0
            &&& !p.whole && r.autopilot_states@.len() >= p.end ==> s.autopilot
                == r.autopilot_states@[k]
            &&& !p.whole && r.gear_states@.len() >= p.end ==> s.gear == r.gear_states@[k]
            &&& !p.whole && r.speeds@.len() >= p.end ==> s.speed == r.speeds@[k]
            &&& !p.whole && r.accel_positions@.len() >= p.end ==> s.accel == r.accel_positions@[k]
            &&& !p.whole && r.autopilot_states@.len() < p.end ==> s.autopilot == 0
            &&& !p.whole && r.gear_states@.len() < p.end ==> s.gear == 0
            &&& !p.whole && r.speeds@.len() < p.end ==> s.speed.bits == 0
            &&& !p.whole && r.accel_positions@.len() < p.end ==> s.accel.bits == 0
        }),
{
}

/// The points of a piece are spread evenly over a minute from its start, up to rounding;
/// the only point of one stands at its start.
pub proof fn law_samples_are_spread_over_a_minute(p: Piece, i: int)
    requires
        0 <= i < p.end - p.start,
        p.end - p.start <= i32::MAX,
        0 <= epoch_ms(p.ts as int) <= 0x1_0000_0000_0000,
    ensures
        p.end - p.start == 1 ==> point_time(p, i) == from_int(epoch_ms(p.ts as int)),
        p.end - p.start > 1 ==> near(
            point_time(p, i),
            (epoch_ms(p.ts as int) * (p.end - p.start - 1) + 60_000 * i) as nat,
            (p.end - p.start - 1) as nat,
            5,
        ),
{
    let n = p.end - p.start;
    if n > 1 {
        let t = epoch_ms(p.ts as int) as nat;
        let d = (n - 1) as nat;
        let k = i as nat;
        lemma_one();
        lemma_near_int(60_000);
        lemma_near_int(k);
        lemma_near_int(d);
        lemma_near_int(t);
        lemma_within_int(60_000);
        lemma_within_int(k);
        lemma_within_int(d);
        lemma_within_product(60_000, 1, 32, k, 1, 32);
        lemma_within_more(60_000, 1, 32, 400);
        lemma_within_more(k, 1, 32, 400);
        lemma_within_more(d, 1, 32, 400);
        assert(0nat * 0 == 0 && 2nat * 0 == 0);
        let a = fmul(from_int(60_000), from_int(i));
        lemma_near_product(from_int(60_000), from_int(i), 60_000, 1, k, 1, 0, 0, 400);
        assert(1nat * 1 == 1);
        lemma_within_more(60_000 * k, 1, 64, 400);
        lemma_near_quotient(a, from_int(n - 1), 60_000 * k, 1, d, 1, 2, 0, 400);
        assert(60_000 * k * 1 == 60_000 * k && 1 * d == d);
        let b = fdiv(a, from_int(n - 1));
        assert(t * d == (t * d) * 1) by (nonlinear_arith);
        lemma_near_same(from_int(t as int), t, 1, t * d, d, 0);
        lemma_near_more(from_int(t as int), t * d, d, 0, 4);
        vstd::arithmetic::power2::lemma2_to64();
        vstd::arithmetic::power2::lemma2_to64_rest();
        vstd::arithmetic::power2::lemma_pow2_strictly_increases(64, 900);
        let w = vstd::arithmetic::power2::pow2(900);
        assert(t * d <= d * w) by (nonlinear_arith)
            requires
                t <= 0x1_0000_0000_0000,
                w >= 0x1_0000_0000_0000,
        ;
        assert(60_000 * k <= d * w) by (nonlinear_arith)
            requires
                k <= d,
                w >= 60_000,
        ;
        lemma_near_sum(from_int(t as int), b, t * d, 60_000 * k, d, 4);
        assert(t * d + 60_000 * k == (epoch_ms(p.ts as int) * (n - 1) + 60_000 * i) as nat)
            by (nonlinear_arith)
            requires
                t == epoch_ms(p.ts as int),
                d == n - 1,
                k == i,
                t >= 0,
                d >= 0,
                k >= 0,
        ;
    }
}

/// A drive in full starts with its first piece and ends a minute behind the start of its
/// last one; it is dated, tagged and named as its first clip says.
pub proof fn law_drives_last_to_the_end_of_their_last_minute(
    routes: Seq<Route>,
    ps: Seq<Piece>,
    idx: i32,
    tags: Seq<TagEntry>,
    d: Drive,
)
    requires
        drive_labelled(routes, ps, idx, tags, d),
        ps.len() > 0,
    ensures
        d.id == idx,
        d.start_time@ == stamp_text(ps[0].ts as int),
        d.end_time@ == stamp_text(shifted(ps.last().ts as int, 60_000)),
        d.duration_ms == span(ps[0].ts as int, shifted(ps.last().ts as int, 60_000)),
        d.clip_count == ps.len(),
        d.date@ == routes[ps[0].route as int].date@,
        texts(d.tags@) == tags_under(tags, stamp_text(ps[0].ts as int), 0),
{
}

/// The samples of a drive are those of its pieces, one behind the other.
pub proof fn law_samples_follow_the_pieces(routes: Seq<Route>, ps: Seq<Piece>, n: int, m: int, i: int)
    requires
        0 <= m < n <= ps.len(),
        forall|k: int| 0 <= k < ps.len() ==> (#[trigger] ps[k]).start <= ps[k].end,
        0 <= i < ps[m].end - ps[m].start,
    ensures
        ({
            let at = samples_of(routes, ps, m).len() + i;
            &&& at < samples_of(routes, ps, n).len()
            &&& samples_of(routes, ps, n)[at] == sample_of(routes[ps[m].route as int], ps[m], i)
            &&& samples_of(routes, ps, m + 1).len() == samples_of(routes, ps, m).len() + (ps[m].end
                - ps[m].start)
        }),
    decreases n,
{
    assert(ps[m].start <= ps[m].end);
    if m < n - 1 {
        law_samples_follow_the_pieces(routes, ps, n - 1, m, i);
    }
}

// ---------------------------------------------------------------------------
// Evidence of movement
// ---------------------------------------------------------------------------

/// A drive moved where a clip of it recorded a speed above zero; its speed is the greatest
/// recorded one.
pub proof fn law_recorded_speed_is_the_greatest(s: Seq<RouteSummary>, c: Seq<SubClipSummary>, n: int)
    requires
        0 <= n <= c.len(),
    ensures
        moved_at_all(s, c, n) <==> exists|i: int|
            0 <= i < n && ((#[trigger] clip_behind(s, c, i)).aggregates.sei_speed_abs_max matches Some(
                m,
            ) && flt(zero(), m)),
        fle(zero(), fastest(s, c, n)),
        forall|i: int|
            0 <= i < n ==> ((#[trigger] clip_behind(s, c, i)).aggregates.sei_speed_abs_max matches Some(
                m,
            ) ==> is_nan(m) || fle(m, fastest(s, c, n))),
        fastest(s, c, n) == zero() || exists|i: int|
            0 <= i < n && (#[trigger] clip_behind(s, c, i)).aggregates.sei_speed_abs_max == Some(
                fastest(s, c, n),
            ),
    decreases n,
{
    if n > 0 {
        law_recorded_speed_is_the_greatest(s, c, n - 1);
        let k = n - 1;
        assert(clip_behind(s, c, k).aggregates == scalars(s, c, k));
        let before = fastest(s, c, k);
        let now = fastest(s, c, n);
        if now != before {
            assert(clip_behind(s, c, k).aggregates.sei_speed_abs_max == Some(now));
        } else if now != zero() {
            let i = choose|i: int|
                0 <= i < k && (#[trigger] clip_behind(s, c, i)).aggregates.sei_speed_abs_max == Some(
                    before,
                );
            assert(clip_behind(s, c, i).aggregates.sei_speed_abs_max == Some(now));
        }
        if moved_at_all(s, c, k) {
            let i = choose|i: int|
                0 <= i < k && ((#[trigger] clip_behind(s, c, i)).aggregates.sei_speed_abs_max matches Some(
                    m,
                ) && flt(zero(), m));
            assert(clip_behind(s, c, i).aggregates.sei_speed_abs_max is Some);
        }
    }
}

/// The line of a map follows the points of its pieces, one behind the other.
pub proof fn law_lines_follow_the_pieces(routes: Seq<Route>, ps: Seq<Piece>, n: int, m: int, i: int)
    requires
        0 <= m < n <= ps.len(),
        forall|k: int|
            0 <= k < ps.len() ==> (#[trigger] ps[k]).start <= ps[k].end
                <= routes[ps[k].route as int].points@.len(),
        0 <= i < ps[m].end - ps[m].start,
    ensures
        ({
            let at = spots_of(routes, ps, m).len() + i;
            &&& at < spots_of(routes, ps, n).len()
            &&& spots_of(routes, ps, n)[at] == routes[ps[m].route as int].points@[ps[m].start + i]
        }),
    decreases n,
{
    assert(ps[m].start <= ps[m].end <= routes[ps[m].route as int].points@.len());
    assert(ps[n - 1].start <= ps[n - 1].end <= routes[ps[n - 1].route as int].points@.len());
    if m < n - 1 {
        law_lines_follow_the_pieces(routes, ps, n - 1, m, i);
    }
}

} // verus!
