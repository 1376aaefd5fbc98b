//! What a row of the list tells of the clips of its drive.

use crate::calc::{MPS_TO_KMH, MPS_TO_MPH, M_PER_MILE, lit, rounded2};
use crate::float::{F64, fadd, fdiv, fle, flt, fmul, from_int, is_finite, is_nan, is_negative, zero};
use crate::nearness::{
    fold, grain, lemma_fold_near, lemma_near_int, lemma_near_itself, lemma_near_more,
    lemma_near_product, lemma_near_quotient, lemma_near_same, lemma_near_sum, lemma_sign_of_near,
    lemma_total_within, lemma_within_int, lemma_within_more, lemma_within_product, near, total,
    within,
};
use crate::rounding::{lemma_one, lemma_order, one, size_of};
use crate::subclips::SubClipSummary;
use crate::summary::{
    Part, bridge_total, distance_total, first_of_file, gap_ends, mean_speed, measured_columns,
    metres_of, mode_total, part_value, percent_of, scalars, share_of, share_total, top_speed,
};
use crate::types::{DriveSummary, RouteSummary};
use vstd::prelude::*;

verus! {

/// Neither below zero, nor vast, nor minute.
pub open spec fn tame(x: F64) -> bool {
    !is_negative(x) && is_finite(x) && within(size_of(x), one(), 100)
}

/// The clip behind member `i`.
pub open spec fn clip_behind(s: Seq<RouteSummary>, c: Seq<SubClipSummary>, i: int) -> RouteSummary {
    s[c[i].summary as int]
}

// ---------------------------------------------------------------------------
// Average speed
// ---------------------------------------------------------------------------

/// Speed samples of member `i` by its share, in units.
pub open spec fn weights(s: Seq<RouteSummary>, c: Seq<SubClipSummary>) -> spec_fn(int) -> nat {
    |i: int| clip_behind(s, c, i).aggregates.speed_sample_count as nat * size_of(c[i].fraction)
}

/// The average speed of member `i`, once for each of those samples.
pub open spec fn weighted_speeds(s: Seq<RouteSummary>, c: Seq<SubClipSummary>) -> spec_fn(int) -> nat {
    |i: int| size_of(clip_behind(s, c, i).aggregates.avg_speed_mps) * weights(s, c)(i)
}

/// The columns that an average is made of are in order.
pub open spec fn speeds_tame(s: Seq<RouteSummary>, c: Seq<SubClipSummary>) -> bool {
    forall|i: int|
        0 <= i < c.len() ==> tame((#[trigger] c[i]).fraction) && tame(
            clip_behind(s, c, i).aggregates.avg_speed_mps,
        ) && 0 <= clip_behind(s, c, i).aggregates.speed_sample_count <= 0xFFFF_FFFF
}

/// `v` is the mean of the clips' average speeds, each taken as often as it has samples,
/// up to rounding; zero without samples.
pub open spec fn is_weighted_mean(v: F64, s: Seq<RouteSummary>, c: Seq<SubClipSummary>) -> bool {
    let n = c.len() as int;
    if total(weights(s, c), n) == 0 {
        v == zero()
    } else {
        near(
            v,
            total(weighted_speeds(s, c), n),
            one() * total(weights(s, c), n),
            (2 * n + 8) as nat,
        )
    }
}

/// The terms of a sum over the members.
pub open spec fn terms(s: Seq<RouteSummary>, c: Seq<SubClipSummary>, p: Part) -> spec_fn(int) -> F64 {
    |i: int| share_of(c, i, part_value(scalars(s, c, i), p))
}

pub proof fn lemma_share_total(s: Seq<RouteSummary>, c: Seq<SubClipSummary>, p: Part, n: int)
    ensures
        share_total(s, c, p, n) == fold(terms(s, c, p), n),
    decreases n,
{
    if n > 0 {
        lemma_share_total(s, c, p, n - 1);
    }
}

proof fn lemma_weight(s: Seq<RouteSummary>, c: Seq<SubClipSummary>, i: int)
    requires
        0 <= i < c.len(),
        speeds_tame(s, c),
    ensures
        within(weights(s, c)(i), one(), 132),
        near(terms(s, c, Part::Samples)(i), weights(s, c)(i), one(), 2),
        within(weighted_speeds(s, c)(i), one() * one(), 232),
        near(terms(s, c, Part::SpeedSum)(i), weighted_speeds(s, c)(i), one() * one(), 4),
{
    let f = c[i].fraction;
    let a = clip_behind(s, c, i).aggregates.avg_speed_mps;
    let k = clip_behind(s, c, i).aggregates.speed_sample_count as nat;
    let u = one();
    let (x, y) = (size_of(a), size_of(f));
    assert(tame(f) && tame(a));
    lemma_one();
    lemma_within_int(k);
    lemma_within_product(k, 1, 32, y, u, 100);
    assert(1 * u == u) by (nonlinear_arith);
    lemma_near_int(k);
    lemma_near_itself(f);
    lemma_near_itself(a);
    lemma_within_more(k, 1, 32, 400);
    lemma_within_more(y, u, 100, 400);
    lemma_within_more(x, u, 100, 400);
    assert(0nat * 0 == 0);
    lemma_near_product(from_int(k as int), f, k, 1, y, u, 0, 0, 400);
    lemma_near_product(a, from_int(k as int), x, u, k, 1, 0, 0, 400);
    assert(u * 1 == u) by (nonlinear_arith);
    lemma_within_product(x, u, 100, k, 1, 32);
    lemma_within_more(x * k, u, 132, 400);
    assert(2nat * 0 == 0);
    lemma_near_product(
        fmul(a, from_int(k as int)),
        f,
        x * k,
        u,
        y,
        u,
        2,
        0,
        400,
    );
    lemma_within_product(x * k, u, 132, y, u, 100);
    assert((x * k) * y == x * (k * y)) by (nonlinear_arith);
}

proof fn lemma_mean_speed(s: Seq<RouteSummary>, c: Seq<SubClipSummary>)
    requires
        c.len() <= 0x4_0000,
        speeds_tame(s, c),
    ensures
        is_weighted_mean(mean_speed(s, c), s, c),
{
    let n = c.len() as int;
    let u = one();
    let (wt, sp) = (weights(s, c), weighted_speeds(s, c));
    let (a, b) = (terms(s, c, Part::SpeedSum), terms(s, c, Part::Samples));
    lemma_one();
    assert(u * u > 0) by (nonlinear_arith)
        requires
            u > 0,
    ;
    lemma_share_total(s, c, Part::Samples, n);
    lemma_share_total(s, c, Part::SpeedSum, n);
    assert forall|i: int| 0 <= i < n implies within(#[trigger] wt(i), u, 132) by {
        lemma_weight(s, c, i);
    }
    assert forall|i: int| 0 <= i < n implies near(#[trigger] b(i), wt(i), u, 2) by {
        lemma_weight(s, c, i);
    }
    assert forall|i: int| 0 <= i < n implies within(#[trigger] sp(i), u * u, 232) by {
        lemma_weight(s, c, i);
    }
    assert forall|i: int| 0 <= i < n implies near(#[trigger] a(i), sp(i), u * u, 4) by {
        lemma_weight(s, c, i);
    }
    lemma_fold_near(b, wt, u, 2, n, 132);
    lemma_fold_near(a, sp, u * u, 4, n, 232);
    lemma_total_within(wt, n, u, 132);
    lemma_total_within(sp, n, u * u, 232);
    let w = total(wt, n);
    let p = total(sp, n);
    let samples = share_total(s, c, Part::Samples, n);
    let sum = share_total(s, c, Part::SpeedSum, n);
    let (e, f) = (4 + n as nat, 2 + n as nat);
    lemma_within_more(w, u, 164, 400);
    lemma_within_more(p, u * u, 264, 400);
    lemma_order(zero(), samples);
    assert(size_of(zero()) == 0);
    lemma_sign_of_near(samples, w, u, f);
    if w > 0 {
        assert(e * f <= 0x4_0000_0000_0000) by (nonlinear_arith)
            requires
                e <= 0x10_0000,
                f <= 0x10_0000,
        ;
        lemma_near_quotient(sum, samples, p, u * u, w, u, e, f, 400);
        assert((u * u) * w > 0 && u * w > 0) by (nonlinear_arith)
            requires
                u > 0,
                w > 0,
        ;
        assert((p * u) * (u * w) == p * ((u * u) * w)) by (nonlinear_arith);
        lemma_near_same(fdiv(sum, samples), p * u, (u * u) * w, p, u * w, e + f + 2);
    }
}

/// The average speed of a drive is the mean of its clips' averages, each weighted by its
/// samples and its share of the clip, up to rounding.
pub proof fn law_average_weighs_the_samples(
    s: Seq<RouteSummary>,
    c: Seq<SubClipSummary>,
    bridges: Seq<F64>,
    d: DriveSummary,
)
    requires
        measured_columns(s, c, bridges, d),
        c.len() <= 0x4_0000,
        speeds_tame(s, c),
    ensures
        exists|v: F64|
            #[trigger] is_weighted_mean(v, s, c) && d.avg_speed_kmh == rounded2(
                fmul(v, lit(MPS_TO_KMH)),
            ) && d.avg_speed_mph == rounded2(fmul(v, lit(MPS_TO_MPH))),
{
    lemma_mean_speed(s, c);
    assert(is_weighted_mean(mean_speed(s, c), s, c));
}

/// The mean lies between the least and the greatest average of a clip with samples, up
/// to rounding: from `lo` to `hi` units. A drive of one whole clip so has its average.
pub proof fn law_average_lies_between(
    s: Seq<RouteSummary>,
    c: Seq<SubClipSummary>,
    v: F64,
    lo: nat,
    hi: nat,
)
    requires
        is_weighted_mean(v, s, c),
        speeds_tame(s, c),
        total(weights(s, c), c.len() as int) > 0,
        forall|i: int|
            0 <= i < c.len() && clip_behind(s, c, i).aggregates.speed_sample_count > 0 ==> lo
                <= size_of((#[trigger] clip_behind(s, c, i)).aggregates.avg_speed_mps) <= hi,
    ensures
        grain() * size_of(v) <= (grain() + 2 * (2 * c.len() + 8)) * hi,
        grain() * lo <= grain() * size_of(v) + 2 * (2 * c.len() + 8) * hi,
{
    let n = c.len() as int;
    let (wt, sp) = (weights(s, c), weighted_speeds(s, c));
    let (w, p) = (total(wt, n), total(sp, n));
    let u = one();
    let g = grain();
    let e = (2 * n + 8) as nat;
    lemma_one();
    lemma_between_totals(s, c, lo, hi, n);
    let z = size_of(v);
    assert(g * z <= (g + 2 * e) * hi) by {
        assert((g + 2 * e) * (p * u) <= (g + 2 * e) * ((hi * w) * u)) by (nonlinear_arith)
            requires
                p <= hi * w,
        ;
        assert((g * z) * (u * w) <= ((g + 2 * e) * hi) * (u * w)) by (nonlinear_arith)
            requires
                g * (z * (u * w)) <= (g + 2 * e) * ((hi * w) * u),
        ;
        assert(u * w > 0) by (nonlinear_arith)
            requires
                u > 0,
                w > 0,
        ;
        assert(g * z <= (g + 2 * e) * hi) by (nonlinear_arith)
            requires
                (g * z) * (u * w) <= ((g + 2 * e) * hi) * (u * w),
                u * w > 0,
        ;
    }
    assert(g * lo <= g * z + 2 * e * hi) by {
        assert(g * ((lo * w) * u) <= g * (p * u)) by (nonlinear_arith)
            requires
                lo * w <= p,
        ;
        assert((2 * e) * (p * u) <= (2 * e) * ((hi * w) * u)) by (nonlinear_arith)
            requires
                p <= hi * w,
        ;
        assert((g * lo) * (u * w) <= (g * z + 2 * e * hi) * (u * w)) by (nonlinear_arith)
            requires
                g * ((lo * w) * u) <= g * (z * (u * w)) + (2 * e) * ((hi * w) * u),
        ;
        assert(u * w > 0) by (nonlinear_arith)
            requires
                u > 0,
                w > 0,
        ;
        assert(g * lo <= g * z + 2 * e * hi) by (nonlinear_arith)
            requires
                (g * lo) * (u * w) <= (g * z + 2 * e * hi) * (u * w),
                u * w > 0,
        ;
    }
}

proof fn lemma_between_totals(s: Seq<RouteSummary>, c: Seq<SubClipSummary>, lo: nat, hi: nat, n: int)
    requires
        speeds_tame(s, c),
        0 <= n <= c.len(),
        forall|i: int|
            0 <= i < c.len() && clip_behind(s, c, i).aggregates.speed_sample_count > 0 ==> lo
                <= size_of((#[trigger] clip_behind(s, c, i)).aggregates.avg_speed_mps) <= hi,
    ensures
        lo * total(weights(s, c), n) <= total(weighted_speeds(s, c), n) <= hi * total(
            weights(s, c),
            n,
        ),
    decreases n,
{
    if n > 0 {
        lemma_between_totals(s, c, lo, hi, n - 1);
        let k = weights(s, c)(n - 1);
        let a = size_of(clip_behind(s, c, n - 1).aggregates.avg_speed_mps);
        let count = clip_behind(s, c, n - 1).aggregates.speed_sample_count;
        let t = total(weights(s, c), n - 1);
        assert(tame(c[n - 1].fraction));
        if count == 0 {
            lemma_no_weight(s, c, n - 1);
        }
        assert(lo * k <= a * k <= hi * k) by (nonlinear_arith)
            requires
                k == 0 || lo <= a <= hi,
        ;
        assert(lo * (t + k) == lo * t + lo * k && hi * (t + k) == hi * t + hi * k)
            by (nonlinear_arith);
    } else {
        assert(lo * 0 == 0 && hi * 0 == 0) by (nonlinear_arith);
    }
}

proof fn lemma_no_weight(s: Seq<RouteSummary>, c: Seq<SubClipSummary>, i: int)
    requires
        clip_behind(s, c, i).aggregates.speed_sample_count == 0,
    ensures
        weights(s, c)(i) == 0,
{
    assert(0 * size_of(c[i].fraction) == 0) by (nonlinear_arith);
}

// ---------------------------------------------------------------------------
// Top speed
// ---------------------------------------------------------------------------

/// Member `i` is the first of its file.
pub open spec fn opens_file(s: Seq<RouteSummary>, c: Seq<SubClipSummary>, i: int) -> bool {
    forall|j: int|
        0 <= j < i ==> (#[trigger] clip_behind(s, c, j)).file@ != clip_behind(s, c, i).file@
}

pub proof fn lemma_opens_file(s: Seq<RouteSummary>, c: Seq<SubClipSummary>, i: int)
    ensures
        first_of_file(s, c, i) == opens_file(s, c, i),
{
    if first_of_file(s, c, i) {
        assert forall|j: int| 0 <= j < i implies (#[trigger] clip_behind(s, c, j)).file@
            != clip_behind(s, c, i).file@ by {
            assert(s[c[j].summary as int].file@ != s[c[i].summary as int].file@);
        }
    } else {
        let j = choose|j: int|
            0 <= j < i && s[(#[trigger] c[j]).summary as int].file@ == s[c[i].summary as int].file@;
        assert(clip_behind(s, c, j).file@ == clip_behind(s, c, i).file@);
    }
}

/// `top` is the greatest of the top speeds of the drive's files, or zero.
pub open spec fn is_top_of(top: F64, s: Seq<RouteSummary>, c: Seq<SubClipSummary>, n: int) -> bool {
    &&& fle(zero(), top)
    &&& forall|i: int|
        0 <= i < n && opens_file(s, c, i) && !is_nan(clip_behind(s, c, i).aggregates.max_speed_mps)
            ==> fle((#[trigger] clip_behind(s, c, i)).aggregates.max_speed_mps, top)
    &&& top == zero() || exists|i: int|
        0 <= i < n && opens_file(s, c, i) && (#[trigger] clip_behind(s, c, i)).aggregates.max_speed_mps
            == top
}

proof fn lemma_top_speed(s: Seq<RouteSummary>, c: Seq<SubClipSummary>, n: int)
    ensures
        is_top_of(top_speed(s, c, n), s, c, n),
    decreases n,
{
    if n > 0 {
        lemma_top_speed(s, c, n - 1);
        lemma_opens_file(s, c, n - 1);
        let before = top_speed(s, c, n - 1);
        let top = top_speed(s, c, n);
        if first_of_file(s, c, n - 1) && flt(before, scalars(s, c, n - 1).max_speed_mps) {
            assert(clip_behind(s, c, n - 1).aggregates.max_speed_mps == top);
        } else if top != zero() {
            let i = choose|i: int|
                0 <= i < n - 1 && opens_file(s, c, i) && (#[trigger] clip_behind(
                    s,
                    c,
                    i,
                )).aggregates.max_speed_mps == before;
            assert(clip_behind(s, c, i).aggregates.max_speed_mps == top);
        }
    }
}

/// The top speed of a row is the greatest top speed of its files.
pub proof fn law_row_top_speed(
    s: Seq<RouteSummary>,
    c: Seq<SubClipSummary>,
    bridges: Seq<F64>,
    d: DriveSummary,
)
    requires
        measured_columns(s, c, bridges, d),
    ensures
        exists|top: F64|
            #[trigger] is_top_of(top, s, c, c.len() as int) && d.max_speed_kmh == rounded2(
                fmul(top, lit(MPS_TO_KMH)),
            ) && d.max_speed_mph == rounded2(fmul(top, lit(MPS_TO_MPH))),
{
    lemma_top_speed(s, c, c.len() as int);
}

// ---------------------------------------------------------------------------
// Distance
// ---------------------------------------------------------------------------

/// Fractions, distances and gaps are in order.
pub open spec fn metres_tame(s: Seq<RouteSummary>, c: Seq<SubClipSummary>, bridges: Seq<F64>) -> bool {
    &&& bridges.len() == c.len()
    &&& forall|i: int|
        0 <= i < c.len() ==> tame((#[trigger] c[i]).fraction) && tame(
            clip_behind(s, c, i).aggregates.distance_m,
        ) && tame(clip_behind(s, c, i).aggregates.fsd_distance_m) && tame(
            clip_behind(s, c, i).aggregates.autosteer_distance_m,
        ) && tame(clip_behind(s, c, i).aggregates.tacc_distance_m) && tame(
            clip_behind(s, c, i).aggregates.assisted_distance_m,
        ) && tame(bridges[i])
}

/// A column by the share of each member, in square units.
pub open spec fn shared_units(
    c: Seq<SubClipSummary>,
    column: spec_fn(int) -> F64,
) -> spec_fn(int) -> nat {
    |i: int| size_of(column(i)) * size_of(c[i].fraction)
}

/// Gaps that are kept, in square units.
pub open spec fn bridge_units(bridges: Seq<F64>, keep: spec_fn(int) -> bool) -> spec_fn(int) -> nat {
    |i: int|
        if keep(i) {
            size_of(bridges[i]) * one()
        } else {
            0
        }
}

/// `m` metres are the column's, by the share of each member, and those of the gaps that
/// are kept, up to rounding.
pub open spec fn is_made_of(
    m: F64,
    c: Seq<SubClipSummary>,
    column: spec_fn(int) -> F64,
    bridges: Seq<F64>,
    keep: spec_fn(int) -> bool,
) -> bool {
    let n = c.len() as int;
    near(
        m,
        total(shared_units(c, column), n) + total(bridge_units(bridges, keep), n),
        one() * one(),
        (2 * n + 3) as nat,
    )
}

/// The gap in front of member `i` is known.
pub open spec fn has_gap(s: Seq<RouteSummary>, c: Seq<SubClipSummary>) -> spec_fn(int) -> bool {
    |i: int| gap_ends(s, c, i) is Some
}

/// The gap in front of member `i` is known, and the clip behind it starts in `mode`.
pub open spec fn gap_into(s: Seq<RouteSummary>, c: Seq<SubClipSummary>, mode: u8) -> spec_fn(int) -> bool {
    |i: int|
        gap_ends(s, c, i) is Some && clip_behind(s, c, i).aggregates.ap_at_start == Some(mode as i32)
}

proof fn lemma_shared(c: Seq<SubClipSummary>, column: spec_fn(int) -> F64, i: int)
    requires
        tame(column(i)),
        tame(c[i].fraction),
    ensures
        within(shared_units(c, column)(i), one() * one(), 200),
        near(fmul(column(i), c[i].fraction), shared_units(c, column)(i), one() * one(), 2),
{
    let u = one();
    let (x, y) = (size_of(column(i)), size_of(c[i].fraction));
    lemma_within_product(x, u, 100, y, u, 100);
    lemma_near_itself(column(i));
    lemma_near_itself(c[i].fraction);
    lemma_within_more(x, u, 100, 400);
    lemma_within_more(y, u, 100, 400);
    assert(0nat * 0 == 0);
    lemma_near_product(column(i), c[i].fraction, x, u, y, u, 0, 0, 400);
}

proof fn lemma_bridge(bridges: Seq<F64>, keep: spec_fn(int) -> bool, i: int)
    requires
        tame(bridges[i]),
    ensures
        within(bridge_units(bridges, keep)(i), one() * one(), 200),
        keep(i) ==> near(bridges[i], bridge_units(bridges, keep)(i), one() * one(), 0),
{
    let u = one();
    let x = size_of(bridges[i]);
    lemma_one();
    lemma_near_itself(bridges[i]);
    assert(u * u > 0) by (nonlinear_arith)
        requires
            u > 0,
    ;
    assert(x * (u * u) == (x * u) * u) by (nonlinear_arith);
    lemma_near_same(bridges[i], x, u, x * u, u * u, 0);
    lemma_within_itself(u);
    lemma_within_product(x, u, 100, u, u, 100);
    if !keep(i) {
        vstd::arithmetic::power2::lemma_pow2_pos(200);
    }
}

proof fn lemma_within_itself(u: nat)
    ensures
        within(u, u, 100),
{
    vstd::arithmetic::power2::lemma_pow2_pos(100);
    assert(u <= u * vstd::arithmetic::power2::pow2(100)) by (nonlinear_arith)
        requires
            vstd::arithmetic::power2::pow2(100) >= 1,
    ;
}

/// The sum of a column over the members is near the exact one.
pub proof fn lemma_column(
    s: Seq<RouteSummary>,
    c: Seq<SubClipSummary>,
    p: Part,
    column: spec_fn(int) -> F64,
)
    requires
        c.len() <= 0x4_0000,
        forall|i: int| 0 <= i < c.len() ==> #[trigger] column(i) == part_value(scalars(s, c, i), p),
        forall|i: int| 0 <= i < c.len() ==> tame(#[trigger] column(i)),
        forall|i: int| 0 <= i < c.len() ==> tame((#[trigger] c[i]).fraction),
    ensures
        near(
            share_total(s, c, p, c.len() as int),
            total(shared_units(c, column), c.len() as int),
            one() * one(),
            (c.len() + 2) as nat,
        ),
        within(total(shared_units(c, column), c.len() as int), one() * one(), 232),
{
    let n = c.len() as int;
    let u = one();
    let (v, q) = (terms(s, c, p), shared_units(c, column));
    lemma_one();
    assert(u * u > 0) by (nonlinear_arith)
        requires
            u > 0,
    ;
    assert forall|i: int| 0 <= i < n implies within(#[trigger] q(i), u * u, 200) by {
        assert(tame(column(i)) && tame(c[i].fraction));
        lemma_shared(c, column, i);
    }
    assert forall|i: int| 0 <= i < n implies near(#[trigger] v(i), q(i), u * u, 2) by {
        assert(column(i) == part_value(scalars(s, c, i), p));
        assert(tame(column(i)) && tame(c[i].fraction));
        lemma_shared(c, column, i);
    }
    lemma_share_total(s, c, p, n);
    lemma_fold_near(v, q, u * u, 2, n, 200);
    lemma_total_within(q, n, u * u, 200);
}

/// The sum of the gaps in front of clips that start in `mode`.
pub proof fn lemma_bridges(s: Seq<RouteSummary>, c: Seq<SubClipSummary>, bridges: Seq<F64>, mode: u8, n: int)
    requires
        0 <= n <= c.len(),
        c.len() <= 0x4_0000,
        metres_tame(s, c, bridges),
    ensures
        near(
            bridge_total(s, c, bridges, mode, n),
            total(bridge_units(bridges, gap_into(s, c, mode)), n),
            one() * one(),
            n as nat,
        ),
        within(total(bridge_units(bridges, gap_into(s, c, mode)), n), one() * one(), 232),
    decreases n,
{
    let u = one();
    let keep = gap_into(s, c, mode);
    let q = bridge_units(bridges, keep);
    lemma_one();
    assert(u * u > 0) by (nonlinear_arith)
        requires
            u > 0,
    ;
    assert forall|i: int| 0 <= i < n implies within(#[trigger] q(i), u * u, 200) by {
        assert(tame(c[i].fraction));
        lemma_bridge(bridges, keep, i);
    }
    lemma_total_within(q, n, u * u, 200);
    if n <= 0 {
        assert(size_of(zero()) == 0);
        assert(0 * one() == 0 && 0 * (u * u) == 0) by (nonlinear_arith);
    } else {
        lemma_bridges(s, c, bridges, mode, n - 1);
        let a = bridge_total(s, c, bridges, mode, n - 1);
        let e = (n - 1) as nat;
        assert(tame(c[n - 1].fraction));
        lemma_bridge(bridges, keep, n - 1);
        if keep(n - 1) {
            lemma_near_more(bridges[n - 1], q(n - 1), u * u, 0, e);
            lemma_within_more(total(q, n - 1), u * u, 232, 900);
            lemma_within_more(q(n - 1), u * u, 200, 900);
            lemma_near_sum(a, bridges[n - 1], total(q, n - 1), q(n - 1), u * u, e);
        } else {
            lemma_near_more(a, total(q, n - 1), u * u, e, n as nat);
        }
    }
}

pub open spec fn distances(s: Seq<RouteSummary>, c: Seq<SubClipSummary>) -> spec_fn(int) -> F64 {
    |i: int| clip_behind(s, c, i).aggregates.distance_m
}

pub open spec fn fsd_distances(s: Seq<RouteSummary>, c: Seq<SubClipSummary>) -> spec_fn(int) -> F64 {
    |i: int| clip_behind(s, c, i).aggregates.fsd_distance_m
}

pub open spec fn autosteer_distances(s: Seq<RouteSummary>, c: Seq<SubClipSummary>) -> spec_fn(int) -> F64 {
    |i: int| clip_behind(s, c, i).aggregates.autosteer_distance_m
}

pub open spec fn tacc_distances(s: Seq<RouteSummary>, c: Seq<SubClipSummary>) -> spec_fn(int) -> F64 {
    |i: int| clip_behind(s, c, i).aggregates.tacc_distance_m
}

proof fn lemma_distance_total(s: Seq<RouteSummary>, c: Seq<SubClipSummary>, bridges: Seq<F64>, n: int)
    requires
        0 <= n <= c.len(),
        c.len() <= 0x4_0000,
        metres_tame(s, c, bridges),
    ensures
        near(
            distance_total(s, c, bridges, n),
            total(shared_units(c, distances(s, c)), n) + total(
                bridge_units(bridges, has_gap(s, c)),
                n,
            ),
            one() * one(),
            (2 * n + 2) as nat,
        ),
    decreases n,
{
    let u = one();
    let keep = has_gap(s, c);
    let column = distances(s, c);
    let (p, q) = (shared_units(c, column), bridge_units(bridges, keep));
    lemma_one();
    assert(u * u > 0) by (nonlinear_arith)
        requires
            u > 0,
    ;
    if n <= 0 {
        assert(size_of(zero()) == 0);
        assert(0 * one() == 0 && 0 * (u * u) == 0) by (nonlinear_arith);
    } else {
        let i = n - 1;
        lemma_distance_total(s, c, bridges, i);
        assert forall|k: int| 0 <= k < n implies within(#[trigger] q(k), u * u, 200) by {
            assert(tame(c[k].fraction));
            lemma_bridge(bridges, keep, k);
        }
        assert forall|k: int| 0 <= k < n implies within(#[trigger] p(k), u * u, 200) by {
            assert(tame(c[k].fraction));
            lemma_shared(c, column, k);
        }
        lemma_total_within(p, i, u * u, 200);
        lemma_total_within(q, i, u * u, 200);
        assert(tame(c[i].fraction));
        lemma_shared(c, column, i);
        lemma_bridge(bridges, keep, i);
        let e = (2 * i + 2) as nat;
        let a = distance_total(s, c, bridges, i);
        let b = share_of(c, i, scalars(s, c, i).distance_m);
        let m = total(p, i) + total(q, i);
        lemma_near_more(b, p(i), u * u, 2, e);
        lemma_within_more(p(i), u * u, 200, 900);
        assert(within(p(i), u * u, 200) && within(q(i), u * u, 200));
        lemma_room(total(p, i), total(q, i), p(i), u * u);
        lemma_near_sum(a, b, m, p(i), u * u, e);
        let t = fadd(a, b);
        if keep(i) {
            lemma_near_more(bridges[i], q(i), u * u, 0, e + 1);
            lemma_within_more(q(i), u * u, 200, 900);
            lemma_near_sum(t, bridges[i], m + p(i), q(i), u * u, e + 1);
        } else {
            lemma_near_more(t, m + p(i), u * u, e + 1, e + 2);
        }
    }
}

proof fn lemma_room(a: nat, b: nat, c: nat, d: nat)
    requires
        within(a, d, 232),
        within(b, d, 232),
        within(c, d, 200),
    ensures
        a + b <= d * vstd::arithmetic::power2::pow2(900),
        a + b + c <= d * vstd::arithmetic::power2::pow2(900),
{
    lemma_within_more(a, d, 232, 898);
    lemma_within_more(b, d, 232, 898);
    lemma_within_more(c, d, 200, 898);
    vstd::arithmetic::power2::lemma_pow2_unfold(899);
    vstd::arithmetic::power2::lemma_pow2_unfold(900);
    let t = vstd::arithmetic::power2::pow2(898);
    assert(a + b + c <= d * (4 * t)) by (nonlinear_arith)
        requires
            a <= d * t,
            b <= d * t,
            c <= d * t,
    ;
}

/// These metres stand in the row, in kilometres, in miles and as shares of the whole.
pub open spec fn row_shows(d: DriveSummary, all: F64, fsd: F64, steer: F64, tacc: F64) -> bool {
    &&& d.distance_km == rounded2(fdiv(all, from_int(1000)))
    &&& d.distance_mi == rounded2(fdiv(all, lit(M_PER_MILE)))
    &&& d.fsd_distance_km == rounded2(fdiv(fsd, from_int(1000)))
    &&& d.fsd_distance_mi == rounded2(fdiv(fsd, lit(M_PER_MILE)))
    &&& d.autosteer_distance_km == rounded2(fdiv(steer, from_int(1000)))
    &&& d.autosteer_distance_mi == rounded2(fdiv(steer, lit(M_PER_MILE)))
    &&& d.tacc_distance_km == rounded2(fdiv(tacc, from_int(1000)))
    &&& d.tacc_distance_mi == rounded2(fdiv(tacc, lit(M_PER_MILE)))
    &&& d.fsd_percent == percent_of(fsd, all)
    &&& d.autosteer_percent == percent_of(steer, all)
    &&& d.tacc_percent == percent_of(tacc, all)
}

proof fn lemma_mode_total(
    s: Seq<RouteSummary>,
    c: Seq<SubClipSummary>,
    bridges: Seq<F64>,
    mode: u8,
    column: spec_fn(int) -> F64,
)
    requires
        c.len() <= 0x4_0000,
        metres_tame(s, c, bridges),
        forall|i: int|
            0 <= i < c.len() ==> #[trigger] column(i) == part_value(
                scalars(s, c, i),
                metres_of(mode),
            ),
        forall|i: int| 0 <= i < c.len() ==> tame(#[trigger] column(i)),
    ensures
        is_made_of(mode_total(s, c, bridges, mode), c, column, bridges, gap_into(s, c, mode)),
{
    let n = c.len() as int;
    let u = one();
    assert forall|i: int| 0 <= i < c.len() implies tame((#[trigger] c[i]).fraction) by {}
    lemma_column(s, c, metres_of(mode), column);
    lemma_bridges(s, c, bridges, mode, n);
    let a = share_total(s, c, metres_of(mode), n);
    let b = bridge_total(s, c, bridges, mode, n);
    let (p, q) = (total(shared_units(c, column), n), total(bridge_units(bridges, gap_into(s, c, mode)), n));
    let e = (n + 2) as nat;
    lemma_near_more(b, q, u * u, n as nat, e);
    lemma_within_more(p, u * u, 232, 900);
    lemma_within_more(q, u * u, 232, 900);
    lemma_near_sum(a, b, p, q, u * u, e);
    lemma_near_more(fadd(a, b), p + q, u * u, e + 1, (2 * n + 3) as nat);
}

pub proof fn lemma_row_length(s: Seq<RouteSummary>, c: Seq<SubClipSummary>, bridges: Seq<F64>)
    requires
        c.len() <= 0x4_0000,
        metres_tame(s, c, bridges),
    ensures
        is_made_of(
            distance_total(s, c, bridges, c.len() as int),
            c,
            distances(s, c),
            bridges,
            has_gap(s, c),
        ),
{
    let n = c.len() as int;
    lemma_distance_total(s, c, bridges, n);
    lemma_near_more(
        distance_total(s, c, bridges, n),
        total(shared_units(c, distances(s, c)), n) + total(bridge_units(bridges, has_gap(s, c)), n),
        one() * one(),
        (2 * n + 2) as nat,
        (2 * n + 3) as nat,
    );
}

/// The distance of a row is that of its clips, each by its share, and of the known gaps
/// between them, up to rounding. That of a mode is the clips' distance in it and the gaps
/// in front of clips that start in it.
pub proof fn law_row_distances(
    s: Seq<RouteSummary>,
    c: Seq<SubClipSummary>,
    bridges: Seq<F64>,
    d: DriveSummary,
)
    requires
        measured_columns(s, c, bridges, d),
        c.len() <= 0x4_0000,
        metres_tame(s, c, bridges),
    ensures
        exists|all: F64, fsd: F64, steer: F64, tacc: F64|
            {
                &&& #[trigger] row_shows(d, all, fsd, steer, tacc)
                &&& is_made_of(all, c, distances(s, c), bridges, has_gap(s, c))
                &&& is_made_of(fsd, c, fsd_distances(s, c), bridges, gap_into(s, c, 1u8))
                &&& is_made_of(steer, c, autosteer_distances(s, c), bridges, gap_into(s, c, 2u8))
                &&& is_made_of(tacc, c, tacc_distances(s, c), bridges, gap_into(s, c, 3u8))
            },
{
    let n = c.len() as int;
    let all = distance_total(s, c, bridges, n);
    lemma_row_length(s, c, bridges);
    let (f, a, t) = (fsd_distances(s, c), autosteer_distances(s, c), tacc_distances(s, c));
    assert forall|i: int| 0 <= i < n implies tame(#[trigger] f(i)) by {
        assert(tame(c[i].fraction));
    }
    assert forall|i: int| 0 <= i < n implies tame(#[trigger] a(i)) by {
        assert(tame(c[i].fraction));
    }
    assert forall|i: int| 0 <= i < n implies tame(#[trigger] t(i)) by {
        assert(tame(c[i].fraction));
    }
    lemma_mode_total(s, c, bridges, 1u8, f);
    lemma_mode_total(s, c, bridges, 2u8, a);
    lemma_mode_total(s, c, bridges, 3u8, t);
    assert(row_shows(
        d,
        all,
        mode_total(s, c, bridges, 1u8),
        mode_total(s, c, bridges, 2u8),
        mode_total(s, c, bridges, 3u8),
    ));
}

} // verus!
