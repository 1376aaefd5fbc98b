//! When the stretches of a clip start.

use vstd::arithmetic::div_mod::{
    lemma_div_is_ordered, lemma_div_multiples_vanish, lemma_div_plus_one,
};
use vstd::arithmetic::power2::{lemma2_to64, lemma_pow2_adds, lemma_pow2_pos, pow2};
use crate::aggregate::frames_before;
use crate::clock::{is_clip_time, law_longer_shifts_lead_further, lemma_shifted_fits};
use crate::float::{F64, HALF64, fle, fmul, from_int, fround, to_int, whole_part};
use crate::rounding::{
    holds_units, lemma_between, lemma_from_int_exact, lemma_fround, lemma_one, lemma_order,
    lemma_place_relative, lemma_product, lemma_quotient, lemma_scaled_is_value, one, size_of,
};
use crate::split::{
    FrameSeg, clip_segs, frame_seconds, frame_segs, law_segments_tile_the_clip,
    lemma_frames_nonnegative, tiles,
};
use crate::subclips::{sub_tokens, summaries_fit};
use crate::timeline::Timed;
use crate::types::{GearRun, RouteSummary};
use vstd::prelude::*;

verus! {

/// A product of moderate size is off by at most an eighth.
proof fn lemma_product_close(a: F64, b: F64, x: nat, y: nat)
    requires
        holds_units(a, x),
        holds_units(b, y),
        x * y <= (pow2(50) * one()) * one(),
    ensures
        ({
            let p = size_of(fmul(a, b));
            &&& holds_units(fmul(a, b), p)
            &&& 8 * (p * one()) <= 8 * (x * y) + one() * one()
            &&& 8 * (x * y) <= 8 * (p * one()) + one() * one()
        }),
{
    let u = one();
    let half = HALF64 as nat;
    let n = x * y;
    lemma_one();
    lemma_scaled_is_value(0, 0);
    assert(0 * pow2(0) == 0) by (nonlinear_arith);
    assert(0 * u == 0) by (nonlinear_arith);
    lemma_scaled_is_value(1, 1124);
    lemma_pow2_adds(50, 1074);
    assert(1 * pow2(1124) == pow2(50) * u);
    lemma_product(a, b, x, y, 0, pow2(50) * u);
    let p = size_of(fmul(a, b));
    lemma2_to64();
    lemma_pow2_adds(50, 2);
    assert(8 * (half * u) <= u * u) by (nonlinear_arith)
        requires
            u >= half * half,
            half >= 8,
    ;
    if n >= u * half {
        lemma_place_relative(n, u, half);
        assert(8 * n <= (2 * half) * (u * u)) by (nonlinear_arith)
            requires
                n <= (pow2(50) * u) * u,
                pow2(52) == half,
                pow2(52) == 4 * pow2(50),
        ;
        assert(8 * (p * u) <= 8 * n + u * u && 8 * n <= 8 * (p * u) + u * u) by (nonlinear_arith)
            requires
                (2 * half) * (p * u) <= (2 * half) * n + n,
                (2 * half) * n <= (2 * half) * (p * u) + n,
                8 * n <= (2 * half) * (u * u),
                half > 0,
        ;
    } else {
        lemma_scaled_is_value(1, 52);
        assert(1 * pow2(52) == half);
        assert(n <= half * u) by (nonlinear_arith)
            requires
                n < u * half,
        ;
        lemma_product(a, b, x, y, 0, half);
        assert(p * u <= half * u) by (nonlinear_arith)
            requires
                p <= half,
        ;
    }
}

/// A frame of a clip lasts no longer than its share of a minute, and a bit.
proof fn lemma_frame_seconds(total: nat)
    requires
        1 <= total <= u32::MAX,
    ensures
        ({
            let s = frame_seconds(total as int);
            &&& holds_units(s, size_of(s))
            &&& total * size_of(s) <= 61 * one()
        }),
{
    let u = one();
    let half = HALF64 as nat;
    lemma_one();
    lemma_from_int_exact(60);
    lemma_from_int_exact(total);
    lemma_scaled_is_value(0, 0);
    assert(0 * pow2(0) == 0) by (nonlinear_arith);
    lemma_scaled_is_value(60, 1074);
    let n = (60 * u) * u;
    let d = total * u;
    assert(d > 0 && 0 * d <= n && n <= (60 * u) * d && n >= d * half) by (nonlinear_arith)
        requires
            n == (60 * u) * u,
            d == total * u,
            1 <= total <= 0xFFFF_FFFF,
            u >= half * half,
            half > 0xFFFF_FFFF,
    ;
    lemma_quotient(from_int(60), from_int(total as int), 60 * u, total * u, 0, 60 * u);
    let q = size_of(frame_seconds(total as int));
    lemma_place_relative(n, d, half);
    assert(total * q <= 61 * u) by (nonlinear_arith)
        requires
            (2 * half) * (q * d) <= (2 * half) * n + n,
            n == (60 * u) * u,
            d == total * u,
            u > 0,
            half >= 60,
    ;
}

/// Seconds into the clip of frame `f`, in units.
proof fn lemma_frame_time(f: nat, total: nat)
    requires
        f <= total,
        1 <= total <= u32::MAX,
    ensures
        ({
            let s = frame_seconds(total as int);
            let p = fmul(from_int(f as int), s);
            &&& holds_units(p, size_of(p))
            &&& 8 * size_of(p) <= 8 * (f * size_of(s)) + one()
            &&& 8 * (f * size_of(s)) <= 8 * size_of(p) + one()
            &&& f * size_of(s) <= 61 * one()
        }),
{
    let u = one();
    lemma_one();
    lemma2_to64();
    lemma_frame_seconds(total);
    lemma_from_int_exact(f);
    let s = frame_seconds(total as int);
    let q = size_of(s);
    lemma_pow2_adds(6, 44);
    lemma_pow2_pos(44);
    assert(f * q <= 61 * u) by (nonlinear_arith)
        requires
            f <= total,
            total * q <= 61 * u,
    ;
    assert((f * u) * q == u * (f * q)) by (nonlinear_arith);
    assert(u * (f * q) <= (pow2(50) * u) * u) by (nonlinear_arith)
        requires
            f * q <= 61 * u,
            pow2(50) >= 61,
            u > 0,
    ;
    lemma_product_close(from_int(f as int), s, f * u, q);
    let p = size_of(fmul(from_int(f as int), s));
    assert(8 * p <= 8 * (f * q) + u && 8 * (f * q) <= 8 * p + u) by (nonlinear_arith)
        requires
            8 * (p * u) <= 8 * (u * (f * q)) + u * u,
            8 * (u * (f * q)) <= 8 * (p * u) + u * u,
            u > 0,
    ;
}

/// Milliseconds into the clip of frame `f`.
spec fn frame_ms(f: int, total: int) -> int {
    to_int(
        fround(fmul(fmul(from_int(f), frame_seconds(total)), from_int(1000))),
        i64::MIN as int,
        i64::MAX as int,
    )
}

/// The units of frame `f` in milliseconds before they are rounded.
spec fn ms_units(f: int, total: int) -> nat {
    size_of(fmul(fmul(from_int(f), frame_seconds(total)), from_int(1000)))
}

proof fn lemma_frame_ms(f: nat, total: nat)
    requires
        f <= total,
        1 <= total <= u32::MAX,
    ensures
        ({
            let p = size_of(fmul(from_int(f as int), frame_seconds(total as int)));
            let r = ms_units(f as int, total as int);
            &&& 8 * r <= 8000 * p + one()
            &&& 8000 * p <= 8 * r + one()
            &&& r <= 63_000 * one()
            &&& frame_ms(f as int, total as int) == (2 * r + one()) / (2 * one())
            &&& (2 * r + one()) / (2 * one()) <= 63_001
        }),
{
    let u = one();
    let half = HALF64 as nat;
    lemma_one();
    lemma2_to64();
    lemma_frame_time(f, total);
    lemma_from_int_exact(1000);
    let a = fmul(from_int(f as int), frame_seconds(total as int));
    let p = size_of(a);
    lemma_pow2_adds(16, 34);
    lemma_pow2_pos(34);
    assert(p * (1000 * u) <= (pow2(50) * u) * u) by (nonlinear_arith)
        requires
            p <= 62 * u,
            pow2(50) >= 65_536,
            u > 0,
    ;
    lemma_product_close(a, from_int(1000), p, 1000 * u);
    let b = fmul(a, from_int(1000));
    let r = size_of(b);
    assert(8 * r <= 8000 * p + u && 8000 * p <= 8 * r + u) by (nonlinear_arith)
        requires
            8 * (r * u) <= 8 * (p * (1000 * u)) + u * u,
            8 * (p * (1000 * u)) <= 8 * (r * u) + u * u,
            u > 0,
    ;
    assert(r <= 63_000 * u);
    assert(r <= pow2(104) * u) by (nonlinear_arith)
        requires
            r <= 63_000 * u,
            pow2(104) == half * half,
            half >= 63_000,
    ;
    lemma_fround(b, r);
    let n = (2 * r + u) / (2 * u);
    lemma_div_is_ordered((2 * r + u) as int, (63_001 * (2 * u)) as int, (2 * u) as int);
    lemma_div_multiples_vanish(63_001, (2 * u) as int);
    assert(63_001 * (2 * u) == (2 * u) * 63_001) by (nonlinear_arith);
    lemma_scaled_is_value(n, 1074);
    lemma_between(n * u, 1, n * u, n * u);
    reveal(whole_part);
    lemma_div_multiples_vanish(n as int, u as int);
    assert(n * u == u * n) by (nonlinear_arith);
}

/// Two frames with a Park gap between them start at least a millisecond apart.
proof fn lemma_frames_apart(f: nat, g: nat, k: nat, total: nat)
    requires
        f + k <= g <= total,
        1 <= total <= u32::MAX,
        fle(from_int(2), fmul(from_int(k as int), frame_seconds(total as int))),
    ensures
        0 <= frame_ms(f as int, total as int) < frame_ms(g as int, total as int) <= 63_001,
{
    let u = one();
    lemma_one();
    lemma_frame_time(f, total);
    lemma_frame_time(g, total);
    lemma_frame_time(k, total);
    lemma_frame_ms(f, total);
    lemma_frame_ms(g, total);
    let s = frame_seconds(total as int);
    let q = size_of(s);
    let gap_seconds = fmul(from_int(k as int), s);
    lemma_from_int_exact(2);
    lemma_order(gap_seconds, from_int(2));
    assert(size_of(gap_seconds) >= 2 * u);
    assert(f * q + k * q <= g * q) by (nonlinear_arith)
        requires
            f + k <= g,
    ;
    let x = size_of(fmul(from_int(f as int), s));
    let y = size_of(fmul(from_int(g as int), s));
    assert(y >= x + u);
    let v = ms_units(f as int, total as int);
    let w = ms_units(g as int, total as int);
    assert(2 * w + u >= 2 * v + u + 2 * u);
    lemma_div_is_ordered((2 * v + u + 2 * u) as int, (2 * w + u) as int, (2 * u) as int);
    lemma_div_plus_one((2 * v + u) as int, (2 * u) as int);
}

/// A Park stretch is one long run.
proof fn lemma_parked_are_long(runs: Seq<GearRun>, total: int, n: int, m: int)
    requires
        0 <= n <= runs.len(),
        frames_before(runs, n) <= u32::MAX,
        0 <= m < frame_segs(runs, total, n).len(),
        frame_segs(runs, total, n)[m].parked,
    ensures
        ({
            let seg = frame_segs(runs, total, n)[m];
            fle(from_int(2), fmul(from_int(seg.end - seg.start), frame_seconds(total)))
        }),
    decreases n,
{
    if n > 0 {
        lemma_frames_nonnegative(runs, 0, n - 1);
        lemma_frames_nonnegative(runs, n - 1, n);
        let before = frame_segs(runs, total, n - 1);
        let now = frame_segs(runs, total, n);
        if m < before.len() && now[m] == before[m] {
            lemma_parked_are_long(runs, total, n - 1, m);
        } else {
            assert(m == now.len() - 1);
        }
    }
}

/// Neighbouring stretches meet.
proof fn lemma_neighbours_meet(segs: Seq<FrameSeg>, total: int, i: int)
    requires
        tiles(segs, total),
        0 <= i < segs.len(),
    ensures
        segs[i].start <= segs[i].end,
        i + 1 < segs.len() ==> segs[i].end == segs[i + 1].start && (segs[i].parked || segs[i
            + 1].parked),
        i + 1 == segs.len() ==> segs[i].end == total,
{
    if i + 1 < segs.len() {
        assert(segs[i + 1 - 1].end == segs[i + 1].start);
    }
}

/// Starts do not go back along the stretches of a clip.
proof fn lemma_starts_ascend(segs: Seq<FrameSeg>, total: int, i: int, j: int)
    requires
        tiles(segs, total),
        0 <= i < j < segs.len(),
    ensures
        segs[i].end <= segs[j].start,
    decreases j - i,
{
    lemma_neighbours_meet(segs, total, j - 1);
    if i < j - 1 {
        lemma_starts_ascend(segs, total, i, j - 1);
    }
}

/// No stretch leaves the clip.
proof fn lemma_ends_inside(segs: Seq<FrameSeg>, total: int, j: int)
    requires
        tiles(segs, total),
        0 <= j < segs.len(),
    ensures
        segs[j].end <= total,
    decreases segs.len() - j,
{
    lemma_neighbours_meet(segs, total, j);
    if j + 1 < segs.len() {
        lemma_neighbours_meet(segs, total, j + 1);
        lemma_ends_inside(segs, total, j + 1);
    }
}

/// Stretches of one clip start in order: of two, the later one starts later.
pub proof fn law_stretches_start_in_order(summaries: Seq<RouteSummary>, t: Timed, i: int, j: int)
    requires
        summaries_fit(summaries),
        t.index < summaries.len(),
        is_clip_time(t.ts as int),
        0 <= i < j < sub_tokens(summaries, t).len(),
        sub_tokens(summaries, t)[i] is Clip,
        sub_tokens(summaries, t)[j] is Clip,
    ensures
        (sub_tokens(summaries, t)[i]->Clip_0).ts < (sub_tokens(summaries, t)[j]->Clip_0).ts,
{
    let runs = summaries[t.index as int].gear_runs@;
    let n = runs.len() as int;
    let total = frames_before(runs, n);
    let segs = clip_segs(runs);
    lemma_frames_nonnegative(runs, 0, n);
    law_segments_tile_the_clip(runs, total, n);
    let (a, b) = (segs[i], segs[j]);
    let m = i + 1;
    lemma_neighbours_meet(segs, total, i);
    assert(segs[m].parked && m < j);
    lemma_parked_are_long(runs, total, n, m);
    lemma_starts_ascend(segs, total, m, j);
    lemma_neighbours_meet(segs, total, m);
    lemma_neighbours_meet(segs, total, j);
    lemma_ends_inside(segs, total, j);
    let park = segs[m];
    lemma_frames_apart(
        a.start as nat,
        b.start as nat,
        (park.end - park.start) as nat,
        total as nat,
    );
    lemma_shifted_fits(t.ts as int, frame_ms(a.start as int, total));
    lemma_shifted_fits(t.ts as int, frame_ms(b.start as int, total));
    law_longer_shifts_lead_further(
        t.ts as int,
        frame_ms(a.start as int, total),
        frame_ms(b.start as int, total),
    );
}

} // verus!
