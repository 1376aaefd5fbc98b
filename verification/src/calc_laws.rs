//! What rounded figures and shares tell.

use crate::analytics::share_percent;
use crate::calc::rounded2;
use crate::float::{F64, fdiv, fle, flt, fmul, from_int, fround, rank, whole_part, zero};
use crate::nearness::{
    few, grain, lemma_near_int, lemma_near_itself, lemma_near_product, lemma_near_quotient,
    lemma_near_same, lemma_rounded_near, lemma_within_int, lemma_within_more, lemma_within_product,
    near, within,
};
use crate::rounding::{
    lemma_between, lemma_from_int_exact, lemma_fround, lemma_one, lemma_order,
    lemma_scaled_is_value, one, size_of,
};
use crate::summary::percent_of;
use crate::summary_laws::tame;
use vstd::prelude::*;

verus! {

/// `x` is the integer `k` over `by`.
pub open spec fn is_decimal(x: F64, k: int, by: int) -> bool {
    x == fdiv(from_int(k), from_int(by))
}

/// Rounded to an integer, what is near a quotient is an integer off by less than one.
proof fn lemma_rounds_to(x: F64, p: nat, d: nat, e: nat, b: nat) -> (k: nat)
    requires
        near(x, p, d, e),
        few(e),
        e * b <= 0x1_0000_0000_0000,
        p <= d * b,
        b <= 0x1_0000_0000,
    ensures
        fround(x) == from_int(k as int),
        k * d < p + d,
        p < k * d + d,
{
    let u = one();
    let g = grain();
    let s = size_of(x);
    lemma_rounded_near(x, p, d, e, b, 0, i64::MAX as int);
    lemma_one();
    assert(s * d <= 2 * (p * u)) by (nonlinear_arith)
        requires
            g * (s * d) <= (g + 2 * e) * (p * u),
            2 * e <= g,
            g > 0,
    ;
    assert(s <= (2 * b) * u) by (nonlinear_arith)
        requires
            s * d <= 2 * (p * u),
            p <= d * b,
            d > 0,
    ;
    vstd::arithmetic::power2::lemma2_to64();
    vstd::arithmetic::power2::lemma_pow2_strictly_increases(40, 104);
    vstd::arithmetic::power2::lemma2_to64_rest();
    assert(s <= vstd::arithmetic::power2::pow2(104) * u) by (nonlinear_arith)
        requires
            s <= (2 * b) * u,
            vstd::arithmetic::power2::pow2(104) >= 2 * b,
    ;
    lemma_fround(x, s);
    let n = (2 * s + u) / (2 * u);
    vstd::arithmetic::div_mod::lemma_fundamental_div_mod((2 * s + u) as int, (2 * u) as int);
    vstd::arithmetic::div_mod::lemma_mod_bound((2 * s + u) as int, (2 * u) as int);
    let rest = ((2 * s + u) % (2 * u)) as nat;
    assert(2 * s + u == (2 * u) * n + rest);
    assert(n <= 2 * b + 1) by (nonlinear_arith)
        requires
            2 * s + u == (2 * u) * n + rest,
            s <= (2 * b) * u,
            u > 0,
    ;
    lemma_scaled_is_value(n, 1074);
    lemma_between(n * u, 1, n * u, n * u);
    lemma_from_int_exact(n);
    let (a, c) = (fround(x), from_int(n as int));
    lemma_order(a, c);
    lemma_order(c, a);
    assert(rank(a) == rank(c));
    assert(a == c);
    reveal(whole_part);
    assert(n * u == u * n) by (nonlinear_arith);
    vstd::arithmetic::div_mod::lemma_div_multiples_vanish(n as int, u as int);
    n
}

/// Two decimals: the number of hundredths is the nearest, off by less than one.
pub proof fn law_two_decimals(x: F64)
    requires
        tame(x),
        size_of(x) <= 0x100_0000 * one(),
    ensures
        exists|k: int|
            #[trigger] is_decimal(rounded2(x), k, 100) && k * one() < 100 * size_of(x) + one() && 100
                * size_of(x) < k * one() + one(),
{
    let u = one();
    let s = size_of(x);
    lemma_one();
    lemma_near_itself(x);
    lemma_near_int(100);
    lemma_within_int(100);
    lemma_within_more(100, 1, 32, 400);
    lemma_within_more(s, u, 100, 400);
    assert(0nat * 0 == 0);
    lemma_near_product(x, from_int(100), s, u, 100, 1, 0, 0, 400);
    assert(u * 1 == u) by (nonlinear_arith);
    assert(s * 100 <= u * 0x6400_0000) by (nonlinear_arith)
        requires
            s <= 0x100_0000 * u,
    ;
    let k = lemma_rounds_to(fmul(x, from_int(100)), s * 100, u, 2, 0x6400_0000);
    assert(is_decimal(rounded2(x), k as int, 100));
}

/// A share in percent to one decimal: the tenths of a percent are the nearest to a
/// thousand times the part over the whole, off by less than one.
pub proof fn law_shares_are_percentages(part: F64, whole: F64)
    requires
        tame(part),
        tame(whole),
        size_of(whole) > 0,
        size_of(part) <= 1000 * size_of(whole),
    ensures
        percent_of(part, whole) == share_percent(part, whole),
        exists|k: int|
            #[trigger] is_decimal(percent_of(part, whole), k, 10) && k * size_of(whole) < 1000
                * size_of(part) + size_of(whole) && 1000 * size_of(part) < k * size_of(whole)
                + size_of(whole),
{
    let u = one();
    let (p, w) = (size_of(part), size_of(whole));
    lemma_one();
    lemma_near_itself(part);
    lemma_near_itself(whole);
    lemma_within_more(p, u, 100, 400);
    lemma_within_more(w, u, 100, 400);
    assert(0nat * 0 == 0 && 2nat * 0 == 0 && 4nat * 0 == 0);
    lemma_near_quotient(part, whole, p, u, w, u, 0, 0, 400);
    let q = fdiv(part, whole);
    assert((p * u) * w == p * (u * w)) by (nonlinear_arith);
    lemma_near_same(q, p * u, u * w, p, w, 2);
    lemma_near_int(100);
    lemma_near_int(10);
    lemma_within_int(100);
    lemma_within_int(10);
    lemma_within_more(100, 1, 32, 400);
    lemma_within_more(10, 1, 32, 400);
    lemma_within_over(p, w, u);
    lemma_within_more(p, w, 200, 400);
    lemma_near_product(q, from_int(100), p, w, 100, 1, 2, 0, 400);
    assert(w * 1 == w) by (nonlinear_arith);
    lemma_within_product(p, w, 200, 100, 1, 32);
    lemma_within_more(p * 100, w, 232, 400);
    let h = fmul(q, from_int(100));
    lemma_near_product(h, from_int(10), p * 100, w, 10, 1, 4, 0, 400);
    assert((p * 100) * 10 == 1000 * p) by (nonlinear_arith);
    assert(1000 * p <= w * 1_000_000) by (nonlinear_arith)
        requires
            p <= 1000 * w,
    ;
    let k = lemma_rounds_to(fmul(h, from_int(10)), 1000 * p, w, 6, 1_000_000);
    assert(size_of(zero()) == 0);
    lemma_order(zero(), whole);
    assert(is_decimal(percent_of(part, whole), k as int, 10));
}

proof fn lemma_within_over(p: nat, w: nat, u: nat)
    requires
        within(p, u, 100),
        within(w, u, 100),
        w > 0,
    ensures
        within(p, w, 200),
{
    vstd::arithmetic::power2::lemma_pow2_adds(100, 100);
    let t = vstd::arithmetic::power2::pow2(100);
    assert(p <= w * (t * t)) by {
        assert(u * t <= (w * t) * t) by (nonlinear_arith)
            requires
                u <= w * t,
        ;
        assert((w * t) * t == w * (t * t)) by (nonlinear_arith);
    }
    assert(p > 0 ==> w <= p * (t * t)) by {
        if p > 0 {
            assert(u * t <= (p * t) * t) by (nonlinear_arith)
                requires
                    u <= p * t,
            ;
            assert((p * t) * t == p * (t * t)) by (nonlinear_arith);
        }
    }
}

/// Nothing is no share, and of nothing there is none.
pub proof fn law_no_share_of_nothing(part: F64, whole: F64)
    ensures
        !flt(zero(), whole) ==> share_percent(part, whole) == zero(),
        fle(whole, zero()) ==> percent_of(part, whole) == zero(),
{
}

} // verus!
