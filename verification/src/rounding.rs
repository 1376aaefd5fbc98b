//! How far rounded arithmetic can stray, and what that promises.

use crate::float::{
    F64, HALF64, INF64, abs_bits, fdiv, flt, fmul, from_int, fround, half_even, is_finite,
    is_negative, lemma_magnitude_monotone, lemma_magnitude_split, lemma_place_scale,
    lemma_round_trip, mag64, magnitude, place, whole_part,
};
use vstd::prelude::*;
use vstd::arithmetic::div_mod::*;
use vstd::arithmetic::mul::*;
use vstd::arithmetic::power2::*;

verus! {

// ---------------------------------------------------------------------------
// Rounding to an integer
// ---------------------------------------------------------------------------

proof fn lemma_half_even_bounds(n: nat, d: nat)
    requires
        d > 0,
    ensures
        2 * (half_even(n, d) * d) <= 2 * n + d,
        2 * n <= 2 * (half_even(n, d) * d) + d,
        2 * (half_even(n, d) * d) == 2 * n + d ==> half_even(n, d) % 2 == 0,
        2 * n == 2 * (half_even(n, d) * d) + d ==> half_even(n, d) % 2 == 0,
{
    let q = n / d;
    let r = n % d;
    lemma_fundamental_div_mod(n as int, d as int);
    lemma_mod_bound(n as int, d as int);
    assert(n == q * d + r) by (nonlinear_arith)
        requires
            n == d * q + r,
    ;
    assert((q + 1) * d == q * d + d) by (nonlinear_arith);
}

proof fn lemma_half_even_monotone(n1: nat, d1: nat, n2: nat, d2: nat)
    requires
        d1 > 0,
        d2 > 0,
        n1 * d2 <= n2 * d1,
    ensures
        half_even(n1, d1) <= half_even(n2, d2),
{
    let h1 = half_even(n1, d1);
    let h2 = half_even(n2, d2);
    lemma_half_even_bounds(n1, d1);
    lemma_half_even_bounds(n2, d2);
    if h1 > h2 {
        let e = d1 * d2;
        assert(e > 0) by (nonlinear_arith)
            requires
                e == d1 * d2,
                d1 > 0,
                d2 > 0,
        ;
        assert(2 * (h1 * e) <= 2 * (n1 * d2) + e) by (nonlinear_arith)
            requires
                2 * (h1 * d1) <= 2 * n1 + d1,
                e == d1 * d2,
                d2 > 0,
        ;
        assert(2 * (n2 * d1) <= 2 * (h2 * e) + e) by (nonlinear_arith)
            requires
                2 * n2 <= 2 * (h2 * d2) + d2,
                e == d1 * d2,
                d1 > 0,
        ;
        assert(h1 * e >= h2 * e + e) by (nonlinear_arith)
            requires
                h1 >= h2 + 1,
                e > 0,
        ;
        assert(h1 * e == h2 * e + e);
        assert(h1 == h2 + 1) by (nonlinear_arith)
            requires
                h1 * e == h2 * e + e,
                e > 0,
        ;
        assert(2 * (h1 * d1) == 2 * n1 + d1) by (nonlinear_arith)
            requires
                2 * (h1 * d1) <= 2 * n1 + d1,
                2 * (h1 * e) == 2 * (n1 * d2) + e,
                e == d1 * d2,
                d2 > 0,
        ;
        assert(2 * n2 == 2 * (h2 * d2) + d2) by (nonlinear_arith)
            requires
                2 * n2 <= 2 * (h2 * d2) + d2,
                2 * (n2 * d1) == 2 * (h2 * e) + e,
                e == d1 * d2,
                d1 > 0,
        ;
    }
}

// ---------------------------------------------------------------------------
// Rounding to a value
// ---------------------------------------------------------------------------

/// What is at least `half` units rounds to a pattern of at least `half`.
proof fn lemma_place_floor(n: nat, d: nat, half: nat)
    requires
        d > 0,
        half > 0,
        n >= d * half,
    ensures
        place(n, d, half) >= half,
{
    if n < d * (2 * half) {
        lemma_half_even_bounds(n, d);
        let h = half_even(n, d);
        assert(h >= half) by (nonlinear_arith)
            requires
                n >= d * half,
                2 * n <= 2 * (h * d) + d,
                d > 0,
        ;
    }
}

/// A greater quotient never rounds to a lesser value.
pub proof fn lemma_place_monotone(n1: nat, d1: nat, n2: nat, d2: nat, half: nat)
    requires
        d1 > 0,
        d2 > 0,
        half > 0,
        n1 * d2 <= n2 * d1,
    ensures
        place(n1, d1, half) <= place(n2, d2, half),
    decreases n1 - d1,
{
    if n1 < d1 * (2 * half) {
        if n2 < d2 * (2 * half) {
            lemma_half_even_monotone(n1, d1, n2, d2);
        } else {
            let h = half_even(n1, d1);
            lemma_half_even_bounds(n1, d1);
            assert(h <= 2 * half) by (nonlinear_arith)
                requires
                    n1 < d1 * (2 * half),
                    2 * (h * d1) <= 2 * n1 + d1,
                    d1 > 0,
            ;
            assert(n2 >= (2 * d2) * half) by (nonlinear_arith)
                requires
                    n2 >= d2 * (2 * half),
            ;
            lemma_place_floor(n2, 2 * d2, half);
        }
    } else {
        assert(n2 >= d2 * (2 * half)) by (nonlinear_arith)
            requires
                n1 >= d1 * (2 * half),
                n1 * d2 <= n2 * d1,
                d1 > 0,
                d2 > 0,
        ;
        assert(2 * d1 <= n1) by (nonlinear_arith)
            requires
                n1 >= d1 * (2 * half),
                d1 > 0,
                half > 0,
        ;
        assert(n1 * (2 * d2) <= n2 * (2 * d1)) by (nonlinear_arith)
            requires
                n1 * d2 <= n2 * d1,
        ;
        lemma_place_monotone(n1, 2 * d1, n2, 2 * d2, half);
    }
}

/// Rounding moves a quotient of at least `half` units by at most one part in
/// `2 * half`.
pub proof fn lemma_place_relative(n: nat, d: nat, half: nat)
    requires
        d > 0,
        half > 0,
        n >= d * half,
    ensures
        (2 * half) * (magnitude(place(n, d, half), half) * d) <= (2 * half) * n + n,
        (2 * half) * n <= (2 * half) * (magnitude(place(n, d, half), half) * d) + n,
    decreases n - d,
{
    if n < d * (2 * half) {
        let h = half_even(n, d);
        lemma_half_even_bounds(n, d);
        assert(h <= 2 * half) by (nonlinear_arith)
            requires
                n < d * (2 * half),
                2 * (h * d) <= 2 * n + d,
                d > 0,
        ;
        assert(magnitude(half, half) == half);
        assert(magnitude(h, half) == h);
        assert((2 * half) * (h * d) <= (2 * half) * n + n) by (nonlinear_arith)
            requires
                2 * (h * d) <= 2 * n + d,
                n >= d * half,
                half > 0,
        ;
        assert((2 * half) * n <= (2 * half) * (h * d) + n) by (nonlinear_arith)
            requires
                2 * n <= 2 * (h * d) + d,
                n >= d * half,
                half > 0,
        ;
    } else {
        assert(2 * d <= n) by (nonlinear_arith)
            requires
                n >= d * (2 * half),
                d > 0,
                half > 0,
        ;
        assert(n >= (2 * d) * half) by (nonlinear_arith)
            requires
                n >= d * (2 * half),
        ;
        lemma_place_relative(n, 2 * d, half);
        lemma_place_floor(n, 2 * d, half);
        let p = place(n, 2 * d, half);
        assert(magnitude(half + p, half) == 2 * magnitude(p, half));
        assert((2 * magnitude(p, half)) * d == magnitude(p, half) * (2 * d)) by (nonlinear_arith);
    }
}

// ---------------------------------------------------------------------------
// Values of binary64
// ---------------------------------------------------------------------------

/// `x` units are a finite binary64 magnitude.
pub open spec fn is_value(x: nat) -> bool {
    exists|m: nat| m < INF64 && #[trigger] magnitude(m, HALF64 as nat) == x
}

/// Integers below 2^53 times a power of two are values.
pub proof fn lemma_scaled_is_value(f: nat, k: nat)
    requires
        f < 2 * HALF64,
        k <= 2000,
    ensures
        is_value(f * pow2(k)),
    decreases k,
{
    let half = HALF64 as nat;
    if k == 0 || f >= half {
        lemma_magnitude_split(k, f, half);
        let m = k * half + f;
        assert(m < INF64) by (nonlinear_arith)
            requires
                m == k * half + f,
                k <= 2000,
                f < 2 * half,
                half == 0x10_0000_0000_0000,
                INF64 == 0x7FF0_0000_0000_0000u64,
        ;
        assert(magnitude(m, half) == f * pow2(k));
    } else {
        lemma_pow2_unfold(k);
        lemma_scaled_is_value(2 * f, (k - 1) as nat);
        assert((2 * f) * pow2((k - 1) as nat) == f * pow2(k)) by (nonlinear_arith)
            requires
                pow2(k) == 2 * pow2((k - 1) as nat),
        ;
    }
}

/// A quotient between two values rounds to something between them.
pub proof fn lemma_between(n: nat, d: nat, low: nat, high: nat)
    requires
        d > 0,
        is_value(low),
        is_value(high),
        low * d <= n <= high * d,
    ensures
        place(n, d, HALF64 as nat) < INF64,
        low <= magnitude(place(n, d, HALF64 as nat), HALF64 as nat) <= high,
{
    let half = HALF64 as nat;
    let a = choose|m: nat| m < INF64 && #[trigger] magnitude(m, half) == low;
    let b = choose|m: nat| m < INF64 && #[trigger] magnitude(m, half) == high;
    lemma_round_trip(a, half);
    lemma_round_trip(b, half);
    lemma_place_monotone(low, 1, n, d, half);
    assert(n * 1 <= high * d) by (nonlinear_arith)
        requires
            n <= high * d,
    ;
    lemma_place_monotone(n, d, high, 1, half);
    let p = place(n, d, half);
    assert(a <= p <= b);
    if a < p {
        lemma_magnitude_monotone(a, p, half);
    }
    if p < b {
        lemma_magnitude_monotone(p, b, half);
    }
}

/// The magnitude of a number.
pub open spec fn size_of(a: F64) -> nat {
    mag64(abs_bits(a))
}

/// A finite number that is not below zero, with so many units.
pub open spec fn holds_units(a: F64, x: nat) -> bool {
    !is_negative(a) && is_finite(a) && size_of(a) == x
}

/// One in units.
pub open spec fn one() -> nat {
    pow2(1074)
}

pub proof fn lemma_one()
    ensures
        one() > 0,
        one() == 2 * pow2(1073),
        one() >= pow2(200),
        pow2(200) >= pow2(104),
        pow2(52) == HALF64,
        pow2(53) == 2 * HALF64,
        pow2(104) == HALF64 * HALF64,
{
    lemma_pow2_pos(1074);
    lemma_pow2_unfold(1074);
    lemma_pow2_strictly_increases(200, 1074);
    lemma_pow2_strictly_increases(104, 200);
    lemma2_to64();
    lemma2_to64_rest();
    lemma_pow2_adds(52, 52);
}

/// Integers below 2^53 are held exactly.
pub proof fn lemma_from_int_exact(v: nat)
    requires
        v < 2 * HALF64,
    ensures
        holds_units(from_int(v as int), v * one()),
{
    reveal(from_int);
    lemma_scaled_is_value(v, 1074);
    let x = v * one();
    lemma_between(x, 1, x, x);
}

/// A product of numbers not below zero, between two values.
pub proof fn lemma_product(a: F64, b: F64, x: nat, y: nat, low: nat, high: nat)
    requires
        holds_units(a, x),
        holds_units(b, y),
        is_value(low),
        is_value(high),
        low * one() <= x * y <= high * one(),
    ensures
        !is_negative(fmul(a, b)),
        is_finite(fmul(a, b)),
        low <= size_of(fmul(a, b)) <= high,
        size_of(fmul(a, b)) == magnitude(place(x * y, one(), HALF64 as nat), HALF64 as nat),
{
    reveal(fmul);
    lemma_one();
    lemma_between(x * y, one(), low, high);
}

/// A quotient of numbers above zero, between two values.
pub proof fn lemma_quotient(a: F64, b: F64, x: nat, y: nat, low: nat, high: nat)
    requires
        holds_units(a, x),
        holds_units(b, y),
        y > 0,
        is_value(low),
        is_value(high),
        low * y <= x * one() <= high * y,
    ensures
        !is_negative(fdiv(a, b)),
        is_finite(fdiv(a, b)),
        low <= size_of(fdiv(a, b)) <= high,
        size_of(fdiv(a, b)) == magnitude(place(x * one(), y, HALF64 as nat), HALF64 as nat),
{
    reveal(fdiv);
    lemma_one();
    assert(abs_bits(b) != 0);
    lemma_between(x * one(), y, low, high);
}

/// Numbers not below zero are in the order of their sizes.
pub proof fn lemma_order(a: F64, b: F64)
    requires
        !is_negative(a),
        !is_negative(b),
        is_finite(a),
        is_finite(b),
    ensures
        flt(a, b) <==> size_of(a) < size_of(b),
{
    let x = abs_bits(a) as nat;
    let y = abs_bits(b) as nat;
    if x < y {
        lemma_magnitude_monotone(x, y, HALF64 as nat);
    } else if y < x {
        lemma_magnitude_monotone(y, x, HALF64 as nat);
    }
}

// ---------------------------------------------------------------------------
// Evenly spaced positions
// ---------------------------------------------------------------------------

/// The step between evenly spaced positions, `a / b`: at least one, off by at most
/// half a position over the whole length.
proof fn lemma_step(a: nat, b: nat)
    requires
        1 <= b <= a <= HALF64,
    ensures
        ({
            let s = fdiv(from_int(a as int), from_int(b as int));
            &&& holds_units(s, size_of(s))
            &&& one() <= size_of(s) <= a * one()
            &&& 2 * (b * size_of(s)) <= 2 * (a * one()) + one()
            &&& 2 * (a * one()) <= 2 * (b * size_of(s)) + one()
        }),
{
    let half = HALF64 as nat;
    let u = one();
    lemma_one();
    lemma_from_int_exact(a);
    lemma_from_int_exact(b);
    lemma_scaled_is_value(1, 1074);
    lemma_scaled_is_value(a, 1074);
    assert(1 * u == u);
    let n = (a * u) * u;
    let d = b * u;
    assert(d > 0 && u * d <= n && n <= (a * u) * d) by (nonlinear_arith)
        requires
            n == (a * u) * u,
            d == b * u,
            1 <= b <= a,
            u > 0,
    ;
    lemma_quotient(from_int(a as int), from_int(b as int), a * u, b * u, u, a * u);
    let s = fdiv(from_int(a as int), from_int(b as int));
    let q = size_of(s);
    assert(n >= d * half) by (nonlinear_arith)
        requires
            n == (a * u) * u,
            d == b * u,
            1 <= a,
            b <= half,
            u >= half * half,
            half > 0,
    ;
    lemma_place_relative(n, d, half);
    // Both bounds, divided by `u`.
    assert((2 * half) * (q * b) <= (2 * half) * (a * u) + a * u) by (nonlinear_arith)
        requires
            (2 * half) * (q * d) <= (2 * half) * n + n,
            n == (a * u) * u,
            d == b * u,
            u > 0,
    ;
    assert((2 * half) * (a * u) <= (2 * half) * (q * b) + a * u) by (nonlinear_arith)
        requires
            (2 * half) * n <= (2 * half) * (q * d) + n,
            n == (a * u) * u,
            d == b * u,
            u > 0,
    ;
    assert(a * u <= half * u) by (nonlinear_arith)
        requires
            a <= half,
            u > 0,
    ;
    assert(q * b == b * q) by (nonlinear_arith);
    assert((2 * half) * (q * b) <= (2 * half) * (a * u) + half * u ==> 2 * (b * q) <= 2 * (a * u)
        + u) by (nonlinear_arith)
        requires
            half > 0,
            q * b == b * q,
    ;
    assert((2 * half) * (a * u) <= (2 * half) * (q * b) + half * u ==> 2 * (a * u) <= 2 * (b * q)
        + u) by (nonlinear_arith)
        requires
            half > 0,
            q * b == b * q,
    ;
}

/// The units of position `i` with step `a / b`.
pub open spec fn spot_units(a: nat, b: nat, i: nat) -> nat {
    size_of(fmul(from_int(i as int), fdiv(from_int(a as int), from_int(b as int))))
}

/// A position is finite, not below zero, and what its exact product rounds to.
proof fn lemma_spot(a: nat, b: nat, i: nat)
    requires
        1 <= b <= a <= HALF64,
        i <= b,
    ensures
        ({
            let s = fdiv(from_int(a as int), from_int(b as int));
            let p = fmul(from_int(i as int), s);
            &&& holds_units(p, spot_units(a, b, i))
            &&& spot_units(a, b, i) == magnitude(
                place(i * size_of(s), 1, HALF64 as nat),
                HALF64 as nat,
            )
            &&& spot_units(a, b, i) <= pow2(104) * one()
        }),
{
    let half = HALF64 as nat;
    let u = one();
    lemma_one();
    lemma_step(a, b);
    let s = fdiv(from_int(a as int), from_int(b as int));
    let q = size_of(s);
    lemma_from_int_exact(i);
    lemma_scaled_is_value(0, 0);
    lemma_scaled_is_value(1, 1178);
    lemma_pow2_adds(104, 1074);
    let high = pow2(104) * u;
    assert(1 * pow2(1178) == high);
    assert(0 * pow2(0) == 0) by (nonlinear_arith);
    assert(0 * u == 0) by (nonlinear_arith);
    assert((i * u) * q <= high * u) by (nonlinear_arith)
        requires
            i <= half,
            q <= a * u,
            a <= half,
            pow2(104) == half * half,
            high == pow2(104) * u,
    ;
    lemma_product(from_int(i as int), s, i * u, q, 0, high);
    lemma_place_scale(i * q, 1, u, half);
    assert((i * u) * q == u * (i * q)) by (nonlinear_arith);
    assert(u * 1 == u);
}

/// The last position falls short of the end by at most one half.
proof fn lemma_last_spot(a: nat, b: nat)
    requires
        1 <= b <= a <= HALF64,
    ensures
        spot_units(a, b, b) >= (2 * a - 1) * pow2(1073),
{
    lemma_one();
    lemma_step(a, b);
    lemma_spot(a, b, b);
    let u = one();
    let h = pow2(1073);
    let q = size_of(fdiv(from_int(a as int), from_int(b as int)));
    let low = ((2 * a - 1) as nat) * h;
    lemma_scaled_is_value((2 * a - 1) as nat, 1073);
    assert(low == 2 * (a * h) - h) by (nonlinear_arith)
        requires
            low == ((2 * a - 1) as nat) * h,
            a >= 1,
    ;
    assert(a * u == 2 * (a * h)) by (nonlinear_arith)
        requires
            u == 2 * h,
    ;
    assert(low <= b * q);
    lemma_scaled_is_value(1, 1178);
    lemma_pow2_adds(104, 1074);
    assert(1 * pow2(1178) == pow2(104) * u);
    assert(b * q <= pow2(104) * u) by (nonlinear_arith)
        requires
            b <= HALF64,
            q <= a * u,
            a <= HALF64,
            pow2(104) == HALF64 * HALF64,
    ;
    lemma_between(b * q, 1, low, pow2(104) * u);
}

/// A position before the last stays half a position below the end.
proof fn lemma_inner_spot(a: nat, b: nat, i: nat)
    requires
        1 <= b <= a <= HALF64,
        i < b,
    ensures
        spot_units(a, b, i) <= (2 * a - 1) * pow2(1073),
{
    lemma_one();
    lemma_step(a, b);
    lemma_spot(a, b, i);
    let u = one();
    let h = pow2(1073);
    let q = size_of(fdiv(from_int(a as int), from_int(b as int)));
    let high = ((2 * a - 1) as nat) * h;
    lemma_scaled_is_value((2 * a - 1) as nat, 1073);
    lemma_scaled_is_value(0, 0);
    assert(0 * pow2(0) == 0) by (nonlinear_arith);
    assert(high == 2 * (a * h) - h) by (nonlinear_arith)
        requires
            high == ((2 * a - 1) as nat) * h,
            a >= 1,
    ;
    assert(a * u == 2 * (a * h)) by (nonlinear_arith)
        requires
            u == 2 * h,
    ;
    assert(i * q + q <= b * q) by (nonlinear_arith)
        requires
            i + 1 <= b,
    ;
    assert(i * q <= high);
    lemma_between(i * q, 1, 0, high);
}

/// Positions are in order.
proof fn lemma_spots_in_order(a: nat, b: nat, i: nat, j: nat)
    requires
        1 <= b <= a <= HALF64,
        i <= j <= b,
    ensures
        spot_units(a, b, i) <= spot_units(a, b, j),
{
    lemma_spot(a, b, i);
    lemma_spot(a, b, j);
    let q = size_of(fdiv(from_int(a as int), from_int(b as int)));
    let half = HALF64 as nat;
    assert(i * q <= j * q) by (nonlinear_arith)
        requires
            i <= j,
    ;
    lemma_place_monotone(i * q, 1, j * q, 1, half);
    let x = place(i * q, 1, half);
    let y = place(j * q, 1, half);
    if x < y {
        lemma_magnitude_monotone(x, y, half);
    }
}

/// Rounding a number not below zero to an integer.
pub proof fn lemma_fround(p: F64, x: nat)
    requires
        holds_units(p, x),
        x <= pow2(104) * one(),
    ensures
        ({
            let n = (2 * x + one()) / (2 * one());
            &&& holds_units(fround(p), size_of(fround(p)))
            &&& size_of(fround(p)) == magnitude(
                place(n * one(), 1, HALF64 as nat),
                HALF64 as nat,
            )
        }),
{
    reveal(fround);
    lemma_one();
    let u = one();
    lemma_pow2_unfold(1075);
    let n = (2 * x + u) / (2 * u);
    lemma_scaled_is_value(0, 0);
    lemma_scaled_is_value(1, 1179);
    lemma_pow2_adds(105, 1074);
    lemma_pow2_unfold(105);
    assert(0 * pow2(0) == 0) by (nonlinear_arith);
    assert(1 * pow2(1179) == (2 * pow2(104)) * u);
    lemma_fundamental_div_mod((2 * x + u) as int, (2 * u) as int);
    lemma_mod_bound((2 * x + u) as int, (2 * u) as int);
    assert(n * u <= (2 * pow2(104)) * u) by (nonlinear_arith)
        requires
            2 * x + u == (2 * u) * n + (2 * x + u) % (2 * u),
            (2 * x + u) % (2 * u) >= 0,
            x <= pow2(104) * u,
            u > 0,
            pow2(104) >= 1,
    ;
    lemma_between(n * u, 1, 0, (2 * pow2(104)) * u);
}

/// Rounded positions are in order; the first is at the start, and the last at the
/// end or behind it.
pub proof fn lemma_rounded_spots(a: nat, b: nat, i: nat, j: nat)
    requires
        1 <= b <= a <= HALF64,
        i <= j <= b,
    ensures
        ({
            let s = fdiv(from_int(a as int), from_int(b as int));
            let p = fround(fmul(from_int(i as int), s));
            let q = fround(fmul(from_int(j as int), s));
            &&& !is_negative(p) && is_finite(p)
            &&& !is_negative(q) && is_finite(q)
            &&& whole_part(p) <= whole_part(q)
            &&& i == 0 ==> whole_part(p) == 0
            &&& j == b ==> whole_part(q) >= a
        }),
{
    reveal(whole_part);
    lemma_one();
    let u = one();
    let half = HALF64 as nat;
    let s = fdiv(from_int(a as int), from_int(b as int));
    let x = spot_units(a, b, i);
    let y = spot_units(a, b, j);
    lemma_spot(a, b, i);
    lemma_spot(a, b, j);
    lemma_spots_in_order(a, b, i, j);
    lemma_fround(fmul(from_int(i as int), s), x);
    lemma_fround(fmul(from_int(j as int), s), y);
    let m = (2 * x + u) / (2 * u);
    let n = (2 * y + u) / (2 * u);
    lemma_div_is_ordered((2 * x + u) as int, (2 * y + u) as int, (2 * u) as int);
    assert(m * u <= n * u) by (nonlinear_arith)
        requires
            m <= n,
    ;
    lemma_place_monotone(m * u, 1, n * u, 1, half);
    let pm = place(m * u, 1, half);
    let pn = place(n * u, 1, half);
    if pm < pn {
        lemma_magnitude_monotone(pm, pn, half);
    }
    lemma_div_is_ordered(magnitude(pm, half) as int, magnitude(pn, half) as int, u as int);
    if i == 0 {
        let q = size_of(s);
        assert(0 * q == 0) by (nonlinear_arith);
        lemma_scaled_is_value(0, 0);
        assert(0 * pow2(0) == 0) by (nonlinear_arith);
        lemma_between(0, 1, 0, 0);
        assert(x == 0);
        lemma_basic_div(u as int, (2 * u) as int);
        assert(m == 0);
        assert(m * u == 0) by (nonlinear_arith)
            requires
                m == 0,
        ;
        lemma_basic_div(0, u as int);
    }
    if j == b {
        lemma_last_spot(a, b);
        let h = pow2(1073);
        assert(2 * y + u >= (2 * u) * a) by (nonlinear_arith)
            requires
                y >= (2 * a - 1) * h,
                u == 2 * h,
        ;
        lemma_div_is_ordered(((2 * u) * a) as int, (2 * y + u) as int, (2 * u) as int);
        lemma_div_multiples_vanish(a as int, (2 * u) as int);
        assert(n >= a);
        lemma_scaled_is_value(a, 1074);
        assert(a * u <= n * u) by (nonlinear_arith)
            requires
                a <= n,
        ;
        lemma_scaled_is_value(1, 1179);
        lemma_pow2_adds(105, 1074);
        lemma_pow2_unfold(105);
        assert(1 * pow2(1179) == (2 * pow2(104)) * u);
        lemma_fundamental_div_mod((2 * y + u) as int, (2 * u) as int);
        lemma_mod_bound((2 * y + u) as int, (2 * u) as int);
        assert(n * u <= (2 * pow2(104)) * u) by (nonlinear_arith)
            requires
                2 * y + u == (2 * u) * n + (2 * y + u) % (2 * u),
                (2 * y + u) % (2 * u) >= 0,
                y <= pow2(104) * u,
                u > 0,
                pow2(104) >= 1,
        ;
        lemma_between(n * u, 1, a * u, (2 * pow2(104)) * u);
        lemma_div_is_ordered((a * u) as int, magnitude(pn, half) as int, u as int);
        lemma_div_multiples_vanish(a as int, u as int);
        assert(a * u == u * a) by (nonlinear_arith);
    }
}

/// A position before the last, cut to an integer, stays before the end.
pub proof fn lemma_cut_spot(a: nat, b: nat, i: nat)
    requires
        1 <= b <= a <= HALF64,
        i < b,
    ensures
        ({
            let p = fmul(from_int(i as int), fdiv(from_int(a as int), from_int(b as int)));
            !is_negative(p) && is_finite(p) && whole_part(p) < a
        }),
{
    reveal(whole_part);
    lemma_one();
    lemma_spot(a, b, i);
    lemma_inner_spot(a, b, i);
    let u = one();
    let h = pow2(1073);
    let x = spot_units(a, b, i);
    assert(x < u * a) by (nonlinear_arith)
        requires
            x <= (2 * a - 1) * h,
            u == 2 * h,
            h > 0,
    ;
    lemma_fundamental_div_mod(x as int, u as int);
    lemma_mod_bound(x as int, u as int);
    let w = x / u;
    assert(w < a) by (nonlinear_arith)
        requires
            x == u * w + x % u,
            x % u >= 0,
            x < u * a,
            u > 0,
    ;
}

// ---------------------------------------------------------------------------
// Shares of a whole
// ---------------------------------------------------------------------------

/// The share `f / total` as a number between zero and one.
proof fn lemma_share(f: nat, total: nat)
    requires
        f <= total,
        1 <= total < 2 * HALF64,
    ensures
        ({
            let s = fdiv(from_int(f as int), from_int(total as int));
            &&& holds_units(s, size_of(s))
            &&& size_of(s) <= one()
            &&& size_of(s) == magnitude(
                place((f * one()) * one(), total * one(), HALF64 as nat),
                HALF64 as nat,
            )
        }),
{
    let u = one();
    lemma_one();
    lemma_from_int_exact(f);
    lemma_from_int_exact(total);
    lemma_scaled_is_value(0, 0);
    lemma_scaled_is_value(1, 1074);
    assert(0 * pow2(0) == 0) by (nonlinear_arith);
    assert(1 * u == u);
    assert(total * u > 0 && (f * u) * u <= u * (total * u)) by (nonlinear_arith)
        requires
            f <= total,
            1 <= total,
            u > 0,
    ;
    assert(0 * (total * u) == 0) by (nonlinear_arith);
    lemma_quotient(from_int(f as int), from_int(total as int), f * u, total * u, 0, u);
}

/// The integer `n` is held as a finite number of at most 2^64.
proof fn lemma_from_int_finite(n: nat)
    requires
        n <= u64::MAX,
    ensures
        holds_units(from_int(n as int), size_of(from_int(n as int))),
        size_of(from_int(n as int)) <= pow2(64) * one(),
{
    reveal(from_int);
    lemma_one();
    lemma2_to64();
    lemma2_to64_rest();
    let u = one();
    lemma_scaled_is_value(0, 0);
    assert(0 * pow2(0) == 0) by (nonlinear_arith);
    lemma_scaled_is_value(1, 1138);
    lemma_pow2_adds(64, 1074);
    assert(1 * pow2(1138) == pow2(64) * u);
    assert(n * u <= pow2(64) * u) by (nonlinear_arith)
        requires
            n <= pow2(64),
    ;
    lemma_between(n * u, 1, 0, pow2(64) * u);
}

/// Rounded to an integer, a greater share of a length is never less.
pub proof fn lemma_shares_in_order(f: nat, g: nat, total: nat, n: nat)
    requires
        f <= g <= total,
        1 <= total < 2 * HALF64,
        n <= u64::MAX,
    ensures
        ({
            let p = fround(
                fmul(fdiv(from_int(f as int), from_int(total as int)), from_int(n as int)),
            );
            let q = fround(
                fmul(fdiv(from_int(g as int), from_int(total as int)), from_int(n as int)),
            );
            &&& !is_negative(p) && is_finite(p)
            &&& !is_negative(q) && is_finite(q)
            &&& whole_part(p) <= whole_part(q)
        }),
{
    reveal(whole_part);
    lemma_one();
    lemma2_to64();
    lemma2_to64_rest();
    let u = one();
    let half = HALF64 as nat;
    lemma_share(f, total);
    lemma_share(g, total);
    lemma_from_int_finite(n);
    let a = fdiv(from_int(f as int), from_int(total as int));
    let b = fdiv(from_int(g as int), from_int(total as int));
    let c = from_int(n as int);
    let x = size_of(a);
    let y = size_of(b);
    let z = size_of(c);
    assert(total * u > 0 && ((f * u) * u) * (total * u) <= ((g * u) * u) * (total * u))
        by (nonlinear_arith)
        requires
            f <= g,
            1 <= total,
            u > 0,
    ;
    lemma_place_monotone((f * u) * u, total * u, (g * u) * u, total * u, half);
    let px = place((f * u) * u, total * u, half);
    let py = place((g * u) * u, total * u, half);
    if px < py {
        lemma_magnitude_monotone(px, py, half);
    }
    assert(x <= y);
    lemma_scaled_is_value(0, 0);
    assert(0 * pow2(0) == 0) by (nonlinear_arith);
    assert(0 * u == 0) by (nonlinear_arith);
    lemma_scaled_is_value(1, 1138);
    lemma_pow2_adds(64, 1074);
    let high = pow2(64) * u;
    assert(1 * pow2(1138) == high);
    assert(x * z <= high * u && y * z <= high * u) by (nonlinear_arith)
        requires
            x <= u,
            y <= u,
            z <= high,
    ;
    lemma_product(a, c, x, z, 0, high);
    lemma_product(b, c, y, z, 0, high);
    assert((x * z) * u <= (y * z) * u) by (nonlinear_arith)
        requires
            x <= y,
    ;
    lemma_place_monotone(x * z, u, y * z, u, half);
    let p0 = fmul(a, c);
    let q0 = fmul(b, c);
    let pp = place(x * z, u, half);
    let pq = place(y * z, u, half);
    if pp < pq {
        lemma_magnitude_monotone(pp, pq, half);
    }
    let v = size_of(p0);
    let w = size_of(q0);
    assert(v <= w);
    lemma_pow2_strictly_increases(64, 104);
    assert(high <= pow2(104) * u) by (nonlinear_arith)
        requires
            high == pow2(64) * u,
            pow2(64) <= pow2(104),
    ;
    lemma_fround(p0, v);
    lemma_fround(q0, w);
    let m = (2 * v + u) / (2 * u);
    let k = (2 * w + u) / (2 * u);
    lemma_div_is_ordered((2 * v + u) as int, (2 * w + u) as int, (2 * u) as int);
    assert(m * u <= k * u) by (nonlinear_arith)
        requires
            m <= k,
    ;
    lemma_place_monotone(m * u, 1, k * u, 1, half);
    let pm = place(m * u, 1, half);
    let pk = place(k * u, 1, half);
    if pm < pk {
        lemma_magnitude_monotone(pm, pk, half);
    }
    lemma_div_is_ordered(magnitude(pm, half) as int, magnitude(pk, half) as int, u as int);
}

} // verus!
