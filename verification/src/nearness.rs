//! How far a chain of binary64 operations can be off.

use vstd::arithmetic::power2::{
    lemma_pow2_adds, lemma_pow2_pos, lemma_pow2_strictly_increases, lemma_pow2_unfold, pow2,
};
use crate::aggregate::{count_where, peak_where, sum_where};
use crate::float::{
    F64, HALF64, fadd, fdiv, fle, flt, fmul, from_int, fround, half_even, is_finite, is_nan,
    is_negative, magnitude, place, to_int, whole_part, zero,
};
use crate::rounding::{
    lemma_between, lemma_from_int_exact, lemma_fround, lemma_one, lemma_place_relative,
    lemma_product, lemma_quotient, lemma_scaled_is_value, one, size_of,
};
use vstd::prelude::*;

verus! {

/// Two to the power of fifty-three.
pub open spec fn grain() -> nat {
    2 * HALF64 as nat
}

/// `x` is a number not below zero that is `p / d`, off by at most `e` parts in two to the
/// power of fifty-two.
pub open spec fn near(x: F64, p: nat, d: nat, e: nat) -> bool {
    &&& !is_negative(x) && is_finite(x)
    &&& d > 0
    &&& grain() * (size_of(x) * d) <= (grain() + 2 * e) * (p * one())
    &&& grain() * (p * one()) <= grain() * (size_of(x) * d) + (2 * e) * (p * one())
}

/// `p / d` is zero or lies between two to the power of `-r` and of `r`.
pub open spec fn within(p: nat, d: nat, r: nat) -> bool {
    p <= d * pow2(r) && (p > 0 ==> d <= p * pow2(r))
}

/// More parts than any chain here is off by.
pub open spec fn few(e: nat) -> bool {
    e <= 0x100_0000_0000
}

/// Every number not below zero is itself.
pub proof fn lemma_near_itself(x: F64)
    requires
        !is_negative(x),
        is_finite(x),
    ensures
        near(x, size_of(x), one(), 0),
{
    lemma_one();
    assert(0 * (size_of(x) * one()) == 0) by (nonlinear_arith);
}

/// Integers below 2^53 are themselves.
pub proof fn lemma_near_int(v: nat)
    requires
        v < 2 * HALF64,
    ensures
        near(from_int(v as int), v, 1, 0),
{
    lemma_from_int_exact(v);
    assert(0 * (v * one()) == 0) by (nonlinear_arith);
    assert(v * one() * 1 == v * one()) by (nonlinear_arith);
}

/// More parts are allowed.
pub proof fn lemma_near_more(x: F64, p: nat, d: nat, e: nat, f: nat)
    requires
        near(x, p, d, e),
        e <= f,
    ensures
        near(x, p, d, f),
{
    let m = p * one();
    assert((grain() + 2 * e) * m <= (grain() + 2 * f) * m && (2 * e) * m <= (2 * f) * m)
        by (nonlinear_arith)
        requires
            e <= f,
    ;
}

/// The same quotient written with other terms.
pub proof fn lemma_near_same(x: F64, p: nat, d: nat, q: nat, c: nat, e: nat)
    requires
        near(x, p, d, e),
        c > 0,
        p * c == q * d,
    ensures
        near(x, q, c, e),
{
    let g = grain();
    let s = size_of(x);
    let u = one();
    assert(g * (s * c) <= (g + 2 * e) * (q * u) && g * (q * u) <= g * (s * c) + (2 * e) * (q * u))
        by {
        assert((g * (s * d)) * c == (g * (s * c)) * d) by (nonlinear_arith);
        assert((g + 2 * e) * (p * u) * c == (g + 2 * e) * (q * u) * d) by (nonlinear_arith)
            requires
                p * c == q * d,
        ;
        assert((g * (p * u)) * c == (g * (q * u)) * d) by (nonlinear_arith)
            requires
                p * c == q * d,
        ;
        assert(((2 * e) * (p * u)) * c == ((2 * e) * (q * u)) * d) by (nonlinear_arith)
            requires
                p * c == q * d,
        ;
        lemma_times(g * (s * d), (g + 2 * e) * (p * u), c);
        lemma_times(g * (p * u), g * (s * d) + (2 * e) * (p * u), c);
        assert((g * (s * d) + (2 * e) * (p * u)) * c == (g * (s * c) + (2 * e) * (q * u)) * d)
            by (nonlinear_arith)
            requires
                (g * (s * d)) * c == (g * (s * c)) * d,
                ((2 * e) * (p * u)) * c == ((2 * e) * (q * u)) * d,
        ;
        lemma_cancel(g * (s * c), (g + 2 * e) * (q * u), d);
        lemma_cancel(g * (q * u), g * (s * c) + (2 * e) * (q * u), d);
    }
}

proof fn lemma_times(a: nat, b: nat, c: nat)
    requires
        a <= b,
    ensures
        a * c <= b * c,
{
    assert(a * c <= b * c) by (nonlinear_arith)
        requires
            a <= b,
    ;
}

proof fn lemma_cancel(a: nat, b: nat, c: nat)
    requires
        a * c <= b * c,
        c > 0,
    ensures
        a <= b,
{
    assert(a <= b) by (nonlinear_arith)
        requires
            a * c <= b * c,
            c > 0,
    ;
}

/// One rounding more: `z` is `n` rounded, `n` is off from `m`.
proof fn lemma_rounded_off(g: nat, z: nat, n: nat, m: nat, e: nat)
    requires
        2 * e <= g,
        g > 0,
        g * z <= g * n + n,
        g * n <= g * z + n,
        g * n <= (g + 2 * e) * m,
        g * m <= g * n + (2 * e) * m,
    ensures
        g * z <= (g + 2 * (e + 1)) * m,
        g * m <= g * z + (2 * (e + 1)) * m,
{
    assert(g * z <= (g + 2 * (e + 1)) * m) by {
        assert(g * (g * z) <= (g + 1) * (g * n)) by (nonlinear_arith)
            requires
                g * z <= g * n + n,
        ;
        assert((g + 1) * (g * n) <= (g + 1) * ((g + 2 * e) * m)) by (nonlinear_arith)
            requires
                g * n <= (g + 2 * e) * m,
        ;
        assert((g + 1) * ((g + 2 * e) * m) <= g * ((g + 2 * (e + 1)) * m)) by (nonlinear_arith)
            requires
                2 * e <= g,
        ;
        assert(g * z <= (g + 2 * (e + 1)) * m) by (nonlinear_arith)
            requires
                g * (g * z) <= g * ((g + 2 * (e + 1)) * m),
                g > 0,
        ;
    }
    assert(g * m <= g * z + (2 * (e + 1)) * m) by {
        let k = (g - 2 * e) as nat;
        assert(k * m <= g * n) by (nonlinear_arith)
            requires
                g * m <= g * n + (2 * e) * m,
                k == g - 2 * e,
        ;
        let j = (g - 1) as nat;
        assert(j * n <= g * z) by (nonlinear_arith)
            requires
                g * n <= g * z + n,
                j == g - 1,
        ;
        assert(j * (k * m) <= j * (g * n)) by (nonlinear_arith)
            requires
                k * m <= g * n,
        ;
        assert(j * (g * n) <= g * (g * z)) by (nonlinear_arith)
            requires
                j * n <= g * z,
        ;
        assert(g * (g * m) <= g * (g * z + (2 * (e + 1)) * m)) by (nonlinear_arith)
            requires
                j * (k * m) <= g * (g * z),
                j == g - 1,
                k == g - 2 * e,
                g > 0,
        ;
        assert(g * m <= g * z + (2 * (e + 1)) * m) by (nonlinear_arith)
            requires
                g * (g * m) <= g * (g * z + (2 * (e + 1)) * m),
                g > 0,
        ;
    }
}

proof fn lemma_pow2_order(a: nat, b: nat)
    requires
        a <= b,
    ensures
        0 < pow2(a) <= pow2(b),
{
    lemma_pow2_pos(a);
    if a < b {
        lemma_pow2_strictly_increases(a, b);
    }
}

/// Rounding an integer number of units.
proof fn lemma_place_whole(n: nat)
    ensures
        ({
            let z = magnitude(place(n, 1, HALF64 as nat), HALF64 as nat);
            grain() * z <= grain() * n + n && grain() * n <= grain() * z + n
        }),
{
    let half = HALF64 as nat;
    if n >= half {
        lemma_place_relative(n, 1, half);
        assert(magnitude(place(n, 1, half), half) * 1 == magnitude(place(n, 1, half), half));
    } else {
        assert(n < 1 * (2 * half));
        assert(place(n, 1, half) == half_even(n, 1));
        assert(n % 1 == 0 && n / 1 == n);
    }
}

/// The sum of two numbers not below zero.
pub proof fn lemma_sum_units(a: F64, b: F64)
    requires
        !is_negative(a),
        !is_negative(b),
        is_finite(a),
        is_finite(b),
        size_of(a) + size_of(b) <= pow2(2000),
    ensures
        !is_negative(fadd(a, b)),
        is_finite(fadd(a, b)),
        size_of(fadd(a, b)) == magnitude(
            place(size_of(a) + size_of(b), 1, HALF64 as nat),
            HALF64 as nat,
        ),
{
    reveal(fadd);
    let n = size_of(a) + size_of(b);
    lemma_scaled_is_value(0, 0);
    assert(0 * pow2(0) == 0) by (nonlinear_arith);
    lemma_scaled_is_value(1, 2000);
    assert(1 * pow2(2000) == pow2(2000));
    lemma_between(n, 1, 0, pow2(2000));
}

/// The units of a number that is near a quotient within bounds.
proof fn lemma_units_within(x: F64, p: nat, d: nat, e: nat, r: nat)
    requires
        near(x, p, d, e),
        few(e),
        within(p, d, r),
    ensures
        size_of(x) <= pow2(r + 1) * one(),
        p > 0 ==> one() <= size_of(x) * pow2(r + 1),
        p == 0 ==> size_of(x) == 0,
{
    let g = grain();
    let s = size_of(x);
    let u = one();
    let m = p * u;
    let t = pow2(r);
    lemma_one();
    lemma_pow2_unfold(r + 1);
    lemma_pow2_pos(r);
    assert(s * d <= 2 * m) by (nonlinear_arith)
        requires
            g * (s * d) <= (g + 2 * e) * m,
            2 * e <= g,
            g > 0,
    ;
    assert(s <= (2 * t) * u) by (nonlinear_arith)
        requires
            s * d <= 2 * (p * u),
            p <= d * t,
            d > 0,
    ;
    if p > 0 {
        assert(m <= 2 * (s * d)) by (nonlinear_arith)
            requires
                g * m <= g * (s * d) + (2 * e) * m,
                4 * e <= g,
                g > 0,
        ;
        assert(u <= s * (2 * t)) by (nonlinear_arith)
            requires
                p * u <= 2 * (s * d),
                d <= p * t,
                p > 0,
        ;
    } else {
        assert(m == 0) by (nonlinear_arith)
            requires
                m == p * u,
                p == 0,
        ;
        assert(s == 0) by (nonlinear_arith)
            requires
                s * d <= 2 * m,
                m == 0,
                d > 0,
        ;
    }
}

/// What is near a quotient is zero where the quotient is.
pub proof fn lemma_sign_of_near(x: F64, p: nat, d: nat, e: nat)
    requires
        near(x, p, d, e),
        few(e),
    ensures
        p > 0 <==> size_of(x) > 0,
{
    let g = grain();
    let s = size_of(x);
    let m = p * one();
    lemma_one();
    if s == 0 {
        assert(s * d == 0) by (nonlinear_arith)
            requires
                s == 0,
        ;
        assert(m == 0) by (nonlinear_arith)
            requires
                g * m <= (2 * e) * m,
                4 * e <= g,
                g > 0,
        ;
        assert(p == 0) by (nonlinear_arith)
            requires
                m == p * one(),
                m == 0,
                one() > 0,
        ;
    }
    if p == 0 {
        assert(m == 0) by (nonlinear_arith)
            requires
                m == p * one(),
                p == 0,
        ;
        assert(s == 0) by (nonlinear_arith)
            requires
                g * (s * d) <= (g + 2 * e) * m,
                m == 0,
                d > 0,
                g > 0,
        ;
    }
}

/// A sum is near the sum.
pub proof fn lemma_near_sum(a: F64, b: F64, p: nat, q: nat, d: nat, e: nat)
    requires
        near(a, p, d, e),
        near(b, q, d, e),
        few(e),
        p <= d * pow2(900),
        q <= d * pow2(900),
    ensures
        near(fadd(a, b), p + q, d, e + 1),
{
    let g = grain();
    let u = one();
    let (x, y) = (size_of(a), size_of(b));
    lemma_one();
    assert(x * d <= 2 * (p * u) && y * d <= 2 * (q * u)) by (nonlinear_arith)
        requires
            g * (x * d) <= (g + 2 * e) * (p * u),
            g * (y * d) <= (g + 2 * e) * (q * u),
            2 * e <= g,
            g > 0,
    ;
    assert(x <= 2 * pow2(900) * u && y <= 2 * pow2(900) * u) by (nonlinear_arith)
        requires
            x * d <= 2 * (p * u),
            y * d <= 2 * (q * u),
            p <= d * pow2(900),
            q <= d * pow2(900),
            d > 0,
    ;
    lemma_pow2_adds(900, 1074);
    lemma_pow2_unfold(1975);
    lemma_pow2_unfold(1976);
    lemma_pow2_order(1976, 2000);
    assert(2 * pow2(900) * u == 2 * (pow2(900) * u)) by (nonlinear_arith);
    lemma_sum_units(a, b);
    let z = size_of(fadd(a, b));
    let n = x + y;
    lemma_place_whole(n);
    let m = (p + q) * u;
    assert(m == p * u + q * u) by (nonlinear_arith)
        requires
            m == (p + q) * u,
    ;
    assert(g * (n * d) <= (g + 2 * e) * m) by (nonlinear_arith)
        requires
            n == x + y,
            m == p * u + q * u,
            g * (x * d) <= (g + 2 * e) * (p * u),
            g * (y * d) <= (g + 2 * e) * (q * u),
    ;
    assert(g * m <= g * (n * d) + (2 * e) * m) by (nonlinear_arith)
        requires
            n == x + y,
            m == p * u + q * u,
            g * (p * u) <= g * (x * d) + (2 * e) * (p * u),
            g * (q * u) <= g * (y * d) + (2 * e) * (q * u),
    ;
    assert(g * (z * d) <= g * (n * d) + n * d && g * (n * d) <= g * (z * d) + n * d)
        by (nonlinear_arith)
        requires
            g * z <= g * n + n,
            g * n <= g * z + n,
    ;
    lemma_rounded_off(g, z * d, n * d, m, e);
}

/// A product is near the product.
pub proof fn lemma_near_product(
    a: F64,
    b: F64,
    p: nat,
    d: nat,
    q: nat,
    c: nat,
    e: nat,
    f: nat,
    r: nat,
)
    requires
        near(a, p, d, e),
        near(b, q, c, f),
        few(e),
        f <= 0x10_0000,
        e * f <= 0x4_0000_0000_0000,
        within(p, d, r),
        within(q, c, r),
        r <= 400,
    ensures
        near(fmul(a, b), p * q, d * c, e + f + 2),
{
    let g = grain();
    let u = one();
    let (x, y) = (size_of(a), size_of(b));
    let half = HALF64 as nat;
    lemma_one();
    lemma_units_within(a, p, d, e, r);
    lemma_units_within(b, q, c, f, r);
    let t = pow2(r + 1);
    lemma_pow2_adds(r + 1, r + 1);
    lemma_pow2_order(2 * r + 2, 802);
    lemma_pow2_adds(802, 1074);
    lemma_pow2_order(1876, 2000);
    lemma_pow2_adds(52, 802);
    lemma_pow2_order(854, 1074);
    lemma_scaled_is_value(0, 0);
    assert(0 * pow2(0) == 0) by (nonlinear_arith);
    lemma_scaled_is_value(1, 2000);
    assert(1 * pow2(2000) == pow2(2000));
    assert(0 * u == 0) by (nonlinear_arith);
    assert(x * y <= pow2(2000) * u) by (nonlinear_arith)
        requires
            x <= t * u,
            y <= t * u,
            t * t <= pow2(802),
            pow2(802) * u <= pow2(2000),
    ;
    lemma_product(a, b, x, y, 0, pow2(2000));
    let z = size_of(fmul(a, b));
    if p == 0 || q == 0 {
        assert(x * y == 0) by (nonlinear_arith)
            requires
                x == 0 || y == 0,
        ;
        assert(p * q == 0) by (nonlinear_arith)
            requires
                p == 0 || q == 0,
        ;
        assert(half_even(0, u) == 0);
        assert(0 < u * (2 * half)) by (nonlinear_arith)
            requires
                u > 0,
                half > 0,
        ;
        assert(place(0, u, half) == 0);
        assert(z == 0);
        assert(p * q * u == 0 && z * (d * c) == 0) by (nonlinear_arith)
            requires
                p * q == 0,
                z == 0,
        ;
    } else {
        assert(u * u <= (x * y) * (t * t)) by (nonlinear_arith)
            requires
                u <= x * t,
                u <= y * t,
        ;
        assert(x * y >= u * half) by (nonlinear_arith)
            requires
                u * u <= (x * y) * (t * t),
                t * t <= pow2(802),
                half * pow2(802) <= u,
                u > 0,
                pow2(802) > 0,
        ;
        lemma_place_relative(x * y, u, half);
        let zz = (z * u) * (d * c);
        let nn = (x * d) * (y * c);
        let mm = (p * u) * (q * u);
        assert(g * zz <= g * nn + nn && g * nn <= g * zz + nn) by (nonlinear_arith)
            requires
                zz == (z * u) * (d * c),
                nn == (x * d) * (y * c),
                g * (z * u) <= g * (x * y) + x * y,
                g * (x * y) <= g * (z * u) + x * y,
        ;
        lemma_product_off(g, x * d, p * u, e, y * c, q * u, f);
        lemma_rounded_off(g, zz, nn, mm, e + f + 1);
        let h = e + f + 2;
        let m1 = (p * q) * u;
        let z1 = z * (d * c);
        assert(zz == z1 * u && mm == m1 * u) by (nonlinear_arith)
            requires
                zz == (z * u) * (d * c),
                mm == (p * u) * (q * u),
                m1 == (p * q) * u,
                z1 == z * (d * c),
        ;
        assert(g * z1 <= (g + 2 * h) * m1) by (nonlinear_arith)
            requires
                g * (z1 * u) <= (g + 2 * h) * (m1 * u),
                u > 0,
        ;
        assert(g * m1 <= g * z1 + (2 * h) * m1) by (nonlinear_arith)
            requires
                g * (m1 * u) <= g * (z1 * u) + (2 * h) * (m1 * u),
                u > 0,
        ;
    }
    assert(d * c > 0) by (nonlinear_arith)
        requires
            d > 0,
            c > 0,
    ;
}

/// The exact product of two numbers that are off.
proof fn lemma_product_off(g: nat, x: nat, p: nat, e: nat, y: nat, q: nat, f: nat)
    requires
        g == grain(),
        few(e),
        f <= 0x10_0000,
        e * f <= 0x4_0000_0000_0000,
        g * x <= (g + 2 * e) * p,
        g * p <= g * x + (2 * e) * p,
        g * y <= (g + 2 * f) * q,
        g * q <= g * y + (2 * f) * q,
    ensures
        g * (x * y) <= (g + 2 * (e + f + 1)) * (p * q),
        g * (p * q) <= g * (x * y) + (2 * (e + f + 1)) * (p * q),
{
    let m = p * q;
    let n = x * y;
    let ef = e * f;
    assert((g * x) * (g * y) <= ((g + 2 * e) * p) * ((g + 2 * f) * q)) by (nonlinear_arith)
        requires
            g * x <= (g + 2 * e) * p,
            g * y <= (g + 2 * f) * q,
    ;
    assert((g * x) * (g * y) == g * (g * n)) by (nonlinear_arith)
        requires
            n == x * y,
    ;
    let (ge, gf) = (g + 2 * e, g + 2 * f);
    assert((ge * p) * (gf * q) == (ge * gf) * m) by (nonlinear_arith)
        requires
            m == p * q,
    ;
    assert(ge * gf == g * g + 2 * (e + f) * g + 4 * ef) by (nonlinear_arith)
        requires
            ge == g + 2 * e,
            gf == g + 2 * f,
            ef == e * f,
    ;
    assert((g * g + 2 * (e + f) * g + 4 * ef) * m <= (g * (g + 2 * (e + f + 1))) * m)
        by (nonlinear_arith)
        requires
            4 * ef <= 2 * g,
    ;
    assert(g * n <= (g + 2 * (e + f + 1)) * m) by (nonlinear_arith)
        requires
            g * (g * n) <= (g * (g + 2 * (e + f + 1))) * m,
            g > 0,
    ;
    let k = (g - 2 * e) as nat;
    let j = (g - 2 * f) as nat;
    assert(k * p <= g * x) by (nonlinear_arith)
        requires
            g * p <= g * x + (2 * e) * p,
            k == g - 2 * e,
    ;
    assert(j * q <= g * y) by (nonlinear_arith)
        requires
            g * q <= g * y + (2 * f) * q,
            j == g - 2 * f,
    ;
    assert((k * p) * (j * q) <= (g * x) * (g * y)) by (nonlinear_arith)
        requires
            k * p <= g * x,
            j * q <= g * y,
    ;
    assert((k * p) * (j * q) == (k * j) * m) by (nonlinear_arith)
        requires
            m == p * q,
    ;
    let w = (g - 2 * (e + f + 1)) as nat;
    assert(g * w <= k * j) by (nonlinear_arith)
        requires
            k == g - 2 * e,
            j == g - 2 * f,
            w == g - 2 * (e + f + 1),
    ;
    assert((g * w) * m <= (k * j) * m) by (nonlinear_arith)
        requires
            g * w <= k * j,
    ;
    assert(w * m <= g * n) by (nonlinear_arith)
        requires
            (g * w) * m <= g * (g * n),
            g > 0,
    ;
    assert(g * m <= g * n + (2 * (e + f + 1)) * m) by (nonlinear_arith)
        requires
            w * m <= g * n,
            w == g - 2 * (e + f + 1),
    ;
}

/// A quotient is near the quotient.
pub proof fn lemma_near_quotient(
    a: F64,
    b: F64,
    p: nat,
    d: nat,
    q: nat,
    c: nat,
    e: nat,
    f: nat,
    r: nat,
)
    requires
        near(a, p, d, e),
        near(b, q, c, f),
        q > 0,
        few(e),
        f <= 0x10_0000,
        e * f <= 0x4_0000_0000_0000,
        within(p, d, r),
        within(q, c, r),
        r <= 400,
    ensures
        near(fdiv(a, b), p * c, d * q, e + f + 2),
{
    let g = grain();
    let u = one();
    let (x, y) = (size_of(a), size_of(b));
    let half = HALF64 as nat;
    lemma_one();
    lemma_units_within(a, p, d, e, r);
    lemma_units_within(b, q, c, f, r);
    let t = pow2(r + 1);
    lemma_pow2_adds(r + 1, r + 1);
    lemma_pow2_order(2 * r + 2, 802);
    lemma_pow2_adds(802, 1074);
    lemma_pow2_order(1876, 2000);
    lemma_pow2_adds(52, 802);
    lemma_pow2_order(854, 1074);
    lemma_pow2_pos(r + 1);
    lemma_scaled_is_value(0, 0);
    assert(0 * pow2(0) == 0) by (nonlinear_arith);
    lemma_scaled_is_value(1, 2000);
    assert(1 * pow2(2000) == pow2(2000));
    assert(y > 0) by (nonlinear_arith)
        requires
            u <= y * t,
            u > 0,
    ;
    assert(0 * y == 0) by (nonlinear_arith);
    assert(x * u <= pow2(2000) * y) by {
        assert(x * u <= (t * u) * (y * t)) by (nonlinear_arith)
            requires
                x <= t * u,
                u <= y * t,
        ;
        assert((t * u) * (y * t) == ((t * t) * u) * y) by (nonlinear_arith);
        assert((t * t) * u <= pow2(802) * u) by (nonlinear_arith)
            requires
                t * t <= pow2(802),
        ;
        assert(((t * t) * u) * y <= pow2(2000) * y) by (nonlinear_arith)
            requires
                (t * t) * u <= pow2(2000),
        ;
    }
    lemma_quotient(a, b, x, y, 0, pow2(2000));
    let z = size_of(fdiv(a, b));
    assert(d * q > 0) by (nonlinear_arith)
        requires
            d > 0,
            q > 0,
    ;
    if p == 0 {
        assert(x * u == 0) by (nonlinear_arith)
            requires
                x == 0,
        ;
        assert(half_even(0, y) == 0);
        assert(0 < y * (2 * half)) by (nonlinear_arith)
            requires
                y > 0,
                half > 0,
        ;
        assert(place(0, y, half) == 0);
        assert(p * c * u == 0 && z * (d * q) == 0) by (nonlinear_arith)
            requires
                p == 0,
                z == 0,
        ;
    } else {
        assert(x * u >= y * half) by {
            assert(y * u <= (t * u) * (x * t)) by (nonlinear_arith)
                requires
                    y <= t * u,
                    u <= x * t,
            ;
            assert((t * u) * (x * t) == (t * t) * (x * u)) by (nonlinear_arith);
            assert((t * t) * (x * u) <= pow2(802) * (x * u)) by (nonlinear_arith)
                requires
                    t * t <= pow2(802),
            ;
            assert(y * (half * pow2(802)) <= y * u) by (nonlinear_arith)
                requires
                    half * pow2(802) <= u,
            ;
            assert(y * half <= x * u) by (nonlinear_arith)
                requires
                    y * (half * pow2(802)) <= pow2(802) * (x * u),
                    pow2(802) > 0,
            ;
        }
        lemma_place_relative(x * u, y, half);
        lemma_quotient_off(g, x * d, p * u, e, y * c, q * u, f, z, d, q, c, p, u, x, y);
    }
}

/// The rounded quotient of two numbers that are off.
proof fn lemma_quotient_off(
    g: nat,
    xd: nat,
    pu: nat,
    e: nat,
    yc: nat,
    qu: nat,
    f: nat,
    z: nat,
    d: nat,
    q: nat,
    c: nat,
    p: nat,
    u: nat,
    x: nat,
    y: nat,
)
    requires
        g == grain(),
        few(e),
        f <= 0x10_0000,
        e * f <= 0x4_0000_0000_0000,
        xd == x * d,
        pu == p * u,
        yc == y * c,
        qu == q * u,
        u > 0,
        g * xd <= (g + 2 * e) * pu,
        g * pu <= g * xd + (2 * e) * pu,
        g * yc <= (g + 2 * f) * qu,
        g * qu <= g * yc + (2 * f) * qu,
        g * (z * y) <= g * (x * u) + x * u,
        g * (x * u) <= g * (z * y) + x * u,
    ensures
        g * (z * (d * q)) <= (g + 2 * (e + f + 2)) * ((p * c) * u),
        g * ((p * c) * u) <= g * (z * (d * q)) + (2 * (e + f + 2)) * ((p * c) * u),
{
    let h = e + f + 2;
    let m = (p * c) * u;
    let n = z * (d * q);
    let j = (g - 2 * f) as nat;
    let fh = f * h;
    assert(fh <= 0x4_0000_0000_0000 + 0x10_0000 * 0x10_0002) by (nonlinear_arith)
        requires
            fh == f * h,
            h == e + f + 2,
            e * f <= 0x4_0000_0000_0000,
            f <= 0x10_0000,
    ;
    // Above.
    assert(j * qu <= g * yc) by (nonlinear_arith)
        requires
            g * qu <= g * yc + (2 * f) * qu,
            j == g - 2 * f,
    ;
    let zd = z * d;
    assert(zd * (j * qu) <= zd * (g * yc)) by (nonlinear_arith)
        requires
            j * qu <= g * yc,
    ;
    assert(zd * (g * yc) == (g * (z * y)) * (d * c)) by (nonlinear_arith)
        requires
            zd == z * d,
            yc == y * c,
    ;
    let dc = d * c;
    assert((g * (z * y)) * dc <= ((g + 1) * (x * u)) * dc) by (nonlinear_arith)
        requires
            g * (z * y) <= g * (x * u) + x * u,
    ;
    assert(g * (((g + 1) * (x * u)) * dc) == ((g + 1) * (u * c)) * (g * xd)) by (nonlinear_arith)
        requires
            xd == x * d,
            dc == d * c,
    ;
    assert(((g + 1) * (u * c)) * (g * xd) <= ((g + 1) * (u * c)) * ((g + 2 * e) * pu))
        by (nonlinear_arith)
        requires
            g * xd <= (g + 2 * e) * pu,
    ;
    let a = (g + 1) * (g + 2 * e);
    assert(((g + 1) * (u * c)) * ((g + 2 * e) * pu) == a * (m * u)) by {
        assert(((g + 1) * (u * c)) * ((g + 2 * e) * pu) == a * ((u * c) * pu)) by (nonlinear_arith)
            requires
                a == (g + 1) * (g + 2 * e),
        ;
        assert((u * c) * pu == m * u) by (nonlinear_arith)
            requires
                pu == p * u,
                m == (p * c) * u,
        ;
    }
    assert(g * (zd * (j * qu)) == (g * j) * (n * u)) by {
        assert(zd * qu == n * u) by (nonlinear_arith)
            requires
                zd == z * d,
                qu == q * u,
                n == z * (d * q),
        ;
        assert(g * (zd * (j * qu)) == (g * j) * (zd * qu)) by (nonlinear_arith);
    }
    assert(g * (zd * (j * qu)) <= g * (((g + 1) * (x * u)) * dc)) by (nonlinear_arith)
        requires
            zd * (j * qu) <= ((g + 1) * (x * u)) * dc,
    ;
    assert((g * j) * (n * u) <= a * (m * u));
    assert((g * j) * n <= a * m) by (nonlinear_arith)
        requires
            (g * j) * (n * u) <= a * (m * u),
            u > 0,
    ;
    assert(a <= j * (g + 2 * h)) by {
        assert(a == g * g + 2 * e * g + g + 2 * e) by (nonlinear_arith)
            requires
                a == (g + 1) * (g + 2 * e),
        ;
        assert(j * (g + 2 * h) == g * g + 2 * h * g - 2 * f * g - 4 * fh) by (nonlinear_arith)
            requires
                j == g - 2 * f,
                fh == f * h,
        ;
        assert(2 * h * g == 2 * e * g + 2 * f * g + 4 * g) by (nonlinear_arith)
            requires
                h == e + f + 2,
        ;
    }
    assert(a * m <= (j * (g + 2 * h)) * m) by (nonlinear_arith)
        requires
            a <= j * (g + 2 * h),
    ;
    assert(g * n <= (g + 2 * h) * m) by (nonlinear_arith)
        requires
            (g * j) * n <= (j * (g + 2 * h)) * m,
            j > 0,
    ;
    // Below.
    let k = (g - 2 * e) as nat;
    let i = (g - 1) as nat;
    assert(k * pu <= g * xd) by (nonlinear_arith)
        requires
            g * pu <= g * xd + (2 * e) * pu,
            k == g - 2 * e,
    ;
    assert(i * (x * u) <= g * (z * y)) by (nonlinear_arith)
        requires
            g * (x * u) <= g * (z * y) + x * u,
            i == g - 1,
    ;
    let gf = g + 2 * f;
    assert(zd * (g * yc) <= zd * (gf * qu)) by (nonlinear_arith)
        requires
            g * yc <= gf * qu,
    ;
    assert((i * (x * u)) * dc <= (g * (z * y)) * dc) by (nonlinear_arith)
        requires
            i * (x * u) <= g * (z * y),
    ;
    assert(g * ((i * (x * u)) * dc) == (i * (u * c)) * (g * xd)) by (nonlinear_arith)
        requires
            xd == x * d,
            dc == d * c,
    ;
    assert((i * (u * c)) * (k * pu) <= (i * (u * c)) * (g * xd)) by (nonlinear_arith)
        requires
            k * pu <= g * xd,
    ;
    let b = i * k;
    assert((i * (u * c)) * (k * pu) == b * (m * u)) by {
        assert((i * (u * c)) * (k * pu) == b * ((u * c) * pu)) by (nonlinear_arith)
            requires
                b == i * k,
        ;
        assert((u * c) * pu == m * u) by (nonlinear_arith)
            requires
                pu == p * u,
                m == (p * c) * u,
        ;
    }
    assert(g * (zd * (gf * qu)) == (g * gf) * (n * u)) by {
        assert(zd * qu == n * u) by (nonlinear_arith)
            requires
                zd == z * d,
                qu == q * u,
                n == z * (d * q),
        ;
        assert(g * (zd * (gf * qu)) == (g * gf) * (zd * qu)) by (nonlinear_arith);
    }
    assert(g * ((i * (x * u)) * dc) <= g * (zd * (gf * qu))) by (nonlinear_arith)
        requires
            (i * (x * u)) * dc <= zd * (gf * qu),
    ;
    assert(b * m <= (g * gf) * n) by (nonlinear_arith)
        requires
            b * (m * u) <= (g * gf) * (n * u),
            u > 0,
    ;
    let w = (g - 2 * h) as nat;
    assert(gf * w <= b) by {
        assert(b == g * g - 2 * e * g - g + 2 * e) by (nonlinear_arith)
            requires
                b == i * k,
                i == g - 1,
                k == g - 2 * e,
        ;
        assert(gf * w == g * g + 2 * f * g - 2 * h * g - 4 * fh) by (nonlinear_arith)
            requires
                gf == g + 2 * f,
                w == g - 2 * h,
                fh == f * h,
        ;
        assert(2 * h * g == 2 * e * g + 2 * f * g + 4 * g) by (nonlinear_arith)
            requires
                h == e + f + 2,
        ;
    }
    assert((gf * w) * m <= b * m) by (nonlinear_arith)
        requires
            gf * w <= b,
    ;
    assert(w * m <= g * n) by (nonlinear_arith)
        requires
            (gf * w) * m <= (g * gf) * n,
            gf > 0,
    ;
    assert(g * m <= g * n + (2 * h) * m) by (nonlinear_arith)
        requires
            w * m <= g * n,
            w == g - 2 * h,
    ;
}

// ---------------------------------------------------------------------------
// Sums, counts and peaks
// ---------------------------------------------------------------------------

/// Units of `v(i)` over the positions `1 <= i < n` that `keep`, added exactly.
pub open spec fn units_where(v: spec_fn(int) -> F64, keep: spec_fn(int) -> bool, n: int) -> nat
    decreases n,
{
    if n <= 1 {
        0
    } else {
        units_where(v, keep, n - 1) + if keep(n - 1) {
            size_of(v(n - 1))
        } else {
            0
        }
    }
}

/// The positions `1 <= i < n` that `keep`.
pub open spec fn places_where(keep: spec_fn(int) -> bool, n: int) -> Set<int> {
    Set::new(|i: int| 1 <= i < n && keep(i))
}

/// Not below zero, and at most two to the power of 400.
pub open spec fn moderate(x: F64) -> bool {
    !is_negative(x) && is_finite(x) && size_of(x) <= one() * pow2(400)
}

/// A sum in order is near the exact sum.
pub proof fn lemma_sum_where(v: spec_fn(int) -> F64, keep: spec_fn(int) -> bool, n: int)
    requires
        0 <= n <= 0x8000_0000,
        forall|i: int| 1 <= i < n && #[trigger] keep(i) ==> moderate(v(i)),
    ensures
        near(
            sum_where(v, keep, n),
            units_where(v, keep, n),
            one(),
            if n <= 1 {
                0
            } else {
                (n - 1) as nat
            },
        ),
        units_where(v, keep, n) <= n * (one() * pow2(400)),
    decreases n,
{
    let u = one();
    let top = u * pow2(400);
    lemma_one();
    if n <= 1 {
        lemma_near_itself(zero());
        assert(size_of(zero()) == 0);
        assert(n * top >= 0) by (nonlinear_arith)
            requires
                n >= 0,
        ;
    } else {
        lemma_sum_where(v, keep, n - 1);
        let p = units_where(v, keep, n - 1);
        let a = sum_where(v, keep, n - 1);
        let e: nat = if n <= 2 {
            0
        } else {
            (n - 2) as nat
        };
        assert((n - 1) * top + top == n * top) by (nonlinear_arith);
        if keep(n - 1) {
            let b = v(n - 1);
            lemma_near_itself(b);
            lemma_near_more(b, size_of(b), u, 0, e);
            lemma_pow2_adds(400, 500);
            lemma_pow2_order(32, 500);
            vstd::arithmetic::power2::lemma2_to64();
            assert(p <= u * pow2(900)) by (nonlinear_arith)
                requires
                    p <= (n - 1) * top,
                    top == u * pow2(400),
                    n <= 0x8000_0000,
                    0x1_0000_0000 <= pow2(500),
                    pow2(400) * pow2(500) == pow2(900),
                    n >= 1,
            ;
            assert(size_of(b) <= u * pow2(900)) by (nonlinear_arith)
                requires
                    size_of(b) <= u * pow2(400),
                    1 <= pow2(500),
                    pow2(400) * pow2(500) == pow2(900),
            ;
            lemma_near_sum(a, b, p, size_of(b), u, e);
            lemma_near_more(fadd(a, b), p + size_of(b), u, e + 1, (n - 1) as nat);
        } else {
            lemma_near_more(a, p, u, e, (n - 1) as nat);
        }
    }
}

/// A count in order is the number of positions.
pub proof fn lemma_count_where(keep: spec_fn(int) -> bool, n: int)
    ensures
        places_where(keep, n).finite(),
        count_where(keep, n) == places_where(keep, n).len(),
        n >= 1 ==> count_where(keep, n) <= n - 1,
    decreases n,
{
    if n <= 1 {
        assert(places_where(keep, n) =~= Set::empty());
    } else {
        lemma_count_where(keep, n - 1);
        if keep(n - 1) {
            assert(places_where(keep, n) =~= places_where(keep, n - 1).insert(n - 1));
        } else {
            assert(places_where(keep, n) =~= places_where(keep, n - 1));
        }
    }
}

/// `top` is the greatest of zero and the numbers that are kept.
pub open spec fn is_top(top: F64, v: spec_fn(int) -> F64, keep: spec_fn(int) -> bool, n: int) -> bool {
    &&& forall|i: int| 1 <= i < n && #[trigger] keep(i) ==> fle(v(i), top)
    &&& fle(zero(), top)
    &&& top == zero() || exists|i: int| 1 <= i < n && #[trigger] keep(i) && v(i) == top
}

pub proof fn lemma_peak_where(v: spec_fn(int) -> F64, keep: spec_fn(int) -> bool, n: int)
    requires
        forall|i: int| 1 <= i < n && #[trigger] keep(i) ==> !is_nan(v(i)),
    ensures
        is_top(peak_where(v, keep, n), v, keep, n),
    decreases n,
{
    if n > 1 {
        lemma_peak_where(v, keep, n - 1);
        let before = peak_where(v, keep, n - 1);
        let top = peak_where(v, keep, n);
        if keep(n - 1) && flt(before, v(n - 1)) {
            assert(keep(n - 1) && v(n - 1) == top);
        } else if top != zero() {
            let i = choose|i: int| 1 <= i < n - 1 && #[trigger] keep(i) && v(i) == before;
            assert(keep(i) && v(i) == top);
        }
    }
}

/// What is not below zero and neither vast nor minute.
pub open spec fn plain(x: F64) -> bool {
    &&& !is_negative(x) && is_finite(x)
    &&& size_of(x) <= one() * pow2(300)
    &&& size_of(x) > 0 ==> one() <= size_of(x) * pow2(300)
}

pub proof fn lemma_plain_is_moderate(x: F64)
    requires
        plain(x),
    ensures
        moderate(x),
{
    lemma_pow2_order(300, 400);
    assert(one() * pow2(300) <= one() * pow2(400)) by (nonlinear_arith)
        requires
            pow2(300) <= pow2(400),
    ;
}

/// An exact sum of plain numbers is within bounds.
pub proof fn lemma_units_where(v: spec_fn(int) -> F64, keep: spec_fn(int) -> bool, n: int)
    requires
        0 <= n <= 0x8000_0000,
        forall|i: int| 1 <= i < n && #[trigger] keep(i) ==> plain(v(i)),
    ensures
        units_where(v, keep, n) <= n * (one() * pow2(300)),
        units_where(v, keep, n) > 0 ==> one() <= units_where(v, keep, n) * pow2(300),
    decreases n,
{
    let top = one() * pow2(300);
    if n <= 1 {
        assert(n * top >= 0) by (nonlinear_arith)
            requires
                n >= 0,
        ;
    } else {
        lemma_units_where(v, keep, n - 1);
        let p = units_where(v, keep, n - 1);
        assert((n - 1) * top + top == n * top) by (nonlinear_arith);
        if keep(n - 1) {
            let b = size_of(v(n - 1));
            assert((p + b) * pow2(300) == p * pow2(300) + b * pow2(300)) by (nonlinear_arith);
        }
    }
}

/// The mean of plain numbers is near their exact mean.
pub proof fn lemma_mean_where(v: spec_fn(int) -> F64, keep: spec_fn(int) -> bool, n: int)
    requires
        0 <= n <= 0x8000_0000,
        forall|i: int| 1 <= i < n && #[trigger] keep(i) ==> plain(v(i)),
        count_where(keep, n) > 0,
    ensures
        near(
            fdiv(sum_where(v, keep, n), from_int(count_where(keep, n) as int)),
            units_where(v, keep, n),
            one() * count_where(keep, n),
            (n + 1) as nat,
        ),
{
    let c = count_where(keep, n);
    let p = units_where(v, keep, n);
    let u = one();
    lemma_one();
    lemma_count_where(keep, n);
    assert forall|i: int| 1 <= i < n && #[trigger] keep(i) implies moderate(v(i)) by {
        lemma_plain_is_moderate(v(i));
    }
    lemma_sum_where(v, keep, n);
    lemma_units_where(v, keep, n);
    lemma_near_int(c);
    vstd::arithmetic::power2::lemma2_to64();
    lemma_pow2_adds(32, 300);
    lemma_pow2_order(332, 400);
    lemma_pow2_order(300, 400);
    lemma_pow2_order(32, 400);
    assert(p <= u * pow2(400)) by (nonlinear_arith)
        requires
            p <= n * (u * pow2(300)),
            n <= 0x1_0000_0000,
            pow2(32) == 0x1_0000_0000,
            pow2(32) * pow2(300) <= pow2(400),
    ;
    assert(p > 0 ==> u <= p * pow2(400)) by (nonlinear_arith)
        requires
            p > 0 ==> u <= p * pow2(300),
            pow2(300) <= pow2(400),
    ;
    assert(c <= 1 * pow2(400) && 1 <= c * pow2(400)) by (nonlinear_arith)
        requires
            1 <= c <= 0x1_0000_0000,
            pow2(32) == 0x1_0000_0000,
            pow2(32) <= pow2(400),
    ;
    let s = sum_where(v, keep, n);
    assert((n - 1) as nat * 0 == 0);
    lemma_near_quotient(s, from_int(c as int), p, u, c, 1, (n - 1) as nat, 0, 400);
    assert(p * 1 == p && u * c == u * c);
}

/// `mean` is the mean of the numbers that are kept, up to rounding; zero of none.
pub open spec fn is_mean(mean: F64, v: spec_fn(int) -> F64, keep: spec_fn(int) -> bool, n: int) -> bool {
    let c = places_where(keep, n).len();
    if c == 0 {
        mean == zero()
    } else {
        near(mean, units_where(v, keep, n), one() * c, (n + 1) as nat)
    }
}

/// What is said of the same numbers at the same positions is the same.
pub proof fn lemma_where_alike(
    v: spec_fn(int) -> F64,
    keep: spec_fn(int) -> bool,
    w: spec_fn(int) -> F64,
    hold: spec_fn(int) -> bool,
    n: int,
)
    requires
        forall|i: int| 1 <= i < n ==> #[trigger] keep(i) == hold(i),
        forall|i: int| 1 <= i < n && #[trigger] keep(i) ==> v(i) == w(i),
    ensures
        sum_where(v, keep, n) == sum_where(w, hold, n),
        count_where(keep, n) == count_where(hold, n),
        peak_where(v, keep, n) == peak_where(w, hold, n),
    decreases n,
{
    if n > 1 {
        lemma_where_alike(v, keep, w, hold, n - 1);
        assert(keep(n - 1) == hold(n - 1));
    }
}

// ---------------------------------------------------------------------------
// Sums of what is off itself
// ---------------------------------------------------------------------------

/// `v(0)` to `v(n - 1)`, added in order.
pub open spec fn fold(v: spec_fn(int) -> F64, n: int) -> F64
    decreases n,
{
    if n <= 0 {
        zero()
    } else {
        fadd(fold(v, n - 1), v(n - 1))
    }
}

/// `p(0)` to `p(n - 1)`, added exactly.
pub open spec fn total(p: spec_fn(int) -> nat, n: int) -> nat
    decreases n,
{
    if n <= 0 {
        0
    } else {
        total(p, n - 1) + p(n - 1)
    }
}

pub proof fn lemma_total_bounds(p: spec_fn(int) -> nat, n: int, d: nat, r: nat)
    requires
        0 <= n,
        forall|i: int| 0 <= i < n ==> within(#[trigger] p(i), d, r),
    ensures
        total(p, n) <= n * (d * pow2(r)),
        total(p, n) > 0 ==> d <= total(p, n) * pow2(r),
    decreases n,
{
    let top = d * pow2(r);
    if n <= 0 {
        assert(n * top >= 0) by (nonlinear_arith)
            requires
                n >= 0,
        ;
    } else {
        lemma_total_bounds(p, n - 1, d, r);
        let (t, x) = (total(p, n - 1), p(n - 1));
        assert(within(x, d, r));
        assert((n - 1) * top + top == n * top) by (nonlinear_arith);
        assert((t + x) * pow2(r) == t * pow2(r) + x * pow2(r)) by (nonlinear_arith);
    }
}

pub proof fn lemma_total_within(p: spec_fn(int) -> nat, n: int, d: nat, r: nat)
    requires
        0 <= n <= 0x8000_0000,
        forall|i: int| 0 <= i < n ==> within(#[trigger] p(i), d, r),
        r <= 800,
    ensures
        within(total(p, n), d, r + 32),
{
    lemma_total_bounds(p, n, d, r);
    vstd::arithmetic::power2::lemma2_to64();
    lemma_pow2_adds(r, 32);
    let t = total(p, n);
    assert(t <= d * pow2(r + 32)) by (nonlinear_arith)
        requires
            t <= n * (d * pow2(r)),
            0 <= n <= 0x1_0000_0000,
            pow2(32) == 0x1_0000_0000,
            pow2(r + 32) == pow2(r) * pow2(32),
    ;
    assert(t > 0 ==> d <= t * pow2(r + 32)) by (nonlinear_arith)
        requires
            t > 0 ==> d <= t * pow2(r),
            pow2(32) == 0x1_0000_0000,
            pow2(r + 32) == pow2(r) * pow2(32),
    ;
}

/// A sum of numbers that are off by `e` is off by `e` and one more for each.
pub proof fn lemma_fold_near(v: spec_fn(int) -> F64, p: spec_fn(int) -> nat, d: nat, e: nat, n: int, r: nat)
    requires
        0 <= n <= 0x8000_0000,
        d > 0,
        e <= 0x10_0000,
        r <= 800,
        forall|i: int| 0 <= i < n ==> within(#[trigger] p(i), d, r),
        forall|i: int| 0 <= i < n ==> near(#[trigger] v(i), p(i), d, e),
    ensures
        near(fold(v, n), total(p, n), d, e + n as nat),
    decreases n,
{
    if n <= 0 {
        assert(size_of(zero()) == 0);
        assert(0 * one() == 0 && 0 * d == 0) by (nonlinear_arith);
    } else {
        lemma_fold_near(v, p, d, e, n - 1, r);
        let f = e + (n - 1) as nat;
        let (a, b) = (fold(v, n - 1), v(n - 1));
        assert(near(v(n - 1), p(n - 1), d, e));
        assert(within(p(n - 1), d, r));
        lemma_near_more(b, p(n - 1), d, e, f);
        lemma_total_within(p, n - 1, d, r);
        lemma_within_more(total(p, n - 1), d, r + 32, 900);
        lemma_within_more(p(n - 1), d, r, 900);
        lemma_near_sum(a, b, total(p, n - 1), p(n - 1), d, f);
    }
}

pub proof fn lemma_within_more(p: nat, d: nat, r: nat, q: nat)
    requires
        within(p, d, r),
        r <= q,
    ensures
        within(p, d, q),
{
    lemma_pow2_order(r, q);
    assert(p <= d * pow2(q)) by (nonlinear_arith)
        requires
            p <= d * pow2(r),
            pow2(r) <= pow2(q),
    ;
    assert(p > 0 ==> d <= p * pow2(q)) by (nonlinear_arith)
        requires
            p > 0 ==> d <= p * pow2(r),
            pow2(r) <= pow2(q),
    ;
}

pub proof fn lemma_within_product(p: nat, d: nat, r: nat, q: nat, c: nat, t: nat)
    requires
        within(p, d, r),
        within(q, c, t),
    ensures
        within(p * q, d * c, r + t),
{
    lemma_pow2_adds(r, t);
    let (x, y) = (pow2(r), pow2(t));
    assert(p * q <= (d * c) * (x * y)) by {
        assert(p * q <= (d * x) * (c * y)) by (nonlinear_arith)
            requires
                p <= d * x,
                q <= c * y,
        ;
        assert((d * x) * (c * y) == (d * c) * (x * y)) by (nonlinear_arith);
    }
    if p * q > 0 {
        assert(p > 0 && q > 0) by (nonlinear_arith)
            requires
                p * q > 0,
        ;
        assert(d * c <= (p * x) * (q * y)) by (nonlinear_arith)
            requires
                d <= p * x,
                c <= q * y,
        ;
        assert((p * x) * (q * y) == (p * q) * (x * y)) by (nonlinear_arith);
    }
}

/// An integer of at most 32 bits is within bounds.
pub proof fn lemma_within_int(v: nat)
    requires
        v <= 0x1_0000_0000,
    ensures
        within(v, 1, 32),
{
    vstd::arithmetic::power2::lemma2_to64();
    assert(v * pow2(32) >= v) by (nonlinear_arith)
        requires
            pow2(32) >= 1,
    ;
}

/// Rounded to an integer, what is near a quotient is off by less than one.
pub proof fn lemma_rounded_near(x: F64, p: nat, d: nat, e: nat, b: nat, lo: int, hi: int)
    requires
        near(x, p, d, e),
        few(e),
        e * b <= 0x1_0000_0000_0000,
        p <= d * b,
        b <= 0x1_0000_0000,
        lo <= 0,
        hi >= 2 * b + 1,
    ensures
        ({
            let k = to_int(fround(x), lo, hi);
            0 <= k && k * d < p + d && p < k * d + d
        }),
{
    let u = one();
    let g = grain();
    let s = size_of(x);
    lemma_one();
    vstd::arithmetic::power2::lemma2_to64();
    lemma_pow2_order(40, 104);
    assert(s * d <= 2 * (p * u)) by (nonlinear_arith)
        requires
            g * (s * d) <= (g + 2 * e) * (p * u),
            2 * e <= g,
            g > 0,
    ;
    assert(s <= (2 * b) * u) by (nonlinear_arith)
        requires
            s * d <= 2 * (p * u),
            p <= d * b,
            d > 0,
    ;
    assert(s <= pow2(104) * u) by (nonlinear_arith)
        requires
            s <= (2 * b) * u,
            pow2(104) >= 2 * b,
    ;
    lemma_fround(x, s);
    let n = (2 * s + u) / (2 * u);
    vstd::arithmetic::div_mod::lemma_fundamental_div_mod((2 * s + u) as int, (2 * u) as int);
    vstd::arithmetic::div_mod::lemma_mod_bound((2 * s + u) as int, (2 * u) as int);
    let rest = ((2 * s + u) % (2 * u)) as nat;
    assert(2 * s + u == (2 * u) * n + rest && rest < 2 * u);
    assert(n <= 2 * b + 1) by (nonlinear_arith)
        requires
            2 * s + u == (2 * u) * n + rest,
            s <= (2 * b) * u,
            u > 0,
    ;
    lemma_scaled_is_value(n, 1074);
    lemma_between(n * u, 1, n * u, n * u);
    reveal(whole_part);
    assert(n * u == u * n) by (nonlinear_arith);
    vstd::arithmetic::div_mod::lemma_div_multiples_vanish(n as int, u as int);
    // Half a unit from the rounding, and less than a quarter from what was before.
    let m = p * u;
    assert(8 * (s * d) <= 8 * m + d * u && 8 * m <= 8 * (s * d) + d * u) by {
        assert((2 * e) * m * 8 <= g * (d * u)) by {
            let du = d * u;
            assert(m <= b * du) by (nonlinear_arith)
                requires
                    m == p * u,
                    p <= d * b,
                    du == d * u,
            ;
            assert((2 * e) * m * 8 <= (2 * e) * (b * du) * 8) by (nonlinear_arith)
                requires
                    m <= b * du,
            ;
            assert((2 * e) * (b * du) * 8 == (16 * (e * b)) * du) by (nonlinear_arith);
            assert((16 * (e * b)) * du <= g * du) by (nonlinear_arith)
                requires
                    16 * (e * b) <= g,
            ;
        }
        assert(8 * (s * d) <= 8 * m + d * u) by (nonlinear_arith)
            requires
                g * (s * d) <= (g + 2 * e) * m,
                (2 * e) * m * 8 <= g * (d * u),
                g > 0,
        ;
        assert(8 * m <= 8 * (s * d) + d * u) by (nonlinear_arith)
            requires
                g * m <= g * (s * d) + (2 * e) * m,
                (2 * e) * m * 8 <= g * (d * u),
                g > 0,
        ;
    }
    assert(n * d < p + d && p < n * d + d) by (nonlinear_arith)
        requires
            8 * (s * d) <= 8 * (p * u) + d * u,
            8 * (p * u) <= 8 * (s * d) + d * u,
            2 * s + u == (2 * u) * n + rest,
            rest < 2 * u,
            u > 0,
            d > 0,
    ;
}

} // verus!
