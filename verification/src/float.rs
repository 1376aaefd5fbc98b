//! IEEE 754 binary64 and binary32 values held as bit patterns.
//!
//! Every operation is stated as the exact rational result rounded to nearest,
//! ties to even, and proved against that statement. Magnitudes are counted in
//! units of the least positive value of the format, so each finite magnitude is
//! a natural number.

use vstd::prelude::*;
use vstd::arithmetic::power2::*;
use vstd::arithmetic::div_mod::*;
use vstd::arithmetic::mul::*;

verus! {

/// Weight of the hidden bit of a binary64 significand.
pub const HALF64: u64 = 0x10_0000_0000_0000;

/// Weight of the hidden bit of a binary32 significand.
pub const HALF32: u64 = 0x80_0000;

/// Bit pattern of positive infinity, binary64.
pub const INF64: u64 = 0x7FF0_0000_0000_0000;

/// Sign bit, binary64.
pub const SIGN64: u64 = 0x8000_0000_0000_0000;

/// Quiet NaN that arithmetic yields, binary64.
pub const NAN64: u64 = 0x7FF8_0000_0000_0000;

/// Bit pattern of positive infinity, binary32.
pub const INF32: u64 = 0x7F80_0000;

/// Sign bit, binary32.
pub const SIGN32: u32 = 0x8000_0000;

/// Quiet NaN that a narrowing conversion yields, binary32.
pub const NAN32: u32 = 0x7FC0_0000;

/// A binary64 number.
#[derive(Clone, Copy, Debug, PartialEq, Eq, Structural)]
pub struct F64 {
    pub bits: u64,
}

/// A binary32 number.
#[derive(Clone, Copy, Debug, PartialEq, Eq, Structural)]
pub struct F32 {
    pub bits: u32,
}

// ---------------------------------------------------------------------------
// Rounding
// ---------------------------------------------------------------------------

/// The integer nearest to `n / d`, ties to even.
pub open spec fn half_even(n: nat, d: nat) -> nat {
    if 2 * (n % d) > d || (2 * (n % d) == d && (n / d) % 2 == 1) {
        n / d + 1
    } else {
        n / d
    }
}

/// Where `n / d` rounds to among the non-negative values of the format whose
/// hidden bit weighs `half`, with an unbounded exponent: the bit pattern of the
/// nearest one, ties to an even pattern.
pub open spec fn place(n: nat, d: nat, half: nat) -> nat
    decreases n - d,
{
    if d == 0 || half == 0 || n < d * (2 * half) {
        half_even(n, d)
    } else {
        proof {
            assert(2 * d <= n) by (nonlinear_arith)
                requires
                    n >= d * (2 * half),
                    d > 0,
                    half > 0,
            ;
        }
        half + place(n, 2 * d, half)
    }
}

/// The magnitude of the finite bit pattern `m` (sign cleared), in units of the
/// least positive value.
pub open spec fn magnitude(m: nat, half: nat) -> nat
    decreases m,
{
    if half == 0 || m < 2 * half {
        m
    } else {
        2 * magnitude((m - half) as nat, half)
    }
}

/// `n / d` rounded into binary64; magnitudes past the greatest finite one become infinity.
pub open spec fn round64(n: nat, d: nat) -> u64 {
    if place(n, d, HALF64 as nat) >= INF64 {
        INF64
    } else {
        place(n, d, HALF64 as nat) as u64
    }
}

/// `n / d` rounded into binary32.
pub open spec fn round32(n: nat, d: nat) -> u64 {
    if place(n, d, HALF32 as nat) >= INF32 {
        INF32
    } else {
        place(n, d, HALF32 as nat) as u64
    }
}

proof fn lemma_half_even_scale(n: nat, d: nat, c: nat)
    requires
        d > 0,
        c > 0,
    ensures
        half_even(c * n, c * d) == half_even(n, d),
{
    let q = n / d;
    let r = n % d;
    lemma_fundamental_div_mod(n as int, d as int);
    lemma_mod_bound(n as int, d as int);
    assert(c * n == q * (c * d) + c * r) by (nonlinear_arith)
        requires
            n == d * q + r,
    ;
    assert(0 <= c * r < c * d) by (nonlinear_arith)
        requires
            0 <= r < d,
            c > 0,
    ;
    lemma_fundamental_div_mod_converse((c * n) as int, (c * d) as int, q as int, (c * r) as int);
    assert(2 * (c * r) > c * d <==> 2 * r > d) by (nonlinear_arith)
        requires
            c > 0,
    ;
    assert(2 * (c * r) == c * d <==> 2 * r == d) by (nonlinear_arith)
        requires
            c > 0,
    ;
}

/// Rounding depends on the quotient alone.
pub proof fn lemma_place_scale(n: nat, d: nat, c: nat, half: nat)
    requires
        d > 0,
        c > 0,
        half > 0,
    ensures
        place(c * n, c * d, half) == place(n, d, half),
    decreases n - d,
{
    assert(c * d > 0) by (nonlinear_arith)
        requires
            c > 0,
            d > 0,
    ;
    assert(c * n < (c * d) * (2 * half) <==> n < d * (2 * half)) by (nonlinear_arith)
        requires
            c > 0,
    ;
    if n < d * (2 * half) {
        lemma_half_even_scale(n, d, c);
    } else {
        assert(2 * d <= n) by (nonlinear_arith)
            requires
                n >= d * (2 * half),
                d > 0,
                half > 0,
        ;
        lemma_place_scale(n, 2 * d, c, half);
        assert(2 * (c * d) == c * (2 * d)) by (nonlinear_arith);
    }
}

/// Doubling the divisor `c` times takes `c` steps of `half` off the place.
proof fn lemma_place_down(n: nat, d: nat, c: nat, half: nat)
    requires
        d > 0,
        half > 0,
        n >= (d * pow2(c)) * (2 * half),
    ensures
        place(n, d, half) == c * half + place(n, d * pow2(c), half),
    decreases c,
{
    if c == 0 {
        lemma2_to64();
        assert(d * pow2(0) == d) by (nonlinear_arith)
            requires
                pow2(0) == 1,
        ;
        assert(c * half == 0) by (nonlinear_arith)
            requires
                c == 0,
        ;
    } else {
        let k = (c - 1) as nat;
        lemma_pow2_unfold(c);
        lemma_pow2_pos(k);
        assert(d * pow2(c) == 2 * (d * pow2(k))) by (nonlinear_arith)
            requires
                pow2(c) == 2 * pow2(k),
        ;
        let dk = d * pow2(k);
        assert(dk > 0) by (nonlinear_arith)
            requires
                dk == d * pow2(k),
                d > 0,
                pow2(k) > 0,
        ;
        assert(n >= dk * (2 * half)) by (nonlinear_arith)
            requires
                n >= (2 * dk) * (2 * half),
        ;
        lemma_place_down(n, d, k, half);
        assert(c * half == k * half + half) by (nonlinear_arith)
            requires
                c == k + 1,
        ;
    }
}

/// Multiplying by `2^e` adds `e` steps of `half`.
proof fn lemma_place_up(n: nat, d: nat, e: nat, half: nat)
    requires
        d > 0,
        half > 0,
        n >= d * (2 * half),
    ensures
        place(n * pow2(e), d, half) == e * half + place(n, d, half),
{
    lemma_pow2_pos(e);
    assert(n * pow2(e) >= (d * pow2(e)) * (2 * half)) by (nonlinear_arith)
        requires
            n >= d * (2 * half),
            pow2(e) > 0,
    ;
    lemma_place_down(n * pow2(e), d, e, half);
    lemma_place_scale(n, d, pow2(e), half);
    assert(n * pow2(e) == pow2(e) * n) by (nonlinear_arith);
    assert(d * pow2(e) == pow2(e) * d) by (nonlinear_arith);
}

/// One halving of a truncated quotient, with its sticky bit.
proof fn lemma_halve(x: nat, d: nat)
    requires
        d > 0,
    ensures
        x / (2 * d) == (x / d) / 2,
        (x % (2 * d) != 0) == (x % d != 0 || (x / d) % 2 == 1),
{
    let q = x / d;
    let r = x % d;
    let h = q / 2;
    let b = q % 2;
    lemma_fundamental_div_mod(x as int, d as int);
    lemma_mod_bound(x as int, d as int);
    assert(x == h * (2 * d) + (b * d + r)) by (nonlinear_arith)
        requires
            x == d * q + r,
            q == 2 * h + b,
    ;
    assert(0 <= b * d + r < 2 * d) by (nonlinear_arith)
        requires
            0 <= b <= 1,
            0 <= r < d,
    ;
    lemma_fundamental_div_mod_converse(x as int, (2 * d) as int, h as int, (b * d + r) as int);
    assert(b * d + r != 0 <==> (r != 0 || b == 1)) by (nonlinear_arith)
        requires
            0 <= b <= 1,
            0 <= r < d,
    ;
}

/// Rounding needs only the quotient with one extra bit and whether anything is left over.
proof fn lemma_half_even_from_quotient(n: nat, d: nat)
    requires
        d > 0,
    ensures
        half_even(n, d) == {
            let q = (2 * n) / d;
            let h = q / 2;
            if q % 2 == 1 && ((2 * n) % d != 0 || h % 2 == 1) {
                h + 1
            } else {
                h
            }
        },
{
    let q = (2 * n) / d;
    let r = (2 * n) % d;
    let h = q / 2;
    let b = q % 2;
    lemma_fundamental_div_mod((2 * n) as int, d as int);
    lemma_mod_bound((2 * n) as int, d as int);
    assert(2 * n == 2 * (h * d) + (b * d + r)) by (nonlinear_arith)
        requires
            2 * n == d * q + r,
            q == 2 * h + b,
    ;
    let rest = n - h * d;
    assert(2 * rest == b * d + r);
    assert(0 <= b * d + r < 2 * d) by (nonlinear_arith)
        requires
            0 <= b <= 1,
            0 <= r < d,
    ;
    lemma_fundamental_div_mod_converse(n as int, d as int, h as int, rest);
    assert(b * d == if b == 1 {
        d as int
    } else {
        0
    }) by (nonlinear_arith)
        requires
            0 <= b <= 1,
    ;
}

/// The magnitude of a pattern with exponent `k` and significand `f`.
pub proof fn lemma_magnitude_split(k: nat, f: nat, half: nat)
    requires
        half > 0,
        k == 0 ==> f < 2 * half,
        k > 0 ==> half <= f < 2 * half,
    ensures
        magnitude(k * half + f, half) == f * pow2(k),
    decreases k,
{
    if k == 0 {
        lemma2_to64();
        assert(k * half == 0) by (nonlinear_arith)
            requires
                k == 0,
        ;
        assert(f * pow2(0) == f) by (nonlinear_arith)
            requires
                pow2(0) == 1,
        ;
    } else {
        let j = (k - 1) as nat;
        assert(k * half == j * half + half) by (nonlinear_arith)
            requires
                k == j + 1,
        ;
        assert(j * half >= 0) by (nonlinear_arith);
        lemma_magnitude_split(j, f, half);
        lemma_pow2_unfold(k);
        assert(f * pow2(k) == 2 * (f * pow2(j))) by (nonlinear_arith)
            requires
                pow2(k) == 2 * pow2(j),
        ;
    }
}

/// A finite value is its own rounding.
pub proof fn lemma_round_trip(m: nat, half: nat)
    requires
        half > 0,
    ensures
        place(magnitude(m, half), 1, half) == m,
    decreases m,
{
    if m < 2 * half {
        assert(m < 1 * (2 * half)) by (nonlinear_arith)
            requires
                m < 2 * half,
        ;
        assert(half_even(m, 1) == m) by {
            lemma_fundamental_div_mod(m as int, 1);
        }
    } else {
        let p = (m - half) as nat;
        lemma_round_trip(p, half);
        let v = magnitude(p, half);
        lemma_magnitude_ge(p, half);
        assert(2 * v >= 1 * (2 * half)) by (nonlinear_arith)
            requires
                v >= half,
        ;
        lemma_place_scale(v, 1, 2, half);
    }
}

proof fn lemma_magnitude_ge(m: nat, half: nat)
    ensures
        magnitude(m, half) >= m,
    decreases m,
{
    if half == 0 || m < 2 * half {
    } else {
        lemma_magnitude_ge((m - half) as nat, half);
    }
}

/// The order of bit patterns is the order of magnitudes.
pub proof fn lemma_magnitude_monotone(a: nat, b: nat, half: nat)
    requires
        a < b,
        half > 0,
    ensures
        magnitude(a, half) < magnitude(b, half),
    decreases a,
{
    if b < 2 * half {
    } else if a < 2 * half {
        let p = (b - half) as nat;
        lemma_magnitude_ge(p, half);
    } else {
        lemma_magnitude_monotone((a - half) as nat, (b - half) as nat, half);
    }
}

/// `place(n, d)` from the truncated quotient `2n / d` and its sticky bit.
fn place_quotient(q0: u128, s0: bool, half: u64, Ghost(n): Ghost<nat>, Ghost(d): Ghost<nat>) -> (r:
    u64)
    requires
        d > 0,
        half == HALF64 || half == HALF32,
        q0 == (2 * n) / d,
        s0 == ((2 * n) % d != 0),
        q0 < 0x8000_0000_0000_0000_0000_0000_0000_0000,
    ensures
        r == place(n, d, half as nat),
        r <= 130 * HALF64,
{
    let mut q: u128 = q0;
    let mut s: bool = s0;
    let mut acc: u64 = 0;
    let mut steps: u64 = 0;
    let ghost mut dd: nat = d;
    let ghost mut bound: nat = pow2(127);
    proof {
        lemma2_to64();
        lemma2_to64_rest();
        lemma_pow2_adds(63, 64);
    }
    while q >= (half as u128) * 4
        invariant
            dd > 0,
            half == HALF64 || half == HALF32,
            q == (2 * n) / dd,
            s == ((2 * n) % dd != 0),
            place(n, d, half as nat) == acc + place(n, dd, half as nat),
            acc == steps * half,
            steps <= 127,
            q < pow2((127 - steps) as nat),
        decreases q,
    {
        proof {
            let h = half as nat;
            lemma_halve(2 * n, dd);
            assert(n >= dd * (2 * h)) by {
                lemma_fundamental_div_mod((2 * n) as int, dd as int);
                lemma_mod_bound((2 * n) as int, dd as int);
                assert(2 * n >= dd * (4 * h)) by (nonlinear_arith)
                    requires
                        2 * n == dd * q + (2 * n) % dd,
                        (2 * n) % dd >= 0,
                        q >= 4 * h,
                        dd > 0,
                ;
                assert(dd * (4 * h) == 2 * (dd * (2 * h))) by (nonlinear_arith);
            }
            if steps == 127 {
                lemma2_to64();
            } else {
                lemma_pow2_unfold((127 - steps) as nat);
            }
            dd = 2 * dd;
            assert((steps + 1) * half == steps * half + half) by (nonlinear_arith);
            assert((steps + 1) * half <= 128 * HALF64) by (nonlinear_arith)
                requires
                    steps <= 127,
                    half <= HALF64,
            ;
        }
        s = s || q % 2 == 1;
        q = q / 2;
        acc = acc + half;
        steps = steps + 1;
    }
    proof {
        let h = half as nat;
        lemma_half_even_from_quotient(n, dd);
        assert(n < dd * (2 * h)) by {
            lemma_fundamental_div_mod((2 * n) as int, dd as int);
            lemma_mod_bound((2 * n) as int, dd as int);
            assert(2 * n < dd * (4 * h)) by (nonlinear_arith)
                requires
                    2 * n == dd * q + (2 * n) % dd,
                    (2 * n) % dd < dd,
                    q + 1 <= 4 * h,
                    dd > 0,
            ;
            assert(dd * (4 * h) == 2 * (dd * (2 * h))) by (nonlinear_arith);
        }
        assert(steps * half <= 127 * HALF64) by (nonlinear_arith)
            requires
                steps <= 127,
                half <= HALF64,
        ;
    }
    let h: u64 = (q / 2) as u64;
    if q % 2 == 1 && (s || h % 2 == 1) {
        acc + h + 1
    } else {
        acc + h
    }
}

/// Splits a finite bit pattern into significand and exponent.
fn split(m: u64, half: u64) -> (r: (u64, u64))
    requires
        half == HALF64 || half == HALF32,
        m < INF64,
    ensures
        magnitude(m as nat, half as nat) == r.0 * pow2(r.1 as nat),
        r.0 < 2 * half,
        r.1 > 0 ==> r.0 >= half,
        r.1 == if m / half == 0 {
            0
        } else {
            m / half - 1
        },
        half == HALF64 ==> r.1 <= 2045,
        half == HALF32 && m < INF32 ==> r.1 <= 253,
{
    let e: u64 = m / half;
    let f: u64 = m % half;
    proof {
        lemma_fundamental_div_mod(m as int, half as int);
    }
    if e == 0 {
        proof {
            lemma_magnitude_split(0, f as nat, half as nat);
        }
        (f, 0)
    } else {
        proof {
            let k = (e - 1) as nat;
            assert(e * half == k * half + half) by (nonlinear_arith)
                requires
                    e == k + 1,
            ;
            assert(half * e == e * half) by (nonlinear_arith);
            lemma_magnitude_split(k, (half + f) as nat, half as nat);
        }
        (half + f, e - 1)
    }
}

/// The place of `m * 2^e`.
fn place_integer(m0: u128, e0: u64, half: u64) -> (r: u64)
    requires
        half == HALF64 || half == HALF32,
        m0 < 0x4000_0000_0000_0000_0000_0000_0000_0000,
        e0 <= 3200,
    ensures
        r == place(m0 as nat * pow2(e0 as nat), 1, half as nat),
        r <= 3330 * HALF64,
{
    let mut m: u128 = m0;
    let mut e: u64 = e0;
    while e > 0 && m < (half as u128) * 2
        invariant
            half == HALF64 || half == HALF32,
            m * pow2(e as nat) == m0 * pow2(e0 as nat),
            m < 0x4000_0000_0000_0000_0000_0000_0000_0000,
            e <= 3200,
        decreases e,
    {
        proof {
            lemma_pow2_unfold(e as nat);
            assert((2 * m) * pow2((e - 1) as nat) == m * pow2(e as nat)) by (nonlinear_arith)
                requires
                    pow2(e as nat) == 2 * pow2((e - 1) as nat),
            ;
        }
        m = m * 2;
        e = e - 1;
    }
    proof {
        let n = m as nat;
        assert((2 * n) / 1 == 2 * n && (2 * n) % 1 == 0);
        if e > 0 {
            assert(n >= 1 * (2 * (half as nat))) by (nonlinear_arith)
                requires
                    n >= 2 * half,
            ;
            lemma_place_up(n, 1, e as nat, half as nat);
        } else {
            lemma2_to64();
            assert(n * pow2(0) == n) by (nonlinear_arith)
                requires
                    pow2(0) == 1,
            ;
            assert(e * half == 0) by (nonlinear_arith)
                requires
                    e == 0,
            ;
        }
        assert(e * half <= 3200 * HALF64) by (nonlinear_arith)
            requires
                e <= 3200,
                half <= HALF64,
        ;
    }
    let r: u64 = place_quotient(m * 2, false, half, Ghost(m as nat), Ghost(1));
    e * half + r
}

/// The place of `n / (d * 2^k)` from the truncated quotient `2n / d` and its sticky bit.
fn place_fraction(
    q0: u128,
    s0: bool,
    k0: u64,
    half: u64,
    Ghost(n): Ghost<nat>,
    Ghost(d): Ghost<nat>,
) -> (r: u64)
    requires
        d > 0,
        half == HALF64 || half == HALF32,
        q0 == (2 * n) / d,
        s0 == ((2 * n) % d != 0),
        q0 < 0x8000_0000_0000_0000_0000_0000_0000_0000,
    ensures
        r == place(n, d * pow2(k0 as nat), half as nat),
        r <= 130 * HALF64,
{
    let mut q: u128 = q0;
    let mut s: bool = s0;
    let mut k: u64 = k0;
    let ghost mut dd: nat = d;
    while k > 0 && q > 0
        invariant
            dd > 0,
            k <= k0,
            q == (2 * n) / dd,
            s == ((2 * n) % dd != 0),
            q < 0x8000_0000_0000_0000_0000_0000_0000_0000,
            dd * pow2(k as nat) == d * pow2(k0 as nat),
        decreases k,
    {
        proof {
            lemma_halve(2 * n, dd);
            lemma_pow2_unfold(k as nat);
            assert((2 * dd) * pow2((k - 1) as nat) == dd * pow2(k as nat)) by (nonlinear_arith)
                requires
                    pow2(k as nat) == 2 * pow2((k - 1) as nat),
            ;
            dd = 2 * dd;
        }
        s = s || q % 2 == 1;
        q = q / 2;
        k = k - 1;
    }
    if q == 0 {
        proof {
            let full = d * pow2(k0 as nat);
            lemma_pow2_pos(k as nat);
            assert(full >= dd) by (nonlinear_arith)
                requires
                    full == dd * pow2(k as nat),
                    pow2(k as nat) >= 1,
            ;
            lemma_fundamental_div_mod((2 * n) as int, dd as int);
            lemma_mod_bound((2 * n) as int, dd as int);
            assert(dd * 0 == 0) by (nonlinear_arith);
            assert(2 * n < full);
            lemma_small_div_quotient(n, full);
            assert(n < full * (2 * (half as nat))) by (nonlinear_arith)
                requires
                    2 * n < full,
                    half >= 1,
            ;
        }
        return 0;
    }
    proof {
        lemma2_to64();
        assert(dd * pow2(0) == dd) by (nonlinear_arith)
            requires
                pow2(0) == 1,
        ;
    }
    place_quotient(q, s, half, Ghost(n), Ghost(dd))
}

proof fn lemma_small_div_quotient(n: nat, d: nat)
    requires
        2 * n < d,
    ensures
        half_even(n, d) == 0,
{
    assert(0 * d == 0) by (nonlinear_arith);
    lemma_fundamental_div_mod_converse(n as int, d as int, 0, n as int);
}

fn clamp64(x: u64) -> (r: u64)
    ensures
        r == if x >= INF64 {
            INF64
        } else {
            x
        },
{
    if x >= INF64 {
        INF64
    } else {
        x
    }
}

/// `2^k` for a small `k`.
fn power(k: u64) -> (r: u128)
    requires
        k <= 120,
    ensures
        r == pow2(k as nat),
        1 <= r <= 0x100_0000_0000_0000_0000_0000_0000_0000,
{
    let mut r: u128 = 1;
    let mut i: u64 = 0;
    proof {
        lemma2_to64();
        lemma2_to64_rest();
        lemma_pow2_adds(64, 56);
    }
    while i < k
        invariant
            i <= k <= 120,
            r == pow2(i as nat),
            pow2(120) == 0x100_0000_0000_0000_0000_0000_0000_0000,
        decreases k - i,
    {
        proof {
            lemma_pow2_unfold((i + 1) as nat);
            if i + 1 < 120 {
                lemma_pow2_strictly_increases((i + 1) as nat, 120);
            }
        }
        r = r * 2;
        i = i + 1;
    }
    proof {
        lemma_pow2_pos(k as nat);
        if k < 120 {
            lemma_pow2_strictly_increases(k as nat, 120);
        }
    }
    r
}

// ---------------------------------------------------------------------------
// Arithmetic on binary64 magnitudes
// ---------------------------------------------------------------------------

pub open spec fn mag64(m: u64) -> nat {
    magnitude(m as nat, HALF64 as nat)
}

pub open spec fn mag32(m: u32) -> nat {
    magnitude(m as nat, HALF32 as nat)
}

proof fn lemma_align(fa: nat, fb: nat, ea: nat, eb: nat, w: nat)
    requires
        eb <= ea,
        w == pow2((ea - eb) as nat),
    ensures
        fa * pow2(ea) + fb * pow2(eb) == (fa * w + fb) * pow2(eb),
        fa * pow2(ea) == (fa * w) * pow2(eb),
{
    lemma_pow2_adds((ea - eb) as nat, eb);
    assert(fa * pow2(ea) == (fa * w) * pow2(eb)) by (nonlinear_arith)
        requires
            pow2(ea) == w * pow2(eb),
    ;
    assert((fa * w + fb) * pow2(eb) == (fa * w) * pow2(eb) + fb * pow2(eb)) by (nonlinear_arith);
}

/// With exponents this far apart the lesser operand is below half a unit of the sum.
proof fn lemma_far(fa: nat, fb: nat, ea: nat, eb: nat, c: nat)
    requires
        fa >= HALF64,
        fb < 2 * HALF64,
        ea >= eb + 65,
        c == ea - 11,
    ensures
        fa * pow2(ea) == (fa * 2048) * pow2(c),
        2 * (fb * pow2(eb)) < pow2(c),
        fb > 0 <==> fb * pow2(eb) > 0,
{
    lemma2_to64();
    lemma_pow2_adds(11, c);
    assert(fa * pow2(ea) == (fa * 2048) * pow2(c)) by (nonlinear_arith)
        requires
            pow2(ea) == 2048 * pow2(c),
    ;
    lemma_pow2_pos(eb);
    lemma2_to64_rest();
    lemma_pow2_adds(54, eb);
    assert(2 * (fb * pow2(eb)) < pow2(54) * pow2(eb)) by (nonlinear_arith)
        requires
            2 * fb < pow2(54),
            pow2(eb) > 0,
    ;
    if 54 + eb < c {
        lemma_pow2_strictly_increases(54 + eb, c);
    }
    assert(fb > 0 <==> fb * pow2(eb) > 0) by (nonlinear_arith)
        requires
            pow2(eb) > 0,
    ;
}

proof fn lemma_far_sum(fa: nat, big: nat, small: nat, c: nat)
    requires
        fa >= HALF64,
        big == (fa * 2048) * pow2(c),
        2 * small < pow2(c),
    ensures
        (2 * (big + small)) / pow2(c) == fa * 4096,
        ((2 * (big + small)) % pow2(c) != 0) == (small > 0),
        big + small >= (1 * pow2(c)) * (2 * (HALF64 as nat)),
{
    let p = pow2(c);
    assert(2 * (big + small) == (fa * 4096) * p + 2 * small) by (nonlinear_arith)
        requires
            big == (fa * 2048) * p,
    ;
    lemma_fundamental_div_mod_converse(
        (2 * (big + small)) as int,
        p as int,
        (fa * 4096) as int,
        (2 * small) as int,
    );
    assert((fa * 2048) * p >= (1 * p) * (2 * (HALF64 as nat))) by (nonlinear_arith)
        requires
            fa * 2048 >= 2 * HALF64,
    ;
}

proof fn lemma_far_difference(fa: nat, big: nat, small: nat, c: nat)
    requires
        fa >= HALF64,
        big == (fa * 2048) * pow2(c),
        2 * small < pow2(c),
        small > 0,
    ensures
        big > small,
        (2 * (big - small) as nat) / pow2(c) == fa * 4096 - 1,
        (2 * (big - small) as nat) % pow2(c) != 0,
        big - small >= (1 * pow2(c)) * (2 * (HALF64 as nat)),
{
    let p = pow2(c);
    assert(big >= (2 * (HALF64 as nat) + 1) * p) by (nonlinear_arith)
        requires
            fa * 2048 >= 2 * HALF64 + 1,
            big == (fa * 2048) * p,
    ;
    assert((2 * (HALF64 as nat) + 1) * p == (1 * p) * (2 * (HALF64 as nat)) + p) by (nonlinear_arith);
    assert((1 * p) * (2 * (HALF64 as nat)) >= 0) by (nonlinear_arith);
    assert(2 * (big - small) == (fa * 4096 - 1) * p + (p - 2 * small)) by (nonlinear_arith)
        requires
            big == (fa * 2048) * p,
    ;
    lemma_fundamental_div_mod_converse(
        2 * (big - small),
        p as int,
        (fa * 4096 - 1) as int,
        p - 2 * small,
    );
}

fn sum_magnitudes(a: u64, b: u64) -> (r: u64)
    requires
        a < INF64,
        b < INF64,
        b <= a,
    ensures
        r == round64(mag64(a) + mag64(b), 1),
{
    let (fa, ea) = split(a, HALF64);
    let (fb, eb) = split(b, HALF64);
    let gap: u64 = ea - eb;
    if gap <= 64 {
        let w: u128 = power(gap);
        proof {
            lemma2_to64_rest();
            if gap < 64 {
                lemma_pow2_strictly_increases(gap as nat, 64);
            }
            lemma_align(fa as nat, fb as nat, ea as nat, eb as nat, w as nat);
            assert(fa * w <= 0x20_0000_0000_0000u128 * 0x1_0000_0000_0000_0000u128)
                by (nonlinear_arith)
                requires
                    fa < 0x20_0000_0000_0000,
                    w <= 0x1_0000_0000_0000_0000,
            ;
        }
        clamp64(place_integer((fa as u128) * w + fb as u128, eb, HALF64))
    } else {
        let c: u64 = ea - 11;
        let ghost n: nat = mag64(a) + mag64(b);
        proof {
            lemma_far(fa as nat, fb as nat, ea as nat, eb as nat, c as nat);
            lemma_far_sum(fa as nat, mag64(a), mag64(b), c as nat);
            lemma_pow2_pos(c as nat);
        }
        let r: u64 = place_quotient(
            (fa as u128) * 4096,
            fb != 0,
            HALF64,
            Ghost(n),
            Ghost(pow2(c as nat)),
        );
        proof {
            lemma_place_down(n, 1, c as nat, HALF64 as nat);
            assert(1 * pow2(c as nat) == pow2(c as nat)) by (nonlinear_arith);
        }
        clamp64(c * HALF64 + r)
    }
}

fn difference_magnitudes(a: u64, b: u64) -> (r: u64)
    requires
        a < INF64,
        b < INF64,
        b < a,
    ensures
        r == round64((mag64(a) - mag64(b)) as nat, 1),
{
    let (fa, ea) = split(a, HALF64);
    let (fb, eb) = split(b, HALF64);
    proof {
        lemma_magnitude_monotone(b as nat, a as nat, HALF64 as nat);
    }
    let gap: u64 = ea - eb;
    if gap <= 64 {
        let w: u128 = power(gap);
        proof {
            lemma2_to64_rest();
            if gap < 64 {
                lemma_pow2_strictly_increases(gap as nat, 64);
            }
            lemma_align(fa as nat, fb as nat, ea as nat, eb as nat, w as nat);
            assert(fa * w <= 0x20_0000_0000_0000u128 * 0x1_0000_0000_0000_0000u128)
                by (nonlinear_arith)
                requires
                    fa < 0x20_0000_0000_0000,
                    w <= 0x1_0000_0000_0000_0000,
            ;
            lemma_pow2_pos(eb as nat);
            assert(fa * w > fb) by (nonlinear_arith)
                requires
                    (fa * w) * pow2(eb as nat) > fb * pow2(eb as nat),
                    pow2(eb as nat) > 0,
            ;
            assert((fa * w - fb) * pow2(eb as nat) == (fa * w) * pow2(eb as nat) - fb * pow2(
                eb as nat,
            )) by (nonlinear_arith);
        }
        clamp64(place_integer((fa as u128) * w - fb as u128, eb, HALF64))
    } else {
        if b == 0 {
            proof {
                lemma_round_trip(a as nat, HALF64 as nat);
            }
            return a;
        }
        let c: u64 = ea - 11;
        let ghost n: nat = (mag64(a) - mag64(b)) as nat;
        proof {
            lemma_far(fa as nat, fb as nat, ea as nat, eb as nat, c as nat);
            lemma_magnitude_ge(b as nat, HALF64 as nat);
            lemma_far_difference(fa as nat, mag64(a), mag64(b), c as nat);
            lemma_pow2_pos(c as nat);
        }
        let r: u64 = place_quotient(
            (fa as u128) * 4096 - 1,
            true,
            HALF64,
            Ghost(n),
            Ghost(pow2(c as nat)),
        );
        proof {
            lemma_place_down(n, 1, c as nat, HALF64 as nat);
            assert(1 * pow2(c as nat) == pow2(c as nat)) by (nonlinear_arith);
        }
        clamp64(c * HALF64 + r)
    }
}

/// The product, whose exact value counts units of `2^-1074` squared.
fn product_magnitudes(a: u64, b: u64) -> (r: u64)
    requires
        a < INF64,
        b < INF64,
    ensures
        r == round64(mag64(a) * mag64(b), pow2(1074)),
{
    let (fa, ea) = split(a, HALF64);
    let (fb, eb) = split(b, HALF64);
    proof {
        assert(fa * fb < 0x20_0000_0000_0000u128 * 0x20_0000_0000_0000u128) by (nonlinear_arith)
            requires
                fa < 0x20_0000_0000_0000,
                fb < 0x20_0000_0000_0000,
        ;
    }
    let m: u128 = (fa as u128) * (fb as u128);
    let e: u64 = ea + eb;
    proof {
        lemma_pow2_adds(ea as nat, eb as nat);
        assert(mag64(a) * mag64(b) == m * pow2(e as nat)) by (nonlinear_arith)
            requires
                mag64(a) == fa * pow2(ea as nat),
                mag64(b) == fb * pow2(eb as nat),
                m == fa * fb,
                pow2(e as nat) == pow2(ea as nat) * pow2(eb as nat),
        ;
        lemma_pow2_pos(1074);
        lemma_pow2_pos(e as nat);
    }
    if e >= 1074 {
        proof {
            lemma_pow2_adds((e - 1074) as nat, 1074);
            lemma_place_scale(m as nat * pow2((e - 1074) as nat), 1, pow2(1074), HALF64 as nat);
            assert(pow2(1074) * (m * pow2((e - 1074) as nat)) == m * pow2(e as nat))
                by (nonlinear_arith)
                requires
                    pow2(e as nat) == pow2((e - 1074) as nat) * pow2(1074),
            ;
            assert(pow2(1074) * 1 == pow2(1074)) by (nonlinear_arith);
        }
        clamp64(place_integer(m, e - 1074, HALF64))
    } else {
        let k: u64 = 1074 - e;
        proof {
            lemma_pow2_adds(k as nat, e as nat);
            lemma_pow2_pos(k as nat);
            lemma_place_scale(m as nat, pow2(k as nat), pow2(e as nat), HALF64 as nat);
            assert(pow2(e as nat) * m == m * pow2(e as nat)) by (nonlinear_arith);
            assert(pow2(e as nat) * pow2(k as nat) == pow2(1074)) by (nonlinear_arith)
                requires
                    pow2(1074) == pow2(k as nat) * pow2(e as nat),
            ;
            assert((2 * (m as nat)) / 1 == 2 * m && (2 * (m as nat)) % 1 == 0);
            assert(1 * pow2(k as nat) == pow2(k as nat)) by (nonlinear_arith);
        }
        clamp64(place_fraction(m * 2, false, k, HALF64, Ghost(m as nat), Ghost(1)))
    }
}

/// The quotient of two magnitudes, `b` not zero.
fn quotient_magnitudes(a: u64, b: u64) -> (r: u64)
    requires
        a < INF64,
        b < INF64,
        b > 0,
    ensures
        r == round64(mag64(a) * pow2(1074), mag64(b)),
{
    let (fa0, ea0) = split(a, HALF64);
    let (fb, eb) = split(b, HALF64);
    proof {
        lemma_magnitude_ge(b as nat, HALF64 as nat);
        lemma_pow2_pos(eb as nat);
        if fb == 0 {
            assert(fb * pow2(eb as nat) == 0) by (nonlinear_arith)
                requires
                    fb == 0,
            ;
        }
    }
    if fa0 == 0 {
        proof {
            assert(mag64(a) * pow2(1074) == 0) by (nonlinear_arith)
                requires
                    mag64(a) == fa0 * pow2(ea0 as nat),
                    fa0 == 0,
            ;
            lemma_small_div_quotient(0, mag64(b));
            assert(0 < mag64(b) * (2 * (HALF64 as nat))) by (nonlinear_arith)
                requires
                    mag64(b) > 0,
            ;
        }
        return 0;
    }
    // Scale the dividend's significand up to full width: the value stays
    // `fa / fb * 2^(t - 3200)`.
    let mut fa: u64 = fa0;
    let mut t: u64 = ea0 + 1074 + 3200 - eb;
    let ghost t0: nat = t as nat;
    proof {
        lemma2_to64();
    }
    while fa < HALF64
        invariant
            0 < fa < 2 * HALF64,
            fa * pow2(t as nat) == fa0 * pow2(t0),
            t <= t0,
            t0 <= 6320,
            t0 >= 2229,
            t + 52 >= t0,
            pow2((t0 - t) as nat) <= fa,
        decreases t,
    {
        proof {
            lemma_pow2_unfold(t as nat);
            assert((2 * fa) * pow2((t - 1) as nat) == fa * pow2(t as nat)) by (nonlinear_arith)
                requires
                    pow2(t as nat) == 2 * pow2((t - 1) as nat),
            ;
            lemma_pow2_unfold((t0 - t + 1) as nat);
            if t + 52 == t0 {
                lemma2_to64_rest();
            }
        }
        fa = fa * 2;
        t = t - 1;
    }
    proof {
        lemma_quotient_scale(fa0 as nat, ea0 as nat, fb as nat, eb as nat, fa as nat, t as nat, t0);
    }
    if t >= 3264 {
        let w: u128 = power(64);
        let up: u64 = t - 3264;
        proof {
            lemma2_to64_rest();
            lemma_pow2_adds(up as nat, 64);
            let n = fa as nat * pow2(64);
            assert(fa * pow2((t - 3200) as nat) == n * pow2(up as nat)) by (nonlinear_arith)
                requires
                    n == fa * pow2(64),
                    pow2((t - 3200) as nat) == pow2(up as nat) * pow2(64),
            ;
            assert(n >= fb * (2 * (HALF64 as nat))) by (nonlinear_arith)
                requires
                    n == fa * 0x1_0000_0000_0000_0000,
                    fa >= 0x10_0000_0000_0000,
                    fb < 0x20_0000_0000_0000,
            ;
            lemma_place_up(n, fb as nat, up as nat, HALF64 as nat);
            assert(fa * w < 0x20_0000_0000_0000u128 * 0x1_0000_0000_0000_0000u128)
                by (nonlinear_arith)
                requires
                    fa < 0x20_0000_0000_0000,
                    w == 0x1_0000_0000_0000_0000,
            ;
        }
        let n: u128 = (fa as u128) * w;
        let q: u128 = (n * 2) / (fb as u128);
        proof {
            lemma_div_is_ordered_by_denominator((n * 2) as int, 1, fb as int);
        }
        let r: u64 = place_quotient(
            q,
            (n * 2) % (fb as u128) != 0,
            HALF64,
            Ghost(n as nat),
            Ghost(fb as nat),
        );
        clamp64(up * HALF64 + r)
    } else if t >= 3200 {
        let w: u128 = power(t - 3200);
        proof {
            lemma2_to64_rest();
            if t < 3264 {
                lemma_pow2_strictly_increases((t - 3200) as nat, 64);
            }
            assert(fa * w < 0x20_0000_0000_0000u128 * 0x1_0000_0000_0000_0000u128)
                by (nonlinear_arith)
                requires
                    fa < 0x20_0000_0000_0000,
                    w <= 0x1_0000_0000_0000_0000,
            ;
        }
        let n: u128 = (fa as u128) * w;
        let q: u128 = (n * 2) / (fb as u128);
        proof {
            lemma_div_is_ordered_by_denominator((n * 2) as int, 1, fb as int);
        }
        clamp64(
            place_quotient(
                q,
                (n * 2) % (fb as u128) != 0,
                HALF64,
                Ghost(n as nat),
                Ghost(fb as nat),
            ),
        )
    } else {
        let n: u128 = fa as u128;
        let q: u128 = (n * 2) / (fb as u128);
        proof {
            lemma_div_is_ordered_by_denominator((n * 2) as int, 1, fb as int);
        }
        clamp64(
            place_fraction(
                q,
                (n * 2) % (fb as u128) != 0,
                3200 - t,
                HALF64,
                Ghost(n as nat),
                Ghost(fb as nat),
            ),
        )
    }
}

proof fn lemma_quotient_scale(
    fa0: nat,
    ea0: nat,
    fb: nat,
    eb: nat,
    fa: nat,
    t: nat,
    t0: nat,
)
    requires
        fb > 0,
        t0 == ea0 + 1074 + 3200 - eb,
        t <= t0,
        fa * pow2(t) == fa0 * pow2(t0),
    ensures
        t >= 3200 ==> place((fa0 * pow2(ea0)) * pow2(1074), fb * pow2(eb), HALF64 as nat) == place(
            fa * pow2((t - 3200) as nat),
            fb,
            HALF64 as nat,
        ),
        t < 3200 ==> place((fa0 * pow2(ea0)) * pow2(1074), fb * pow2(eb), HALF64 as nat) == place(
            fa,
            fb * pow2((3200 - t) as nat),
            HALF64 as nat,
        ),
{
    let h = HALF64 as nat;
    let p = pow2(3200);
    lemma_pow2_pos(3200);
    lemma_pow2_pos(eb);
    lemma_pow2_pos(t);
    lemma_pow2_adds(ea0, 1074);
    lemma_pow2_adds(ea0 + 1074, 3200);
    lemma_pow2_adds(t0, eb);
    let n = (fa0 * pow2(ea0)) * pow2(1074);
    let d = fb * pow2(eb);
    assert(d > 0) by (nonlinear_arith)
        requires
            d == fb * pow2(eb),
            fb > 0,
            pow2(eb) > 0,
    ;
    // Both sides times `2^3200`, and without the common `2^eb`.
    lemma_place_scale(n, d, p, h);
    assert(p * n == pow2(eb) * (fa * pow2(t))) by (nonlinear_arith)
        requires
            n == (fa0 * pow2(ea0)) * pow2(1074),
            pow2(ea0) * pow2(1074) == pow2(ea0 + 1074),
            pow2(ea0 + 1074) * p == pow2(t0) * pow2(eb),
            fa * pow2(t) == fa0 * pow2(t0),
    {
        assert(n == fa0 * pow2(ea0 + 1074));
        assert(p * n == fa0 * (pow2(ea0 + 1074) * p));
        assert(fa0 * (pow2(t0) * pow2(eb)) == pow2(eb) * (fa0 * pow2(t0)));
    }
    assert(p * d == pow2(eb) * (fb * p)) by (nonlinear_arith)
        requires
            d == fb * pow2(eb),
    ;
    assert(fb * p > 0) by (nonlinear_arith)
        requires
            fb > 0,
            p > 0,
    ;
    lemma_place_scale(fa * pow2(t), fb * p, pow2(eb), h);
    if t >= 3200 {
        let u = (t - 3200) as nat;
        lemma_pow2_adds(u, 3200);
        assert(fa * pow2(t) == p * (fa * pow2(u))) by (nonlinear_arith)
            requires
                pow2(t) == pow2(u) * p,
        ;
        assert(fb * p == p * fb) by (nonlinear_arith);
        lemma_place_scale(fa * pow2(u), fb, p, h);
    } else {
        let u = (3200 - t) as nat;
        lemma_pow2_adds(u, t);
        lemma_pow2_pos(u);
        assert(fb * p == pow2(t) * (fb * pow2(u))) by (nonlinear_arith)
            requires
                p == pow2(u) * pow2(t),
        ;
        assert(fa * pow2(t) == pow2(t) * fa) by (nonlinear_arith);
        assert(fb * pow2(u) > 0) by (nonlinear_arith)
            requires
                fb > 0,
                pow2(u) > 0,
        ;
        lemma_place_scale(fa, fb * pow2(u), pow2(t), h);
    }
}

// ---------------------------------------------------------------------------
// binary64
// ---------------------------------------------------------------------------

/// The sign-free bits.
pub open spec fn abs_bits(a: F64) -> u64 {
    if a.bits >= SIGN64 {
        (a.bits - SIGN64) as u64
    } else {
        a.bits
    }
}

pub open spec fn is_negative(a: F64) -> bool {
    a.bits >= SIGN64
}

pub open spec fn is_nan(a: F64) -> bool {
    abs_bits(a) > INF64
}

pub open spec fn is_finite(a: F64) -> bool {
    abs_bits(a) < INF64
}

/// The number with sign `neg` and sign-free bits `m`.
pub open spec fn signed(neg: bool, m: u64) -> F64 {
    F64 {
        bits: if neg {
            (m + SIGN64) as u64
        } else {
            m
        },
    }
}

/// Position of a number on the line: bit patterns of one sign are in the order
/// of their magnitudes, and both zeros sit at 0.
pub open spec fn rank(a: F64) -> int {
    if is_negative(a) {
        -(abs_bits(a) as int)
    } else {
        abs_bits(a) as int
    }
}

/// `a < b`; false when either is NaN.
pub open spec fn flt(a: F64, b: F64) -> bool {
    !is_nan(a) && !is_nan(b) && rank(a) < rank(b)
}

/// `a <= b`; false when either is NaN.
pub open spec fn fle(a: F64, b: F64) -> bool {
    !is_nan(a) && !is_nan(b) && rank(a) <= rank(b)
}

/// `a == b`; false when either is NaN.
pub open spec fn feq(a: F64, b: F64) -> bool {
    !is_nan(a) && !is_nan(b) && rank(a) == rank(b)
}

pub open spec fn fneg(a: F64) -> F64 {
    signed(!is_negative(a), abs_bits(a))
}

pub open spec fn fabs(a: F64) -> F64 {
    signed(false, abs_bits(a))
}

/// `a + b`.
#[verifier::opaque]
pub open spec fn fadd(a: F64, b: F64) -> F64 {
    let x = abs_bits(a);
    let y = abs_bits(b);
    if is_nan(a) || is_nan(b) {
        F64 { bits: NAN64 }
    } else if x == INF64 {
        if y == INF64 && is_negative(a) != is_negative(b) {
            F64 { bits: NAN64 }
        } else {
            a
        }
    } else if y == INF64 {
        b
    } else if is_negative(a) == is_negative(b) {
        signed(is_negative(a), round64(mag64(x) + mag64(y), 1))
    } else if x == y {
        F64 { bits: 0 }
    } else if x > y {
        signed(is_negative(a), round64((mag64(x) - mag64(y)) as nat, 1))
    } else {
        signed(is_negative(b), round64((mag64(y) - mag64(x)) as nat, 1))
    }
}

/// `a - b`.
pub open spec fn fsub(a: F64, b: F64) -> F64 {
    fadd(a, fneg(b))
}

/// `a * b`.
#[verifier::opaque]
pub open spec fn fmul(a: F64, b: F64) -> F64 {
    let x = abs_bits(a);
    let y = abs_bits(b);
    let neg = is_negative(a) != is_negative(b);
    if is_nan(a) || is_nan(b) {
        F64 { bits: NAN64 }
    } else if x == INF64 || y == INF64 {
        if x == 0 || y == 0 {
            F64 { bits: NAN64 }
        } else {
            signed(neg, INF64)
        }
    } else {
        signed(neg, round64(mag64(x) * mag64(y), pow2(1074)))
    }
}

/// `a / b`.
#[verifier::opaque]
pub open spec fn fdiv(a: F64, b: F64) -> F64 {
    let x = abs_bits(a);
    let y = abs_bits(b);
    let neg = is_negative(a) != is_negative(b);
    if is_nan(a) || is_nan(b) || (x == INF64 && y == INF64) || (x == 0 && y == 0) {
        F64 { bits: NAN64 }
    } else if x == INF64 || y == 0 {
        signed(neg, INF64)
    } else if y == INF64 {
        signed(neg, 0)
    } else {
        signed(neg, round64(mag64(x) * pow2(1074), mag64(y)))
    }
}

/// The integer `v` as a binary64 number.
#[verifier::opaque]
pub open spec fn from_int(v: int) -> F64 {
    if v < 0 {
        signed(true, round64((-v) as nat * pow2(1074), 1))
    } else {
        signed(false, round64(v as nat * pow2(1074), 1))
    }
}

/// The integer part of a finite number's magnitude.
#[verifier::opaque]
pub open spec fn whole_part(a: F64) -> nat {
    mag64(abs_bits(a)) / pow2(1074)
}

/// The value cut towards zero and held within `lo..=hi`; NaN gives 0.
pub open spec fn to_int(a: F64, lo: int, hi: int) -> int {
    if is_nan(a) {
        0
    } else {
        let v = if is_negative(a) {
            -(whole_part(a) as int)
        } else {
            whole_part(a) as int
        };
        if abs_bits(a) == INF64 {
            if is_negative(a) {
                lo
            } else {
                hi
            }
        } else if v < lo {
            lo
        } else if v > hi {
            hi
        } else {
            v
        }
    }
}

/// The nearest integer, ties away from zero.
#[verifier::opaque]
pub open spec fn fround(a: F64) -> F64 {
    if !is_finite(a) {
        a
    } else {
        signed(
            is_negative(a),
            round64(((2 * mag64(abs_bits(a)) + pow2(1074)) / pow2(1075)) * pow2(1074), 1),
        )
    }
}

/// The least integer not below `a`.
#[verifier::opaque]
pub open spec fn fceil(a: F64) -> F64 {
    if !is_finite(a) {
        a
    } else if is_negative(a) {
        signed(true, round64((mag64(abs_bits(a)) / pow2(1074)) * pow2(1074), 1))
    } else {
        signed(
            false,
            round64(
                (((mag64(abs_bits(a)) + pow2(1074) - 1) as nat) / pow2(1074)) * pow2(1074),
                1,
            ),
        )
    }
}

/// The lesser of two numbers; the other one where one is NaN.
pub open spec fn fmin(a: F64, b: F64) -> F64 {
    if is_nan(a) {
        b
    } else if flt(b, a) {
        b
    } else {
        a
    }
}

/// The greater of two numbers; the other one where one is NaN.
pub open spec fn fmax(a: F64, b: F64) -> F64 {
    if is_nan(a) {
        b
    } else if flt(a, b) {
        b
    } else {
        a
    }
}

pub open spec fn abs_bits32(a: F32) -> u32 {
    if a.bits >= SIGN32 {
        (a.bits - SIGN32) as u32
    } else {
        a.bits
    }
}

pub open spec fn is_nan32(a: F32) -> bool {
    abs_bits32(a) > INF32
}

pub open spec fn is_finite32(a: F32) -> bool {
    abs_bits32(a) < INF32
}

pub open spec fn rank32(a: F32) -> int {
    if a.bits >= SIGN32 {
        -(abs_bits32(a) as int)
    } else {
        abs_bits32(a) as int
    }
}

/// `a < b` on binary32 numbers.
pub open spec fn flt32(a: F32, b: F32) -> bool {
    !is_nan32(a) && !is_nan32(b) && rank32(a) < rank32(b)
}

/// `a == b` on binary32 numbers.
pub open spec fn feq32(a: F32, b: F32) -> bool {
    !is_nan32(a) && !is_nan32(b) && rank32(a) == rank32(b)
}

pub open spec fn fabs32(a: F32) -> F32 {
    F32 { bits: abs_bits32(a) }
}

/// The same value as a binary64 number; the units of binary32 are `2^925` units here.
#[verifier::opaque]
pub open spec fn widen(a: F32) -> F64 {
    let neg = a.bits >= SIGN32;
    let x = abs_bits32(a);
    if is_nan32(a) {
        F64 { bits: NAN64 }
    } else if x == INF32 {
        signed(neg, INF64)
    } else {
        signed(neg, round64(mag32(x) * pow2(925), 1))
    }
}

/// The nearest binary32 number.
#[verifier::opaque]
pub open spec fn narrow(a: F64) -> F32 {
    let m = if is_nan(a) {
        NAN32 as u64
    } else if abs_bits(a) == INF64 {
        INF32
    } else {
        round32(mag64(abs_bits(a)), pow2(925))
    };
    F32 {
        bits: if is_negative(a) && !is_nan(a) {
            (m + SIGN32) as u32
        } else {
            m as u32
        },
    }
}

pub open spec fn zero() -> F64 {
    F64 { bits: 0 }
}

/// Left-to-right sum, starting from zero.
pub open spec fn fsum(s: Seq<F64>) -> F64
    decreases s.len(),
{
    if s.len() == 0 {
        zero()
    } else {
        fadd(fsum(s.drop_last()), s.last())
    }
}

fn make(neg: bool, m: u64) -> (r: F64)
    requires
        m <= INF64,
    ensures
        r == signed(neg, m),
{
    if neg {
        F64 { bits: m + SIGN64 }
    } else {
        F64 { bits: m }
    }
}

impl F64 {
    pub fn from_bits(bits: u64) -> (r: F64)
        ensures
            r.bits == bits,
    {
        F64 { bits }
    }

    pub fn to_bits(self) -> (r: u64)
        ensures
            r == self.bits,
    {
        self.bits
    }

    fn magnitude_bits(self) -> (r: u64)
        ensures
            r == abs_bits(self),
            r < SIGN64,
    {
        if self.bits >= SIGN64 {
            self.bits - SIGN64
        } else {
            self.bits
        }
    }

    fn negative(self) -> (r: bool)
        ensures
            r == is_negative(self),
    {
        self.bits >= SIGN64
    }

    pub fn nan(self) -> (r: bool)
        ensures
            r == is_nan(self),
    {
        self.magnitude_bits() > INF64
    }

    pub fn finite(self) -> (r: bool)
        ensures
            r == is_finite(self),
    {
        self.magnitude_bits() < INF64
    }

    pub fn abs(self) -> (r: F64)
        ensures
            r == fabs(self),
    {
        F64 { bits: self.magnitude_bits() }
    }

    pub fn neg(self) -> (r: F64)
        ensures
            r == fneg(self),
    {
        if self.negative() {
            F64 { bits: self.bits - SIGN64 }
        } else {
            F64 { bits: self.bits + SIGN64 }
        }
    }

    pub fn lt(self, other: F64) -> (r: bool)
        ensures
            r == flt(self, other),
    {
        if self.nan() || other.nan() {
            return false;
        }
        let x: u64 = self.magnitude_bits();
        let y: u64 = other.magnitude_bits();
        if self.negative() {
            if other.negative() {
                x > y
            } else {
                x != 0 || y != 0
            }
        } else {
            !other.negative() && x < y
        }
    }

    pub fn le(self, other: F64) -> (r: bool)
        ensures
            r == fle(self, other),
    {
        !self.nan() && !other.nan() && !other.lt(self)
    }

    /// Equality of values.
    pub fn same(self, other: F64) -> (r: bool)
        ensures
            r == feq(self, other),
    {
        self.le(other) && other.le(self)
    }

    pub fn plus(self, other: F64) -> (r: F64)
        ensures
            r == fadd(self, other),
    {
        proof {
            reveal(fadd);
        }
        let x: u64 = self.magnitude_bits();
        let y: u64 = other.magnitude_bits();
        if x > INF64 || y > INF64 {
            return F64 { bits: NAN64 };
        }
        if x == INF64 {
            if y == INF64 && self.negative() != other.negative() {
                return F64 { bits: NAN64 };
            }
            return self;
        }
        if y == INF64 {
            return other;
        }
        if self.negative() == other.negative() {
            if x >= y {
                make(self.negative(), sum_magnitudes(x, y))
            } else {
                make(self.negative(), sum_magnitudes(y, x))
            }
        } else if x == y {
            F64 { bits: 0 }
        } else if x > y {
            make(self.negative(), difference_magnitudes(x, y))
        } else {
            make(other.negative(), difference_magnitudes(y, x))
        }
    }

    pub fn minus(self, other: F64) -> (r: F64)
        ensures
            r == fsub(self, other),
    {
        self.plus(other.neg())
    }

    pub fn times(self, other: F64) -> (r: F64)
        ensures
            r == fmul(self, other),
    {
        proof {
            reveal(fmul);
        }
        let x: u64 = self.magnitude_bits();
        let y: u64 = other.magnitude_bits();
        let neg: bool = self.negative() != other.negative();
        if x > INF64 || y > INF64 {
            return F64 { bits: NAN64 };
        }
        if x == INF64 || y == INF64 {
            if x == 0 || y == 0 {
                return F64 { bits: NAN64 };
            }
            return make(neg, INF64);
        }
        make(neg, product_magnitudes(x, y))
    }

    pub fn over(self, other: F64) -> (r: F64)
        ensures
            r == fdiv(self, other),
    {
        proof {
            reveal(fdiv);
        }
        let x: u64 = self.magnitude_bits();
        let y: u64 = other.magnitude_bits();
        let neg: bool = self.negative() != other.negative();
        if x > INF64 || y > INF64 || (x == INF64 && y == INF64) || (x == 0 && y == 0) {
            return F64 { bits: NAN64 };
        }
        if x == INF64 || y == 0 {
            return make(neg, INF64);
        }
        if y == INF64 {
            return make(neg, 0);
        }
        make(neg, quotient_magnitudes(x, y))
    }

    pub fn of_u64(v: u64) -> (r: F64)
        ensures
            r == from_int(v as int),
    {
        proof {
            reveal(from_int);
        }
        make(false, clamp64(place_integer(v as u128, 1074, HALF64)))
    }

    pub fn of_usize(v: usize) -> (r: F64)
        ensures
            r == from_int(v as int),
    {
        F64::of_u64(v as u64)
    }

    pub fn of_u32(v: u32) -> (r: F64)
        ensures
            r == from_int(v as int),
    {
        F64::of_u64(v as u64)
    }

    pub fn of_i64(v: i64) -> (r: F64)
        ensures
            r == from_int(v as int),
    {
        proof {
            reveal(from_int);
        }
        if v < 0 {
            let m: u128 = (-(v as i128)) as u128;
            make(true, clamp64(place_integer(m, 1074, HALF64)))
        } else {
            F64::of_u64(v as u64)
        }
    }

    pub fn min(self, other: F64) -> (r: F64)
        ensures
            r == fmin(self, other),
    {
        if self.nan() || other.lt(self) {
            other
        } else {
            self
        }
    }

    pub fn max(self, other: F64) -> (r: F64)
        ensures
            r == fmax(self, other),
    {
        if self.nan() || self.lt(other) {
            other
        } else {
            self
        }
    }
}

/// A magnitude with exponent `k` over `2^1074`, in lowest terms.
proof fn lemma_scale_parts(f: nat, k: nat)
    ensures
        k >= 1074 ==> f * pow2(k) == (f * pow2((k - 1074) as nat)) * pow2(1074),
        k < 1074 ==> {
            &&& pow2(1074) == pow2(k) * pow2((1074 - k) as nat)
            &&& f * pow2(k) == pow2(k) * f
        },
{
    if k >= 1074 {
        let u = (k - 1074) as nat;
        lemma_pow2_adds(u, 1074);
        assert(f * pow2(k) == (f * pow2(u)) * pow2(1074)) by (nonlinear_arith)
            requires
                pow2(k) == pow2(u) * pow2(1074),
        ;
    } else {
        lemma_pow2_adds(k, (1074 - k) as nat);
        assert(f * pow2(k) == pow2(k) * f) by (nonlinear_arith);
    }
}

proof fn lemma_exact_multiple(c: nat, p: nat)
    requires
        p > 0,
    ensures
        (c * p) / p == c,
        (2 * (c * p) + p) / (2 * p) == c,
        ((c * p + p - 1) as nat) / p == c,
{
    lemma_fundamental_div_mod_converse((c * p) as int, p as int, c as int, 0);
    assert(2 * (c * p) + p == c * (2 * p) + p) by (nonlinear_arith);
    lemma_fundamental_div_mod_converse((2 * (c * p) + p) as int, (2 * p) as int, c as int, p as int);
    lemma_fundamental_div_mod_converse((c * p + p - 1) as int, p as int, c as int, p - 1);
}

impl F64 {
    /// Nearest integer, ties away from zero.
    pub fn round(self) -> (r: F64)
        ensures
            r == fround(self),
    {
        proof {
            reveal(fround);
        }
        let x: u64 = self.magnitude_bits();
        if x >= INF64 {
            return self;
        }
        let (f, k) = split(x, HALF64);
        let ghost p: nat = pow2(1074);
        proof {
            lemma_pow2_pos(1074);
            lemma_pow2_unfold(1075);
            lemma_scale_parts(f as nat, k as nat);
        }
        if k >= 1074 {
            proof {
                lemma_exact_multiple(f as nat * pow2((k - 1074) as nat), p);
                lemma_round_trip(x as nat, HALF64 as nat);
            }
            return self;
        }
        let j: u64 = 1074 - k;
        proof {
            let w = pow2(k as nat);
            let g = pow2(j as nat);
            lemma_pow2_pos(k as nat);
            lemma_pow2_pos(j as nat);
            assert(2 * (w * f) + p == w * (2 * f + g)) by (nonlinear_arith)
                requires
                    p == w * g,
            ;
            assert(2 * p == w * (2 * g)) by (nonlinear_arith)
                requires
                    p == w * g,
            ;
            lemma_div_multiples_vanish_quotient(w as int, (2 * f + g) as int, (2 * g) as int);
        }
        if j >= 54 {
            proof {
                let g = pow2(j as nat);
                lemma2_to64_rest();
                if j > 54 {
                    lemma_pow2_strictly_increases(54, j as nat);
                }
                lemma_fundamental_div_mod_converse(
                    (2 * f + g) as int,
                    (2 * g) as int,
                    0,
                    (2 * f + g) as int,
                );
                assert(0 * pow2(1074) == 0) by (nonlinear_arith);
                lemma_small_div_quotient(0, 1);
            }
            return make(self.negative(), 0);
        }
        let g: u128 = power(j);
        let c: u128 = ((f as u128) * 2 + g) / (g * 2);
        proof {
            lemma_div_is_ordered_by_denominator((2 * f + g) as int, 1, (2 * g) as int);
        }
        make(self.negative(), clamp64(place_integer(c, 1074, HALF64)))
    }

    /// Least integer not below the number.
    pub fn ceil(self) -> (r: F64)
        ensures
            r == fceil(self),
    {
        proof {
            reveal(fceil);
        }
        let x: u64 = self.magnitude_bits();
        if x >= INF64 {
            return self;
        }
        let (f, k) = split(x, HALF64);
        let ghost p: nat = pow2(1074);
        proof {
            lemma_pow2_pos(1074);
            lemma_scale_parts(f as nat, k as nat);
        }
        if k >= 1074 {
            proof {
                lemma_exact_multiple(f as nat * pow2((k - 1074) as nat), p);
                lemma_round_trip(x as nat, HALF64 as nat);
            }
            return self;
        }
        let j: u64 = 1074 - k;
        let ghost w = pow2(k as nat);
        let ghost g = pow2(j as nat);
        proof {
            lemma_pow2_pos(k as nat);
            lemma_pow2_pos(j as nat);
            lemma_div_multiples_vanish_quotient(w as int, f as int, g as int);
            lemma_ceil_scale(f as nat, w, g);
        }
        if j >= 54 {
            proof {
                lemma2_to64_rest();
                if j > 54 {
                    lemma_pow2_strictly_increases(54, j as nat);
                }
                lemma_fundamental_div_mod_converse(f as int, g as int, 0, f as int);
                if f > 0 {
                    lemma_fundamental_div_mod_converse((f + g - 1) as int, g as int, 1, f - 1);
                } else {
                    lemma_fundamental_div_mod_converse((f + g - 1) as int, g as int, 0, g - 1);
                }
                assert(0 * pow2(1074) == 0) by (nonlinear_arith);
                lemma_small_div_quotient(0, 1);
            }
            if self.negative() || f == 0 {
                return make(self.negative(), 0);
            }
            return make(false, clamp64(place_integer(1, 1074, HALF64)));
        }
        let h: u128 = power(j);
        let c: u128 = if self.negative() {
            (f as u128) / h
        } else {
            ((f as u128) + h - 1) / h
        };
        proof {
            lemma_div_is_ordered_by_denominator(f as int, 1, h as int);
            lemma_div_is_ordered_by_denominator((f + h - 1) as int, 1, h as int);
        }
        make(self.negative(), clamp64(place_integer(c, 1074, HALF64)))
    }

    /// The integer part of a finite magnitude, held at `2^117`.
    fn whole(self) -> (r: u128)
        requires
            is_finite(self),
        ensures
            r == whole_part(self) || (r == 0x20_0000_0000_0000_0000_0000_0000_0000 && whole_part(
                self,
            ) >= 0x20_0000_0000_0000_0000_0000_0000_0000),
    {
        proof {
            reveal(whole_part);
        }
        let x: u64 = self.magnitude_bits();
        let (f, k) = split(x, HALF64);
        proof {
            lemma_pow2_pos(1074);
            lemma_scale_parts(f as nat, k as nat);
        }
        if k >= 1074 {
            let u: u64 = k - 1074;
            proof {
                lemma_exact_multiple(f as nat * pow2(u as nat), pow2(1074));
                lemma2_to64_rest();
            }
            if u >= 65 {
                proof {
                    lemma_pow2_unfold(65);
                    if u > 65 {
                        lemma_pow2_strictly_increases(65, u as nat);
                    }
                    assert(f * pow2(u as nat) >= 0x10_0000_0000_0000
                        * 0x2_0000_0000_0000_0000int) by (nonlinear_arith)
                        requires
                            f >= 0x10_0000_0000_0000,
                            pow2(u as nat) >= 0x2_0000_0000_0000_0000,
                    ;
                }
                return 0x20_0000_0000_0000_0000_0000_0000_0000;
            }
            let w: u128 = power(u);
            proof {
                if u < 64 {
                    lemma_pow2_strictly_increases(u as nat, 64);
                }
                assert(f * w <= 0x20_0000_0000_0000 * 0x1_0000_0000_0000_0000int)
                    by (nonlinear_arith)
                    requires
                        f < 0x20_0000_0000_0000,
                        w <= 0x1_0000_0000_0000_0000,
                ;
            }
            return (f as u128) * w;
        }
        let j: u64 = 1074 - k;
        proof {
            lemma_pow2_pos(k as nat);
            lemma_pow2_pos(j as nat);
            lemma_div_multiples_vanish_quotient(
                pow2(k as nat) as int,
                f as int,
                pow2(j as nat) as int,
            );
        }
        if j >= 54 {
            proof {
                lemma2_to64_rest();
                if j > 54 {
                    lemma_pow2_strictly_increases(54, j as nat);
                }
                lemma_fundamental_div_mod_converse(f as int, pow2(j as nat) as int, 0, f as int);
            }
            return 0;
        }
        let g: u128 = power(j);
        (f as u128) / g
    }

    pub fn to_i64(self) -> (r: i64)
        ensures
            r == to_int(self, i64::MIN as int, i64::MAX as int),
    {
        if self.nan() {
            return 0;
        }
        if !self.finite() {
            return if self.negative() {
                i64::MIN
            } else {
                i64::MAX
            };
        }
        let w: u128 = self.whole();
        if self.negative() {
            if w > 0x8000_0000_0000_0000 {
                i64::MIN
            } else {
                (-(w as i128)) as i64
            }
        } else if w > 0x7FFF_FFFF_FFFF_FFFF {
            i64::MAX
        } else {
            w as i64
        }
    }

    pub fn to_u64(self) -> (r: u64)
        ensures
            r == to_int(self, 0, u64::MAX as int),
    {
        if self.nan() {
            return 0;
        }
        if !self.finite() {
            return if self.negative() {
                0
            } else {
                u64::MAX
            };
        }
        let w: u128 = self.whole();
        if self.negative() {
            0
        } else if w > u64::MAX as u128 {
            u64::MAX
        } else {
            w as u64
        }
    }

    pub fn to_usize(self) -> (r: usize)
        ensures
            r == to_int(self, 0, usize::MAX as int),
    {
        let v: u64 = self.to_u64();
        if v > usize::MAX as u64 {
            usize::MAX
        } else {
            v as usize
        }
    }

    pub fn to_u32(self) -> (r: u32)
        ensures
            r == to_int(self, 0, u32::MAX as int),
    {
        let v: u64 = self.to_u64();
        if v > u32::MAX as u64 {
            u32::MAX
        } else {
            v as u32
        }
    }

    /// The nearest binary32 number.
    pub fn to_f32(self) -> (r: F32)
        ensures
            r == narrow(self),
    {
        proof {
            reveal(narrow);
        }
        let x: u64 = self.magnitude_bits();
        if x > INF64 {
            return F32 { bits: NAN32 };
        }
        let m: u64 = if x == INF64 {
            INF32
        } else {
            let (f, k) = split(x, HALF64);
            let place: u64 = if k >= 925 {
                proof {
                    let u = (k - 925) as nat;
                    lemma_pow2_adds(u, 925);
                    lemma_pow2_pos(925);
                    lemma_place_scale(f as nat * pow2(u), 1, pow2(925), HALF32 as nat);
                    assert(pow2(925) * (f * pow2(u)) == f * pow2(k as nat)) by (nonlinear_arith)
                        requires
                            pow2(k as nat) == pow2(u) * pow2(925),
                    ;
                    assert(pow2(925) * 1 == pow2(925)) by (nonlinear_arith);
                }
                place_integer(f as u128, k - 925, HALF32)
            } else {
                let j: u64 = 925 - k;
                proof {
                    lemma_pow2_adds(k as nat, j as nat);
                    lemma_pow2_pos(j as nat);
                    lemma_pow2_pos(k as nat);
                    lemma_place_scale(f as nat, pow2(j as nat), pow2(k as nat), HALF32 as nat);
                    assert(pow2(k as nat) * f == f * pow2(k as nat)) by (nonlinear_arith);
                    assert(1 * pow2(j as nat) == pow2(j as nat)) by (nonlinear_arith);
                    assert((2 * (f as nat)) / 1 == 2 * f && (2 * (f as nat)) % 1 == 0);
                }
                place_fraction((f as u128) * 2, false, j, HALF32, Ghost(f as nat), Ghost(1))
            };
            if place >= INF32 {
                INF32
            } else {
                place
            }
        };
        if self.negative() {
            F32 { bits: m as u32 + SIGN32 }
        } else {
            F32 { bits: m as u32 }
        }
    }
}

proof fn lemma_ceil_scale(f: nat, w: nat, g: nat)
    requires
        w > 0,
        g > 0,
    ensures
        ((w * f + w * g - 1) as nat) / (w * g) == ((f + g - 1) as nat) / g,
{
    let t = (f + g - 1) as nat;
    let q = t / g;
    let r = t % g;
    lemma_fundamental_div_mod(t as int, g as int);
    lemma_mod_bound(t as int, g as int);
    assert(w * f + w * g - 1 == q * (w * g) + ((r + 1) * w - 1)) by (nonlinear_arith)
        requires
            f + g - 1 == g * q + r,
    ;
    assert(0 <= (r + 1) * w - 1 < w * g) by (nonlinear_arith)
        requires
            0 <= r < g,
            w > 0,
    ;
    lemma_fundamental_div_mod_converse(
        w * f + w * g - 1,
        (w * g) as int,
        q as int,
        (r + 1) * w - 1,
    );
}

impl F32 {
    pub fn from_bits(bits: u32) -> (r: F32)
        ensures
            r.bits == bits,
    {
        F32 { bits }
    }

    pub fn to_bits(self) -> (r: u32)
        ensures
            r == self.bits,
    {
        self.bits
    }

    fn magnitude_bits(self) -> (r: u32)
        ensures
            r == abs_bits32(self),
            r < SIGN32,
    {
        if self.bits >= SIGN32 {
            self.bits - SIGN32
        } else {
            self.bits
        }
    }

    pub fn finite(self) -> (r: bool)
        ensures
            r == is_finite32(self),
    {
        (self.magnitude_bits() as u64) < INF32
    }

    pub fn abs(self) -> (r: F32)
        ensures
            r == fabs32(self),
    {
        F32 { bits: self.magnitude_bits() }
    }

    pub fn lt(self, other: F32) -> (r: bool)
        ensures
            r == flt32(self, other),
    {
        let x: u32 = self.magnitude_bits();
        let y: u32 = other.magnitude_bits();
        if x as u64 > INF32 || y as u64 > INF32 {
            return false;
        }
        if self.bits >= SIGN32 {
            if other.bits >= SIGN32 {
                x > y
            } else {
                x != 0 || y != 0
            }
        } else {
            other.bits < SIGN32 && x < y
        }
    }

    /// Equality of values.
    pub fn same(self, other: F32) -> (r: bool)
        ensures
            r == feq32(self, other),
    {
        let x: u32 = self.magnitude_bits();
        let y: u32 = other.magnitude_bits();
        x as u64 <= INF32 && y as u64 <= INF32 && !self.lt(other) && !other.lt(self)
    }

    /// The same value as a binary64 number.
    pub fn to_f64(self) -> (r: F64)
        ensures
            r == widen(self),
    {
        proof {
            reveal(widen);
        }
        let neg: bool = self.bits >= SIGN32;
        let x: u32 = self.magnitude_bits();
        if x as u64 > INF32 {
            return F64 { bits: NAN64 };
        }
        if x as u64 == INF32 {
            return make(neg, INF64);
        }
        let (f, k) = split(x as u64, HALF32);
        proof {
            lemma_pow2_adds(k as nat, 925);
            assert((f * pow2(k as nat)) * pow2(925) == f * pow2((k + 925) as nat)) by (nonlinear_arith)
                requires
                    pow2((k + 925) as nat) == pow2(k as nat) * pow2(925),
            ;
        }
        make(neg, clamp64(place_integer(f as u128, k + 925, HALF64)))
    }
}

} // verus!
