//! How near a rounded number is to the exact one.

use crate::binary64::{
    exponent, half_even, lemma_exact, lemma_half_even_scale, lemma_units_order, nearest, quantum,
    significand, units, HIDDEN, INFINITE, SIGNIFICANDS,
};
use vstd::arithmetic::div_mod::{lemma_fundamental_div_mod, lemma_fundamental_div_mod_converse};
use vstd::arithmetic::power2::{
    lemma2_to64, lemma_pow2_adds, lemma_pow2_pos, lemma_pow2_strictly_increases, lemma_pow2_unfold,
    pow2,
};
use vstd::prelude::*;

verus! {

pub(crate) proof fn lemma_quantum_bounds(q: nat)
    ensures
        q < SIGNIFICANDS * pow2(quantum(q)),
        quantum(q) > 0 ==> HIDDEN * pow2(quantum(q)) <= q,
    decreases q,
{
    lemma2_to64();
    if q >= SIGNIFICANDS {
        lemma_quantum_bounds(q / 2);
        let f = quantum(q / 2);
        let p = pow2(f);
        lemma_pow2_unfold(f + 1);
        assert(pow2(f + 1) == 2 * p);
        assert(q < SIGNIFICANDS * (2 * p)) by (nonlinear_arith)
            requires
                q / 2 < SIGNIFICANDS * p,
        ;
        if f > 0 {
            assert(HIDDEN * (2 * p) <= q) by (nonlinear_arith)
                requires
                    HIDDEN * p <= q / 2,
            ;
        }
    }
}

proof fn lemma_quantum_monotone(a: nat, b: nat)
    requires
        a <= b,
    ensures
        quantum(a) <= quantum(b),
    decreases b,
{
    if a >= SIGNIFICANDS {
        lemma_quantum_monotone(a / 2, b / 2);
    }
}

/// The integer part of `n / d`, cut to the quantum, is a significand.
proof fn lemma_scaled_part(n: nat, d: nat)
    requires
        d > 0,
    ensures
        ({
            let e = quantum(n / d);
            let x = d * pow2(e);
            &&& x > 0
            &&& n / x < SIGNIFICANDS
            &&& e > 0 ==> HIDDEN <= n / x
            &&& e > 0 ==> HIDDEN * x <= n
        }),
{
    let q = n / d;
    let e = quantum(q);
    let p = pow2(e);
    lemma_quantum_bounds(q);
    lemma_pow2_pos(e);
    let x = d * p;
    assert(x > 0) by (nonlinear_arith)
        requires
            d > 0,
            p > 0,
            x == d * p,
    ;
    lemma_fundamental_div_mod(n as int, d as int);
    lemma_fundamental_div_mod(n as int, x as int);
    let h = n / x;
    assert(h < SIGNIFICANDS) by (nonlinear_arith)
        requires
            n == d * q + n % d,
            n % d < d,
            q < SIGNIFICANDS * p,
            n == x * h + n % x,
            n % x >= 0,
            x == d * p,
            d > 0,
            p > 0,
    ;
    if e > 0 {
        assert(HIDDEN * x <= n) by (nonlinear_arith)
            requires
                n == d * q + n % d,
                n % d >= 0,
                HIDDEN * p <= q,
                x == d * p,
                d > 0,
        ;
        assert(HIDDEN <= h) by (nonlinear_arith)
            requires
                HIDDEN * x <= n,
                n == x * h + n % x,
                n % x < x,
                x > 0,
        ;
    }
}

/// The value of the nearest number.
pub proof fn lemma_nearest_units(n: nat, d: nat)
    requires
        d > 0,
        nearest(n, d) < INFINITE,
    ensures
        units(nearest(n, d)) == half_even(n, d * pow2(quantum(n / d))) * pow2(quantum(n / d)),
{
    let e = quantum(n / d);
    let p = pow2(e);
    let x = d * p;
    lemma_scaled_part(n, d);
    let h = half_even(n, x);
    assert(h <= SIGNIFICANDS);
    let b = nearest(n, d);
    assert(b == e * HIDDEN + h);
    let c = HIDDEN as nat;
    if h < HIDDEN {
        assert(e == 0);
        lemma2_to64();
        assert(b == h) by (nonlinear_arith)
            requires
                b == e * HIDDEN + h,
                e == 0,
        ;
        assert(h * pow2(0) == h);
    } else if h < SIGNIFICANDS {
        assert(b == c * (e + 1) + (h - HIDDEN)) by (nonlinear_arith)
            requires
                b == e * HIDDEN + h,
                c == HIDDEN,
        ;
        lemma_fundamental_div_mod_converse(b as int, c as int, e as int + 1, h - HIDDEN);
        assert(b >= HIDDEN) by (nonlinear_arith)
            requires
                b == e * HIDDEN + h,
                h >= HIDDEN,
        ;
        assert(exponent(b) == e);
        assert(significand(b) == h);
    } else {
        assert(b == c * (e + 2)) by (nonlinear_arith)
            requires
                b == e * HIDDEN + h,
                h == 2 * c,
                c == HIDDEN,
        ;
        lemma_fundamental_div_mod_converse(b as int, c as int, e as int + 2, 0);
        assert(b >= HIDDEN) by (nonlinear_arith)
            requires
                b == e * HIDDEN + h,
                h >= HIDDEN,
        ;
        assert(exponent(b) == e + 1);
        assert(significand(b) == c);
        lemma_pow2_unfold(e + 1);
        assert(c * (2 * p) == h * p) by (nonlinear_arith)
            requires
                h == 2 * c,
        ;
    }
}

/// The nearest number is at most half a quantum away, and a quantum is a small share of it.
pub(crate) proof fn lemma_error(n: nat, d: nat)
    requires
        d > 0,
        nearest(n, d) < INFINITE,
    ensures
        ({
            let u = units(nearest(n, d));
            let e = quantum(n / d);
            let x = d * pow2(e);
            &&& 2 * (u * d) <= 2 * n + x
            &&& 2 * n <= 2 * (u * d) + x
            &&& e > 0 ==> HIDDEN * x <= n
        }),
{
    let e = quantum(n / d);
    let p = pow2(e);
    let x = d * p;
    lemma_scaled_part(n, d);
    lemma_nearest_units(n, d);
    let h = half_even(n, x);
    let q = n / x;
    let r = n % x;
    lemma_fundamental_div_mod(n as int, x as int);
    assert((h * p) * d == h * x) by (nonlinear_arith)
        requires
            x == d * p,
    ;
    assert(2 * (h * x) <= 2 * n + x && 2 * n <= 2 * (h * x) + x) by {
        if h == q {
            assert(2 * r <= x);
            assert(h * x == x * q) by (nonlinear_arith)
                requires
                    h == q,
            ;
        } else {
            assert(h == q + 1);
            assert(2 * r >= x);
            assert(h * x == x * q + x) by (nonlinear_arith)
                requires
                    h == q + 1,
            ;
        }
    }
}

/// A bound of the nearest number from above.
pub proof fn lemma_upper(n: nat, d: nat)
    requires
        d > 0,
        nearest(n, d) < INFINITE,
    ensures
        2 * HIDDEN * (units(nearest(n, d)) * d) <= (2 * HIDDEN + 1) * n + HIDDEN * d,
{
    lemma_error(n, d);
    let u = units(nearest(n, d));
    let e = quantum(n / d);
    let x = d * pow2(e);
    if e == 0 {
        lemma2_to64();
        assert(x == d);
        assert(2 * HIDDEN * (u * d) <= (2 * HIDDEN + 1) * n + HIDDEN * d) by (nonlinear_arith)
            requires
                2 * (u * d) <= 2 * n + d,
        ;
    } else {
        assert(2 * HIDDEN * (u * d) <= (2 * HIDDEN + 1) * n + HIDDEN * d) by (nonlinear_arith)
            requires
                2 * (u * d) <= 2 * n + x,
                HIDDEN * x <= n,
        ;
    }
}

/// Bounds of the number nearest to an integer number of units.
pub proof fn lemma_near_integer(n: nat)
    requires
        nearest(n, 1) < INFINITE,
    ensures
        2 * HIDDEN * units(nearest(n, 1)) <= (2 * HIDDEN + 1) * n,
        (2 * HIDDEN - 1) * n <= 2 * HIDDEN * units(nearest(n, 1)),
{
    lemma_error(n, 1);
    let u = units(nearest(n, 1));
    let e = quantum(n / 1);
    let x = pow2(e);
    assert(1 * pow2(e) == x);
    assert(u * 1 == u);
    if e == 0 {
        lemma2_to64();
        lemma_nearest_units(n, 1);
        assert(half_even(n, 1) == n);
        assert(u == n);
        assert(2 * HIDDEN * u <= (2 * HIDDEN + 1) * n && (2 * HIDDEN - 1) * n <= 2 * HIDDEN * u)
            by (nonlinear_arith)
            requires
                u == n,
        ;
    } else {
        assert(2 * HIDDEN * u <= (2 * HIDDEN + 1) * n && (2 * HIDDEN - 1) * n <= 2 * HIDDEN * u)
            by (nonlinear_arith)
            requires
                2 * u <= 2 * n + x,
                2 * n <= 2 * u + x,
                HIDDEN * x <= n,
        ;
    }
}

proof fn lemma_half_even_monotone(a: nat, b: nat, x: nat)
    requires
        x > 0,
        a <= b,
    ensures
        half_even(a, x) <= half_even(b, x),
{
    lemma_fundamental_div_mod(a as int, x as int);
    lemma_fundamental_div_mod(b as int, x as int);
    let p = a / x;
    let q = b / x;
    assert(p <= q) by (nonlinear_arith)
        requires
            a == x * p + a % x,
            a % x >= 0,
            b == x * q + b % x,
            b % x < x,
            a <= b,
            x > 0,
    ;
}

/// Rounding keeps the order: a number that is not above another is not rounded above it.
pub proof fn law_rounding_keeps_order(a: nat, b: nat, n: nat, d: nat)
    requires
        b > 0,
        d > 0,
        a * d <= n * b,
    ensures
        nearest(a, b) <= nearest(n, d),
{
    let qa = a / b;
    let qn = n / d;
    lemma_fundamental_div_mod(a as int, b as int);
    lemma_fundamental_div_mod(n as int, d as int);
    assert(qa <= qn) by (nonlinear_arith)
        requires
            a == b * qa + a % b,
            a % b >= 0,
            n == d * qn + n % d,
            n % d < d,
            a * d <= n * b,
            b > 0,
            d > 0,
    ;
    lemma_quantum_monotone(qa, qn);
    let ea = quantum(qa);
    let en = quantum(qn);
    lemma_scaled_part(a, b);
    lemma_scaled_part(n, d);
    let xa = b * pow2(ea);
    let xn = d * pow2(en);
    if ea < en {
        assert(half_even(a, xa) <= SIGNIFICANDS);
        assert(half_even(n, xn) >= HIDDEN);
        assert(ea * HIDDEN + SIGNIFICANDS <= en * HIDDEN + HIDDEN) by (nonlinear_arith)
            requires
                ea + 1 <= en,
                SIGNIFICANDS == 2 * HIDDEN,
        ;
    } else {
        let p = pow2(ea);
        lemma_pow2_pos(ea);
        // over the common denominator
        lemma_half_even_scale(a, xa, d);
        lemma_half_even_scale(n, xn, b);
        assert(xa * d == xn * b) by (nonlinear_arith)
            requires
                xa == b * p,
                xn == d * p,
        ;
        assert(xa * d > 0) by (nonlinear_arith)
            requires
                xa > 0,
                d > 0,
        ;
        lemma_half_even_monotone(a * d, n * b, xa * d);
    }
}

proof fn lemma_half_even_nearest(n: nat, x: nat, k: nat)
    requires
        x > 0,
    ensures
        distance(half_even(n, x) * x, n) <= distance(k * x, n),
{
    let q = n / x;
    lemma_fundamental_div_mod(n as int, x as int);
    if k <= q {
        assert(k * x <= q * x && q * x == x * q) by (nonlinear_arith)
            requires
                k <= q,
        ;
    } else {
        assert((q + 1) * x <= k * x && (q + 1) * x == x * q + x) by (nonlinear_arith)
            requires
                q + 1 <= k,
        ;
    }
    assert((q + 1) * x == x * q + x && q * x == x * q) by (nonlinear_arith);
}

/// The distance of two natural numbers.
pub open spec fn distance(a: nat, b: nat) -> nat {
    if a >= b {
        (a - b) as nat
    } else {
        (b - a) as nat
    }
}

/// No finite number is nearer to `n / d` units than the one that it is rounded to.
pub proof fn law_rounds_to_nearest(n: nat, d: nat, bits: nat)
    requires
        d > 0,
        nearest(n, d) < INFINITE,
        bits < INFINITE,
    ensures
        distance(units(nearest(n, d)) * d, n) <= distance(units(bits) * d, n),
{
    let e = quantum(n / d);
    let p = pow2(e);
    let x = d * p;
    lemma_pow2_pos(e);
    lemma_scaled_part(n, d);
    lemma_nearest_units(n, d);
    let h = half_even(n, x);
    assert((h * p) * d == h * x) by (nonlinear_arith)
        requires
            x == d * p,
    ;
    let m = significand(bits);
    let f = exponent(bits);
    let v = units(bits);
    assert(m < SIGNIFICANDS);
    if f >= e {
        let t = pow2((f - e) as nat);
        lemma_pow2_adds((f - e) as nat, e);
        let k = m * t;
        assert(v * d == k * x) by (nonlinear_arith)
            requires
                v == m * (t * p),
                k == m * t,
                x == d * p,
        ;
        lemma_half_even_nearest(n, x, k);
    } else {
        lemma_half_even_nearest(n, x, HIDDEN as nat);
        lemma_pow2_unfold(e);
        if f < e - 1 {
            lemma_pow2_strictly_increases(f, (e - 1) as nat);
        }
        let g = pow2(f);
        assert(v * d <= HIDDEN * x) by (nonlinear_arith)
            requires
                v == m * g,
                m <= 2 * HIDDEN,
                2 * g <= p,
                x == d * p,
        ;
    }
}

/// The order of the patterns is the order of the numbers.
pub proof fn law_patterns_in_order(a: nat, b: nat)
    requires
        a < b < INFINITE,
    ensures
        units(a) < units(b),
{
    lemma_units_order(a, b);
}

/// A finite number is rounded to itself.
pub proof fn law_exact_is_kept(bits: nat)
    requires
        bits < INFINITE,
    ensures
        nearest(units(bits), 1) == bits,
{
    lemma_exact(bits);
}

} // verus!
