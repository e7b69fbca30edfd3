//! Arithmetic on the nonnegative IEEE 754 binary64 numbers, carried out on their bit patterns.
//!
//! Scores, weights and costs are binary64 numbers. Each operation here rounds the exact result to
//! the nearest representable number, ties to even, as the standard prescribes.

use vstd::arithmetic::div_mod::{lemma_fundamental_div_mod, lemma_fundamental_div_mod_converse};
use vstd::arithmetic::power2::{
    lemma2_to64, lemma2_to64_rest, lemma_pow2_adds, lemma_pow2_pos, lemma_pow2_strictly_increases,
    lemma_pow2_unfold, pow2,
};
use vstd::prelude::*;

verus! {

/// Two to the 52nd: the weight of the implicit leading bit of a significand.
pub const HIDDEN: u64 = 0x10_0000_0000_0000;

/// Two to the 53rd: the bound of all significands.
pub const SIGNIFICANDS: u64 = 0x20_0000_0000_0000;

/// The pattern of positive infinity, which is the first pattern above those of the finite numbers.
pub const INFINITE: u64 = 0x7ff0_0000_0000_0000;

/// The pattern of the quiet not-a-number that the operations return.
pub const NOT_A_NUMBER: u64 = 0x7ff8_0000_0000_0000;

/// The pattern of negative zero: the sign bit alone.
pub const SIGN: u64 = 0x8000_0000_0000_0000;

/// How many units (smallest positive numbers) make one, as a power of two.
pub const UNIT_SHIFT: u32 = 1074;

/// A binary64 number, held by its bit pattern.
#[derive(Clone, Copy, Debug, PartialEq, Eq, Structural)]
pub struct Binary64 {
    pub bits: u64,
}

/// The significand of the finite nonnegative number with the given pattern.
pub open spec fn significand(bits: nat) -> nat {
    if bits < HIDDEN {
        bits
    } else {
        HIDDEN as nat + bits % (HIDDEN as nat)
    }
}

/// The power of two that scales the significand to units.
pub open spec fn exponent(bits: nat) -> nat {
    if bits < HIDDEN {
        0
    } else {
        (bits / (HIDDEN as nat) - 1) as nat
    }
}

/// The value of the finite nonnegative number with the given pattern, counted in units.
pub open spec fn units(bits: nat) -> nat {
    significand(bits) * pow2(exponent(bits))
}

/// The number of units in one.
pub open spec fn one() -> nat {
    pow2(UNIT_SHIFT as nat)
}

/// The power of two to which a quotient with integer part `q` is rounded.
pub open spec fn quantum(q: nat) -> nat
    decreases q,
{
    if q < SIGNIFICANDS {
        0
    } else {
        1 + quantum(q / 2)
    }
}

/// The integer nearest to `n / d`; of two that are equally near, the even one.
pub open spec fn half_even(n: nat, d: nat) -> nat {
    let q = n / d;
    let r = n % d;
    if 2 * r < d {
        q
    } else if 2 * r > d {
        q + 1
    } else {
        q + q % 2
    }
}

/// The pattern of the number nearest to `n / d` units, ties to even; infinite beyond the range.
pub open spec fn nearest(n: nat, d: nat) -> nat {
    let e = quantum(n / d);
    let b = e * HIDDEN + half_even(n, d * pow2(e));
    if b >= INFINITE {
        INFINITE as nat
    } else {
        b as nat
    }
}

/// The pattern of the number nearest to `n * 2^x / d` units.
pub open spec fn nearest_scaled(n: nat, d: nat, x: int) -> nat {
    if x >= 0 {
        nearest(n * pow2(x as nat), d)
    } else {
        nearest(n, d * pow2((-x) as nat))
    }
}

proof fn lemma_quantum(q: nat, e: nat)
    requires
        q < SIGNIFICANDS * pow2(e),
        e > 0 ==> HIDDEN * pow2(e) <= q,
    ensures
        quantum(q) == e,
    decreases e,
{
    lemma2_to64();
    if e > 0 {
        lemma_pow2_unfold(e);
        let f = (e - 1) as nat;
        let p = pow2(f);
        lemma_pow2_pos(f);
        assert(pow2(e) == 2 * p);
        assert(HIDDEN * pow2(e) == SIGNIFICANDS * p) by (nonlinear_arith)
            requires
                pow2(e) == 2 * p,
        ;
        assert(SIGNIFICANDS * p >= SIGNIFICANDS) by (nonlinear_arith)
            requires
                p >= 1,
        ;
        assert(q / 2 < SIGNIFICANDS * p) by (nonlinear_arith)
            requires
                q < SIGNIFICANDS * pow2(e),
                pow2(e) == 2 * p,
        ;
        assert(HIDDEN * p <= q / 2) by (nonlinear_arith)
            requires
                HIDDEN * pow2(e) <= q,
                pow2(e) == 2 * p,
        ;
        lemma_quantum(q / 2, f);
    }
}

pub proof fn lemma_div_scale(n: nat, d: nat, c: nat)
    requires
        d > 0,
        c > 0,
    ensures
        d * c > 0,
        (n * c) / (d * c) == n / d,
        (n * c) % (d * c) == (n % d) * c,
{
    let q = n / d;
    let r = n % d;
    lemma_fundamental_div_mod(n as int, d as int);
    assert(d * c > 0) by (nonlinear_arith)
        requires
            d > 0,
            c > 0,
    ;
    assert(n * c == q * (d * c) + r * c) by (nonlinear_arith)
        requires
            n == d * q + r,
    ;
    assert(0 <= r * c < d * c) by (nonlinear_arith)
        requires
            0 <= r < d,
            c > 0,
    ;
    lemma_fundamental_div_mod_converse((n * c) as int, (d * c) as int, q as int, (r * c) as int);
}

pub proof fn lemma_half_even_scale(n: nat, d: nat, c: nat)
    requires
        d > 0,
        c > 0,
    ensures
        half_even(n * c, d * c) == half_even(n, d),
{
    lemma_div_scale(n, d, c);
    let r = n % d;
    assert(2 * (r * c) < d * c <==> 2 * r < d) by (nonlinear_arith)
        requires
            c > 0,
    ;
    assert(2 * (r * c) > d * c <==> 2 * r > d) by (nonlinear_arith)
        requires
            c > 0,
    ;
}

pub(crate) proof fn lemma_nearest_scale(n: nat, d: nat, c: nat)
    requires
        d > 0,
        c > 0,
    ensures
        nearest(n * c, d * c) == nearest(n, d),
{
    lemma_div_scale(n, d, c);
    let e = quantum(n / d);
    let p = pow2(e);
    lemma_pow2_pos(e);
    assert(d * p > 0) by (nonlinear_arith)
        requires
            d > 0,
            p > 0,
    ;
    lemma_half_even_scale(n, d * p, c);
    assert((d * c) * p == (d * p) * c) by (nonlinear_arith);
}

proof fn lemma_double_numerator(n: nat, d: nat, x: int)
    requires
        d > 0,
    ensures
        nearest_scaled(2 * n, d, x - 1) == nearest_scaled(n, d, x),
{
    if x >= 1 {
        lemma_pow2_unfold(x as nat);
        let p = pow2((x - 1) as nat);
        assert((2 * n) * p == n * (2 * p)) by (nonlinear_arith);
    } else {
        let p = pow2((-x) as nat);
        lemma_pow2_pos((-x) as nat);
        lemma_pow2_unfold((1 - x) as nat);
        assert(d * p > 0) by (nonlinear_arith)
            requires
                d > 0,
                p > 0,
        ;
        lemma_nearest_scale(n, d * p, 2);
        assert((d * p) * 2 == d * (2 * p)) by (nonlinear_arith);
        assert(-(x - 1) == 1 - x);
        if x == 0 {
            lemma2_to64();
            assert(n * pow2(0) == n);
            assert(d * pow2(0) == d);
        }
    }
}

proof fn lemma_double_denominator(n: nat, d: nat, x: int)
    requires
        d > 0,
    ensures
        nearest_scaled(n, 2 * d, x + 1) == nearest_scaled(n, d, x),
{
    if x >= 0 {
        let p = pow2(x as nat);
        lemma_pow2_unfold((x + 1) as nat);
        lemma_nearest_scale(n * p, d, 2);
        assert((n * p) * 2 == n * (2 * p)) by (nonlinear_arith);
    } else {
        let p = pow2((-x - 1) as nat);
        lemma_pow2_unfold((-x) as nat);
        assert((2 * d) * p == d * (2 * p)) by (nonlinear_arith);
        if x == -1 {
            lemma2_to64();
            assert(p == 1);
            assert(n * pow2(0) == n);
            assert((2 * d) * 1 == 2 * d);
        }
    }
}

/// The integer nearest to `n / d`, ties to even.
pub(crate) fn rounded_quotient(n: u128, d: u128) -> (r: u128)
    requires
        0 < d <= 0x100_0000_0000_0000_0000_0000_0000_0000,
    ensures
        r == half_even(n as nat, d as nat),
{
    let q: u128 = n / d;
    let r: u128 = n % d;
    assert(q <= n) by (nonlinear_arith)
        requires
            q == n / d,
            d > 0,
    ;
    assert(q == n ==> d == 1 || n == 0) by (nonlinear_arith)
        requires
            q == n / d,
            d > 0,
    ;
    assert(r < d);
    if 2 * r < d {
        q
    } else if 2 * r > d {
        q + 1
    } else {
        q + q % 2
    }
}

proof fn lemma_nearest_normal(n: nat, d: nat, y: nat)
    requires
        d > 0,
        HIDDEN <= n / d < SIGNIFICANDS,
    ensures
        nearest_scaled(n, d, y as int) == if y * HIDDEN + half_even(n, d) >= INFINITE {
            INFINITE as nat
        } else {
            (y * HIDDEN + half_even(n, d)) as nat
        },
{
    let p = pow2(y);
    lemma_pow2_pos(y);
    let q = n / d;
    lemma_fundamental_div_mod(n as int, d as int);
    // the integer part of n * p / d lies between q * p and (q + 1) * p
    let big = (n * p) / d;
    lemma_fundamental_div_mod((n * p) as int, d as int);
    assert(q * p <= big) by (nonlinear_arith)
        requires
            n == d * q + n % d,
            n % d >= 0,
            n * p == d * big + (n * p) % d,
            (n * p) % d < d,
            d > 0,
            p > 0,
    ;
    assert(big < (q + 1) * p) by (nonlinear_arith)
        requires
            n == d * q + n % d,
            n % d < d,
            n * p == d * big + (n * p) % d,
            (n * p) % d >= 0,
            d > 0,
            p > 0,
    ;
    assert(HIDDEN * p <= q * p) by (nonlinear_arith)
        requires
            HIDDEN <= q,
            p > 0,
    ;
    assert((q + 1) * p <= SIGNIFICANDS * p) by (nonlinear_arith)
        requires
            q + 1 <= SIGNIFICANDS,
            p > 0,
    ;
    lemma_quantum(big as nat, y);
    lemma_half_even_scale(n, d, p);
}

proof fn lemma_nearest_small(n: nat, d: nat)
    requires
        d > 0,
        n / d < SIGNIFICANDS,
    ensures
        nearest(n, d) == half_even(n, d),
        nearest(n, d) <= SIGNIFICANDS,
{
    lemma2_to64();
    lemma_quantum(n / d, 0);
    assert(d * pow2(0) == d);
}

/// The pattern of the number nearest to `n * 2^x / d` units.
fn round_ratio(n: u128, d: u128, x: i32) -> (bits: u64)
    requires
        n < 0x40_0000_0000_0000_0000_0000_0000_0000,
        0 < d < 0x1_0000_0000_0000_0000,
        -10000 <= x <= 10000,
    ensures
        bits == nearest_scaled(n as nat, d as nat, x as int),
        bits <= INFINITE,
{
    if n == 0 {
        proof {
            let k = if x >= 0 { 0nat } else { (-x) as nat };
            lemma_pow2_pos(k);
            lemma2_to64();
            let den = d as nat * pow2(k);
            assert(den > 0) by (nonlinear_arith)
                requires
                    den == d as nat * pow2(k),
                    d > 0,
                    pow2(k) > 0,
            ;
            assert(d as nat * pow2(0) == d as nat);
            assert(forall|k: nat| 0 * #[trigger] pow2(k) == 0);
            assert(0nat / den == 0 && 0nat % den == 0) by (nonlinear_arith)
                requires
                    den > 0,
            ;
            lemma_nearest_small(0, den);
        }
        return 0;
    }
    let mut num: u128 = n;
    let mut den: u128 = d;
    let mut y: i32 = x;
    proof {
        lemma2_to64();
    }
    while num / den < HIDDEN as u128
        invariant
            0 < num < 0x40_0000_0000_0000_0000_0000_0000_0000,
            den == d,
            0 < d < 0x1_0000_0000_0000_0000,
            nearest_scaled(num as nat, den as nat, y as int) == nearest_scaled(
                n as nat,
                d as nat,
                x as int,
            ),
            -10000 <= x <= 10000,
            x - 120 <= y <= x,
            num >= pow2((x - y) as nat),
        decreases 2 * (HIDDEN * den) - num,
    {
        proof {
            lemma_double_numerator(num as nat, den as nat, y as int);
            lemma_fundamental_div_mod(num as int, den as int);
            assert(num < HIDDEN * den) by (nonlinear_arith)
                requires
                    num as int / (den as int) < HIDDEN,
                    num as int == den * (num as int / (den as int)) + num as int % (den as int),
                    num as int % (den as int) < den,
                    den > 0,
            ;
            assert(HIDDEN * den < 0x10_0000_0000_0000_0000_0000_0000_0000);
            lemma2_to64();
            lemma2_to64_rest();
            lemma_pow2_adds(64, 56);
            assert(pow2(120) == 0x1_0000_0000_0000_0000 * 0x100_0000_0000_0000);
            lemma_pow2_unfold((x - y + 1) as nat);
        }
        num = num * 2;
        y = y - 1;
    }
    let ghost y0 = y;
    proof {
        lemma2_to64();
    }
    while num / den >= SIGNIFICANDS as u128
        invariant
            0 < num < 0x40_0000_0000_0000_0000_0000_0000_0000,
            0 < den < 0x4_0000_0000_0000_0000,
            num as int / (den as int) >= HIDDEN,
            nearest_scaled(num as nat, den as nat, y as int) == nearest_scaled(
                n as nat,
                d as nat,
                x as int,
            ),
            -10120 <= y0 <= 10000,
            y0 <= y <= y0 + 66,
            den >= pow2((y - y0) as nat),
        decreases num - den,
    {
        proof {
            lemma_double_denominator(num as nat, den as nat, y as int);
            lemma_fundamental_div_mod(num as int, den as int);
            assert(num >= SIGNIFICANDS * den) by (nonlinear_arith)
                requires
                    num as int / (den as int) >= SIGNIFICANDS,
                    num as int == den * (num as int / (den as int)) + num as int % (den as int),
                    num as int % (den as int) >= 0,
                    den > 0,
            ;
            lemma_fundamental_div_mod(num as int, (2 * den) as int);
            assert(num as int / (2 * den) >= HIDDEN) by (nonlinear_arith)
                requires
                    num >= SIGNIFICANDS * den,
                    num as int == (2 * den) * (num as int / (2 * den)) + num as int % (2 * den),
                    num as int % (2 * den) < 2 * den,
                    den > 0,
            ;
            lemma2_to64();
            lemma_pow2_adds(64, 2);
            assert(pow2(66) == 0x1_0000_0000_0000_0000 * 4);
            lemma_pow2_unfold((y - y0 + 1) as nat);
        }
        den = den * 2;
        y = y + 1;
    }
    if y >= 0 {
        proof {
            lemma_nearest_normal(num as nat, den as nat, y as nat);
        }
        let m: u128 = rounded_quotient(num, den);
        assert(m <= SIGNIFICANDS);
        let b: u128 = (y as u128) * (HIDDEN as u128) + m;
        if b >= INFINITE as u128 {
            INFINITE
        } else {
            b as u64
        }
    } else if y <= -55 {
        proof {
            let t = (-y) as nat;
            let p = pow2(t);
            lemma2_to64_rest();
            if t > 55 {
                lemma_pow2_strictly_increases(55, t);
            }
            lemma_fundamental_div_mod(num as int, den as int);
            let big = den as nat * p;
            assert(num < SIGNIFICANDS * den) by (nonlinear_arith)
                requires
                    num as int / (den as int) < SIGNIFICANDS,
                    num as int == den * (num as int / (den as int)) + num as int % (den as int),
                    num as int % (den as int) < den,
                    den > 0,
            ;
            assert(4 * num < big) by (nonlinear_arith)
                requires
                    num < SIGNIFICANDS * den,
                    big == den as nat * p,
                    p >= 4 * SIGNIFICANDS,
            ;
            lemma_fundamental_div_mod_converse(num as int, big as int, 0, num as int);
            lemma_nearest_small(num as nat, big);
        }
        0
    } else {
        let t: u32 = (-y) as u32;
        proof {
            lemma_shift_left(den, t);
            let p = pow2(t as nat);
            let big = den as nat * p;
            lemma_pow2_pos(t as nat);
            lemma_fundamental_div_mod(num as int, den as int);
            lemma_fundamental_div_mod(num as int, big as int);
            assert(big >= den) by (nonlinear_arith)
                requires
                    big == den as nat * p,
                    p >= 1,
            ;
            assert(num as int / (big as int) < SIGNIFICANDS) by (nonlinear_arith)
                requires
                    num as int / (den as int) < SIGNIFICANDS,
                    num as int == den * (num as int / (den as int)) + num as int % (den as int),
                    num as int % (den as int) < den,
                    num as int == big * (num as int / (big as int)) + num as int % (big as int),
                    num as int % (big as int) >= 0,
                    big >= den,
                    den > 0,
            ;
            lemma_nearest_small(num as nat, big);
        }
        let m: u128 = rounded_quotient(num, den << t);
        m as u64
    }
}

proof fn lemma_shift_left(den: u128, t: u32)
    requires
        0 < den < 0x4_0000_0000_0000_0000,
        t < 55,
    ensures
        den << t == den as nat * pow2(t as nat),
        0 < den << t <= 0x100_0000_0000_0000_0000_0000_0000_0000,
    decreases t,
{
    lemma2_to64();
    if t == 0 {
        assert(den << 0u32 == den) by (bit_vector);
    } else {
        let s = (t - 1) as u32;
        lemma_shift_left(den, s);
        lemma_pow2_unfold(t as nat);
        assert(den << t == 2 * (den << s)) by (bit_vector)
            requires
                t < 55,
                t > 0,
                s == t - 1,
                den < 0x4_0000_0000_0000_0000,
        ;
        assert(den as nat * pow2(t as nat) == 2 * (den as nat * pow2(s as nat)))
            by (nonlinear_arith)
            requires
                pow2(t as nat) == 2 * pow2(s as nat),
        ;
        assert(den << t <= 0x100_0000_0000_0000_0000_0000_0000_0000) by (bit_vector)
            requires
                t < 55,
                den < 0x4_0000_0000_0000_0000,
        ;
    }
}

proof fn lemma_parts(bits: nat)
    requires
        bits < INFINITE,
    ensures
        significand(bits) < SIGNIFICANDS,
        exponent(bits) <= 2045,
        exponent(bits) > 0 ==> significand(bits) >= HIDDEN,
        bits == exponent(bits) * HIDDEN + significand(bits),
{
}

proof fn lemma_plus_far(ma: nat, ea: nat, b: nat)
    requires
        HIDDEN <= ma < SIGNIFICANDS,
        ea > 0,
        2 * b < pow2(ea),
        ea * HIDDEN + ma < INFINITE,
    ensures
        nearest(ma * pow2(ea) + b, 1) == ea * HIDDEN + ma,
{
    let p = pow2(ea);
    let n = ma * p + b;
    assert(HIDDEN * p <= n < SIGNIFICANDS * p) by (nonlinear_arith)
        requires
            HIDDEN <= ma,
            ma + 1 <= SIGNIFICANDS,
            n == ma * p + b,
            b < p,
            b >= 0,
            p > 0,
    ;
    assert(n / 1 == n);
    lemma_quantum(n, ea);
    assert(1 * p == p);
    lemma_fundamental_div_mod_converse(n as int, p as int, ma as int, b as int);
}

proof fn lemma_minus_far(ma: nat, ea: nat, b: nat)
    requires
        HIDDEN <= ma < SIGNIFICANDS,
        ea > 1,
        4 * b < pow2(ea),
        ea * HIDDEN + ma < INFINITE,
    ensures
        ma * pow2(ea) >= b,
        nearest((ma * pow2(ea) - b) as nat, 1) == ea * HIDDEN + ma,
{
    let p = pow2(ea);
    lemma_pow2_pos(ea);
    assert(ma * p >= p) by (nonlinear_arith)
        requires
            ma >= 1,
            p > 0,
    ;
    let n = (ma * p - b) as nat;
    assert(n / 1 == n);
    if b == 0 {
        lemma_plus_far(ma, ea, 0);
    } else if ma > HIDDEN {
        assert(HIDDEN * p <= n < SIGNIFICANDS * p) by (nonlinear_arith)
            requires
                HIDDEN + 1 <= ma < SIGNIFICANDS,
                n == ma * p - b,
                0 < b < p,
        ;
        lemma_quantum(n, ea);
        assert(1 * p == p);
        assert(n == (ma - 1) * p + (p - b)) by (nonlinear_arith)
            requires
                n == ma * p - b,
        ;
        lemma_fundamental_div_mod_converse(n as int, p as int, ma - 1, p - b);
    } else {
        let f = (ea - 1) as nat;
        let h = pow2(f);
        lemma_pow2_unfold(ea);
        lemma_pow2_pos(f);
        assert(p == 2 * h);
        assert(HIDDEN * h <= n < SIGNIFICANDS * h) by (nonlinear_arith)
            requires
                n == HIDDEN * p - b,
                p == 2 * h,
                0 < b < h,
        ;
        lemma_quantum(n, f);
        assert(1 * h == h);
        assert(n == (SIGNIFICANDS - 1) * h + (h - b)) by (nonlinear_arith)
            requires
                n == HIDDEN * p - b,
                p == 2 * h,
        ;
        lemma_fundamental_div_mod_converse(n as int, h as int, SIGNIFICANDS - 1, h - b);
    }
}

/// `a * 2^(eb + d) + b * 2^eb`, seen as one integer times `2^eb`.
proof fn lemma_align(a: nat, b: nat, eb: nat, d: nat)
    ensures
        a * pow2(eb + d) + b * pow2(eb) == (a * pow2(d) + b) * pow2(eb),
        a * pow2(eb + d) - b * pow2(eb) == (a * pow2(d) - b) * pow2(eb),
{
    lemma_pow2_adds(eb, d);
    let p = pow2(eb);
    let q = pow2(d);
    assert(a * (p * q) + b * p == (a * q + b) * p) by (nonlinear_arith);
    assert(a * (p * q) - b * p == (a * q - b) * p) by (nonlinear_arith);
}

/// A number far below another is far below a quarter of the other's last significand bit.
proof fn lemma_far(mb: nat, eb: nat, ea: nat)
    requires
        mb < SIGNIFICANDS,
        eb + 60 < ea,
    ensures
        4 * (mb * pow2(eb)) < pow2(ea),
{
    let d = (ea - eb) as nat;
    lemma2_to64_rest();
    lemma_pow2_strictly_increases(60, d);
    lemma_pow2_adds(eb, d);
    lemma_pow2_pos(eb);
    let p = pow2(eb);
    let q = pow2(d);
    assert(4 * (mb * p) < p * q) by (nonlinear_arith)
        requires
            mb < SIGNIFICANDS,
            q >= 4 * SIGNIFICANDS,
            p > 0,
    ;
}

proof fn lemma_shift_significand(m: u128, t: u32)
    requires
        m < SIGNIFICANDS,
        t <= 60,
    ensures
        m << t == m as nat * pow2(t as nat),
        m << t <= 0x2_0000_0000_0000_0000_0000_0000_0000,
    decreases t,
{
    lemma2_to64();
    if t == 0 {
        assert(m << 0u32 == m) by (bit_vector);
    } else {
        let s = (t - 1) as u32;
        lemma_shift_significand(m, s);
        lemma_pow2_unfold(t as nat);
        assert(m << t == 2 * (m << s)) by (bit_vector)
            requires
                t <= 60,
                t > 0,
                s == t - 1,
                m < 0x20_0000_0000_0000,
        ;
        assert(m as nat * pow2(t as nat) == 2 * (m as nat * pow2(s as nat))) by (nonlinear_arith)
            requires
                pow2(t as nat) == 2 * pow2(s as nat),
        ;
        assert(m << t <= 0x2_0000_0000_0000_0000_0000_0000_0000) by (bit_vector)
            requires
                t <= 60,
                m < 0x20_0000_0000_0000,
        ;
    }
}

/// The sum, rounded.
pub open spec fn sum(a: Binary64, b: Binary64) -> Binary64 {
    if a.bits > INFINITE || b.bits > INFINITE {
        Binary64 { bits: NOT_A_NUMBER }
    } else if a.bits == INFINITE || b.bits == INFINITE {
        Binary64 { bits: INFINITE }
    } else {
        Binary64 { bits: nearest(units(a.bits as nat) + units(b.bits as nat), 1) as u64 }
    }
}

/// The difference of a number and one that is not above it, rounded.
pub open spec fn difference(a: Binary64, b: Binary64) -> Binary64 {
    if a.bits > INFINITE || b.bits > INFINITE || b.bits == INFINITE {
        Binary64 { bits: NOT_A_NUMBER }
    } else if a.bits == INFINITE {
        Binary64 { bits: INFINITE }
    } else {
        Binary64 { bits: nearest((units(a.bits as nat) - units(b.bits as nat)) as nat, 1) as u64 }
    }
}

/// The product, rounded.
pub open spec fn product(a: Binary64, b: Binary64) -> Binary64 {
    if a.bits > INFINITE || b.bits > INFINITE {
        Binary64 { bits: NOT_A_NUMBER }
    } else if a.bits == INFINITE || b.bits == INFINITE {
        Binary64 { bits: if a.bits == 0 || b.bits == 0 { NOT_A_NUMBER } else { INFINITE } }
    } else {
        Binary64 { bits: nearest(units(a.bits as nat) * units(b.bits as nat), one()) as u64 }
    }
}

/// The quotient, rounded.
pub open spec fn quotient(a: Binary64, b: Binary64) -> Binary64 {
    if a.bits > INFINITE || b.bits > INFINITE {
        Binary64 { bits: NOT_A_NUMBER }
    } else if a.bits == INFINITE {
        Binary64 { bits: if b.bits == INFINITE { NOT_A_NUMBER } else { INFINITE } }
    } else if b.bits == INFINITE {
        Binary64 { bits: 0 }
    } else if b.bits == 0 {
        Binary64 { bits: if a.bits == 0 { NOT_A_NUMBER } else { INFINITE } }
    } else {
        Binary64 { bits: nearest(units(a.bits as nat) * one(), units(b.bits as nat)) as u64 }
    }
}

/// The number nearest to the fraction `n / d`.
pub open spec fn fraction(n: nat, d: nat) -> Binary64 {
    Binary64 { bits: nearest(n * one(), d) as u64 }
}

pub(crate) proof fn lemma_units_order(a: nat, b: nat)
    requires
        a <= b < INFINITE,
    ensures
        units(a) <= units(b),
        a < b ==> units(a) < units(b),
{
    let ma = significand(a);
    let mb = significand(b);
    let ea = exponent(a);
    let eb = exponent(b);
    lemma_parts(a);
    lemma_parts(b);
    assert(ea <= eb);
    lemma_pow2_pos(ea);
    lemma_pow2_pos(eb);
    if ea == eb {
        let p = pow2(ea);
        assert(ma <= mb);
        assert(ma * p <= mb * p && (ma < mb ==> ma * p < mb * p)) by (nonlinear_arith)
            requires
                ma <= mb,
                p > 0,
        ;
    } else {
        lemma_pow2_unfold(eb);
        let f = (eb - 1) as nat;
        if ea < f {
            lemma_pow2_strictly_increases(ea, f);
        }
        let p = pow2(ea);
        let q = pow2(eb);
        assert(ma * p < mb * q) by (nonlinear_arith)
            requires
                ma < SIGNIFICANDS,
                mb >= HIDDEN,
                2 * p <= q,
                p > 0,
        ;
    }
}

/// The integer part of a number, or `max` where that is less.
pub open spec fn integer_part(a: Binary64, max: u64) -> nat {
    if a.bits > INFINITE {
        0
    } else if a.bits == INFINITE || units(a.bits as nat) / one() > max {
        max as nat
    } else {
        units(a.bits as nat) / one()
    }
}

/// The integer nearest to a number, halves away from zero.
pub open spec fn rounded(a: Binary64) -> Binary64 {
    if a.bits >= INFINITE {
        a
    } else {
        fraction((2 * units(a.bits as nat) + one()) / (2 * one()), 1)
    }
}

/// Whether the pattern is that of a not-a-number, of either sign.
pub open spec fn not_a_number(a: Binary64) -> bool {
    a.bits % SIGN > INFINITE
}

/// An integer by which the numbers are ordered. The two zeros have the same.
pub open spec fn rank_key(a: Binary64) -> u64 {
    if a.bits >= SIGN {
        (SIGN - (a.bits - SIGN)) as u64
    } else {
        (SIGN + a.bits) as u64
    }
}

/// Whether a number is at least another.
pub open spec fn reaches(a: Binary64, b: Binary64) -> bool {
    !not_a_number(a) && !not_a_number(b) && rank_key(a) >= rank_key(b)
}

/// Whether a number is less than another.
pub open spec fn is_below(a: Binary64, b: Binary64) -> bool {
    !not_a_number(a) && !not_a_number(b) && rank_key(a) < rank_key(b)
}

/// A number without the sign of a negative zero.
pub open spec fn unsigned(a: Binary64) -> Binary64 {
    if a.bits == SIGN {
        Binary64 { bits: 0 }
    } else {
        a
    }
}

proof fn lemma_product_shape(ma: nat, ea: nat, mb: nat, eb: nat)
    ensures
        nearest((ma * pow2(ea)) * (mb * pow2(eb)), one()) == nearest_scaled(
            ma * mb,
            1,
            ea + eb - UNIT_SHIFT,
        ),
{
    lemma_pow2_adds(ea, eb);
    let p = pow2(ea);
    let q = pow2(eb);
    let m = ma * mb;
    lemma_pow2_pos(ea + eb);
    lemma_pow2_pos(UNIT_SHIFT as nat);
    assert((ma * p) * (mb * q) == m * (p * q)) by (nonlinear_arith)
        requires
            m == ma * mb,
    ;
    let x = ea + eb - UNIT_SHIFT;
    if x >= 0 {
        lemma_pow2_adds(x as nat, UNIT_SHIFT as nat);
        let z = pow2(x as nat);
        assert(m * (z * one()) == (m * z) * one()) by (nonlinear_arith);
        lemma_nearest_scale(m * z, 1, one());
        assert(1 * one() == one());
    } else {
        lemma_pow2_adds(ea + eb, (-x) as nat);
        let z = pow2((-x) as nat);
        lemma_pow2_pos((-x) as nat);
        lemma_nearest_scale(m, z, pow2(ea + eb));
        assert(z * pow2(ea + eb) == pow2(ea + eb) * z) by (nonlinear_arith);
        assert(1 * z == z);
    }
}

proof fn lemma_quotient_shape(ma: nat, ea: nat, mb: nat, eb: nat)
    requires
        mb > 0,
    ensures
        nearest((ma * pow2(ea)) * one(), mb * pow2(eb)) == nearest_scaled(
            ma,
            mb,
            ea + UNIT_SHIFT - eb,
        ),
        mb * pow2(eb) > 0,
{
    let top = ea + UNIT_SHIFT as nat;
    lemma_pow2_adds(ea, UNIT_SHIFT as nat);
    lemma_pow2_pos(eb);
    let q = pow2(eb);
    assert((ma * pow2(ea)) * one() == ma * pow2(top)) by (nonlinear_arith)
        requires
            pow2(top) == pow2(ea) * one(),
    ;
    assert(mb * q > 0) by (nonlinear_arith)
        requires
            mb > 0,
            q > 0,
    ;
    let x = top - eb;
    if x >= 0 {
        lemma_pow2_adds(x as nat, eb);
        let z = pow2(x as nat);
        assert(ma * (z * q) == (ma * z) * q) by (nonlinear_arith);
        lemma_nearest_scale(ma * z, mb, q);
    } else {
        lemma_pow2_adds(top, (-x) as nat);
        let z = pow2((-x) as nat);
        lemma_pow2_pos(top);
        lemma_pow2_pos((-x) as nat);
        let w = pow2(top);
        assert(mb * (w * z) == (mb * z) * w) by (nonlinear_arith);
        assert(mb * z > 0) by (nonlinear_arith)
            requires
                mb > 0,
                z > 0,
        ;
        lemma_nearest_scale(ma, mb * z, w);
    }
}

/// A finite number is its own nearest number.
pub(crate) proof fn lemma_exact(bits: nat)
    requires
        bits < INFINITE,
    ensures
        nearest(units(bits), 1) == bits,
{
    lemma_parts(bits);
    let m = significand(bits);
    let e = exponent(bits);
    lemma2_to64();
    if e == 0 {
        assert(m * pow2(0) == m);
        assert(m / 1 == m);
        lemma_nearest_small(m, 1);
    } else {
        lemma_pow2_pos(e);
        lemma_plus_far(m, e, 0);
    }
}

pub proof fn lemma_whole(m: nat, e: nat)
    requires
        e >= UNIT_SHIFT,
    ensures
        one() > 0,
        (m * pow2(e)) / one() == m * pow2((e - UNIT_SHIFT) as nat),
        m * pow2(e) == (m * pow2((e - UNIT_SHIFT) as nat)) * one(),
        (2 * (m * pow2(e)) + one()) / (2 * one()) == m * pow2((e - UNIT_SHIFT) as nat),
{
    let z = (e - UNIT_SHIFT) as nat;
    lemma_pow2_adds(z, UNIT_SHIFT as nat);
    lemma_pow2_pos(UNIT_SHIFT as nat);
    let w = m * pow2(z);
    assert(m * (pow2(z) * one()) == w * one()) by (nonlinear_arith)
        requires
            w == m * pow2(z),
    ;
    lemma_fundamental_div_mod_converse((w * one()) as int, one() as int, w as int, 0);
    assert(2 * (w * one()) + one() == w * (2 * one()) + one()) by (nonlinear_arith);
    lemma_fundamental_div_mod_converse(
        (2 * (w * one()) + one()) as int,
        (2 * one()) as int,
        w as int,
        one() as int,
    );
}

proof fn lemma_below_one(m: nat, e: nat)
    requires
        e < UNIT_SHIFT,
    ensures
        (m * pow2(e)) / one() == m / pow2((UNIT_SHIFT - e) as nat),
{
    let t = (UNIT_SHIFT - e) as nat;
    lemma_pow2_adds(t, e);
    lemma_pow2_pos(t);
    lemma_pow2_pos(e);
    lemma_div_scale(m, pow2(t), pow2(e));
}

proof fn lemma_round_shape(m: nat, e: nat)
    requires
        e < UNIT_SHIFT,
    ensures
        (2 * (m * pow2(e)) + one()) / (2 * one()) == (2 * m + pow2((UNIT_SHIFT - e) as nat)) / (2
            * pow2((UNIT_SHIFT - e) as nat)),
{
    let t = (UNIT_SHIFT - e) as nat;
    let p = pow2(t);
    let q = pow2(e);
    lemma_pow2_adds(t, e);
    lemma_pow2_pos(t);
    lemma_pow2_pos(e);
    lemma_div_scale(2 * m + p, 2 * p, q);
    assert((2 * m + p) * q == 2 * (m * q) + p * q) by (nonlinear_arith);
    assert((2 * p) * q == 2 * (p * q)) by (nonlinear_arith);
}

impl Binary64 {
    /// Whether this is not below zero: a nonnegative number, positive infinity, the not-a-number of
    /// this module, or the negative zero.
    pub open spec fn not_negative(self) -> bool {
        self.nonneg() || self.bits == SIGN
    }

    /// Whether this is a nonnegative number, positive infinity or the not-a-number of this module.
    pub open spec fn nonneg(self) -> bool {
        self.bits <= NOT_A_NUMBER
    }

    /// The significand and the exponent of a finite number.
    pub(crate) fn parts(self) -> (r: (u64, u32))
        requires
            self.bits < INFINITE,
        ensures
            r.0 == significand(self.bits as nat),
            r.1 == exponent(self.bits as nat),
            r.0 < SIGNIFICANDS,
            r.1 <= 2045,
            r.1 > 0 ==> r.0 >= HIDDEN,
    {
        proof {
            lemma_parts(self.bits as nat);
        }
        if self.bits < HIDDEN {
            (self.bits, 0)
        } else {
            (HIDDEN + self.bits % HIDDEN, (self.bits / HIDDEN - 1) as u32)
        }
    }

    /// The number nearest to `n / d`.
    pub fn ratio(n: u64, d: u64) -> (r: Binary64)
        requires
            d > 0,
        ensures
            r == fraction(n as nat, d as nat),
            r.nonneg(),
    {
        Binary64 { bits: round_ratio(n as u128, d as u128, UNIT_SHIFT as i32) }
    }

    /// The sum of two numbers.
    pub fn plus(self, other: Binary64) -> (r: Binary64)
        requires
            self.nonneg(),
            other.nonneg(),
        ensures
            r == sum(self, other),
            r.nonneg(),
    {
        if self.bits > INFINITE || other.bits > INFINITE {
            return Binary64 { bits: NOT_A_NUMBER };
        }
        if self.bits == INFINITE || other.bits == INFINITE {
            return Binary64 { bits: INFINITE };
        }
        let (hi, lo) = if self.bits >= other.bits {
            (self, other)
        } else {
            (other, self)
        };
        let (mh, eh) = hi.parts();
        let (ml, el) = lo.parts();
        proof {
            lemma_parts(hi.bits as nat);
            lemma_parts(lo.bits as nat);
        }
        assert(el <= eh);
        let d: u32 = eh - el;
        if d <= 60 {
            proof {
                lemma_shift_significand(mh as u128, d);
                lemma_align(mh as nat, ml as nat, el as nat, d as nat);
            }
            let s: u128 = ((mh as u128) << d) + ml as u128;
            Binary64 { bits: round_ratio(s, 1, el as i32) }
        } else {
            proof {
                lemma_far(ml as nat, el as nat, eh as nat);
                lemma_plus_far(mh as nat, eh as nat, units(lo.bits as nat));
            }
            hi
        }
    }

    /// The difference of this number and one that is not above it.
    pub fn minus(self, other: Binary64) -> (r: Binary64)
        requires
            self.nonneg(),
            other.bits <= self.bits,
        ensures
            r == difference(self, other),
            r.nonneg(),
    {
        if self.bits > INFINITE || other.bits == INFINITE {
            return Binary64 { bits: NOT_A_NUMBER };
        }
        if self.bits == INFINITE {
            return Binary64 { bits: INFINITE };
        }
        let (mh, eh) = self.parts();
        let (ml, el) = other.parts();
        proof {
            lemma_parts(self.bits as nat);
            lemma_parts(other.bits as nat);
            lemma_units_order(other.bits as nat, self.bits as nat);
        }
        assert(el <= eh);
        let d: u32 = eh - el;
        if d <= 60 {
            proof {
                lemma_shift_significand(mh as u128, d);
                lemma_align(mh as nat, ml as nat, el as nat, d as nat);
                let p = pow2(el as nat);
                lemma_pow2_pos(el as nat);
                let t = mh as nat * pow2(d as nat) - ml as nat;
                assert(t >= 0) by (nonlinear_arith)
                    requires
                        t * p >= 0,
                        p > 0,
                ;
            }
            let s: u128 = ((mh as u128) << d) - ml as u128;
            Binary64 { bits: round_ratio(s, 1, el as i32) }
        } else {
            proof {
                lemma_far(ml as nat, el as nat, eh as nat);
                lemma_minus_far(mh as nat, eh as nat, units(other.bits as nat));
            }
            self
        }
    }

    /// The product of two numbers.
    pub fn times(self, other: Binary64) -> (r: Binary64)
        requires
            self.nonneg(),
            other.nonneg(),
        ensures
            r == product(self, other),
            r.nonneg(),
    {
        if self.bits > INFINITE || other.bits > INFINITE {
            return Binary64 { bits: NOT_A_NUMBER };
        }
        if self.bits == INFINITE || other.bits == INFINITE {
            if self.bits == 0 || other.bits == 0 {
                return Binary64 { bits: NOT_A_NUMBER };
            }
            return Binary64 { bits: INFINITE };
        }
        let (ma, ea) = self.parts();
        let (mb, eb) = other.parts();
        proof {
            lemma_product_shape(ma as nat, ea as nat, mb as nat, eb as nat);
            assert(ma as u128 * mb as u128 <= 0x20_0000_0000_0000u128 * 0x20_0000_0000_0000u128)
                by (nonlinear_arith)
                requires
                    ma < SIGNIFICANDS,
                    mb < SIGNIFICANDS,
            ;
        }
        let m: u128 = (ma as u128) * (mb as u128);
        Binary64 { bits: round_ratio(m, 1, ea as i32 + eb as i32 - UNIT_SHIFT as i32) }
    }

    /// The quotient of two numbers.
    pub fn over(self, other: Binary64) -> (r: Binary64)
        requires
            self.nonneg(),
            other.nonneg(),
        ensures
            r == quotient(self, other),
            r.nonneg(),
    {
        if self.bits > INFINITE || other.bits > INFINITE {
            return Binary64 { bits: NOT_A_NUMBER };
        }
        if self.bits == INFINITE {
            if other.bits == INFINITE {
                return Binary64 { bits: NOT_A_NUMBER };
            }
            return Binary64 { bits: INFINITE };
        }
        if other.bits == INFINITE {
            return Binary64 { bits: 0 };
        }
        if other.bits == 0 {
            if self.bits == 0 {
                return Binary64 { bits: NOT_A_NUMBER };
            }
            return Binary64 { bits: INFINITE };
        }
        let (ma, ea) = self.parts();
        let (mb, eb) = other.parts();
        proof {
            lemma_parts(other.bits as nat);
            lemma_quotient_shape(ma as nat, ea as nat, mb as nat, eb as nat);
        }
        Binary64 {
            bits: round_ratio(
                ma as u128,
                mb as u128,
                ea as i32 + UNIT_SHIFT as i32 - eb as i32,
            ),
        }
    }

    /// The integer part, or `max` where that is less.
    pub fn truncated(self, max: u64) -> (r: u64)
        requires
            self.nonneg(),
        ensures
            r == integer_part(self, max),
    {
        if self.bits > INFINITE {
            return 0;
        }
        if self.bits == INFINITE {
            return max;
        }
        let (m, e) = self.parts();
        if m == 0 {
            assert(0 * pow2(e as nat) == 0);
            proof {
                lemma_pow2_pos(UNIT_SHIFT as nat);
                lemma_fundamental_div_mod_converse(0, one() as int, 0, 0);
            }
            return 0;
        }
        if e >= UNIT_SHIFT {
            let z: u32 = e - UNIT_SHIFT;
            proof {
                lemma_whole(m as nat, e as nat);
            }
            if z > 60 {
                proof {
                    lemma2_to64();
                    lemma2_to64_rest();
                    lemma_pow2_strictly_increases(60, z as nat);
                    assert(m as nat * pow2(z as nat) > u64::MAX) by (nonlinear_arith)
                        requires
                            m >= HIDDEN,
                            pow2(z as nat) > 4096,
                    ;
                }
                return max;
            }
            proof {
                lemma_shift_significand(m as u128, z);
            }
            let w: u128 = (m as u128) << z;
            if w > max as u128 {
                max
            } else {
                w as u64
            }
        } else {
            let t: u32 = UNIT_SHIFT - e;
            proof {
                lemma_below_one(m as nat, e as nat);
            }
            if t > 60 {
                proof {
                    lemma2_to64_rest();
                    lemma_pow2_strictly_increases(60, t as nat);
                    lemma_fundamental_div_mod_converse(
                        m as int,
                        pow2(t as nat) as int,
                        0,
                        m as int,
                    );
                }
                return 0;
            }
            proof {
                lemma_shift_significand(1, t);
                lemma_pow2_pos(t as nat);
            }
            let w: u128 = (m as u128) / (1u128 << t);
            if w > max as u128 {
                max
            } else {
                w as u64
            }
        }
    }

    /// The nearest integer, halves away from zero.
    pub fn round(self) -> (r: Binary64)
        requires
            self.nonneg(),
        ensures
            r == rounded(self),
            r.nonneg(),
    {
        if self.bits >= INFINITE {
            return self;
        }
        let (m, e) = self.parts();
        if e >= UNIT_SHIFT {
            proof {
                lemma_whole(m as nat, e as nat);
                lemma_exact(self.bits as nat);
            }
            return self;
        }
        let t: u32 = UNIT_SHIFT - e;
        proof {
            lemma_round_shape(m as nat, e as nat);
        }
        if t > 60 {
            proof {
                lemma2_to64_rest();
                lemma_pow2_strictly_increases(60, t as nat);
                lemma_fundamental_div_mod_converse(
                    (2 * m + pow2(t as nat)) as int,
                    2 * pow2(t as nat) as int,
                    0,
                    (2 * m + pow2(t as nat)) as int,
                );
            }
            return Binary64::ratio(0, 1);
        }
        proof {
            lemma_shift_significand(1, t);
            lemma_pow2_pos(t as nat);
            lemma2_to64_rest();
            if t < 60 {
                lemma_pow2_strictly_increases(t as nat, 60);
            }
        }
        let p: u128 = 1u128 << t;
        let w: u128 = (2 * (m as u128) + p) / (2 * p);
        proof {
            assert(w <= m + 1) by (nonlinear_arith)
                requires
                    w == (2 * m + p) as int / (2 * p) as int,
                    p >= 1,
            ;
        }
        Binary64::ratio(w as u64, 1)
    }

    /// The integer by which this number is ordered.
    pub fn key(self) -> (r: u64)
        ensures
            r == rank_key(self),
    {
        if self.bits >= SIGN {
            SIGN - (self.bits - SIGN)
        } else {
            SIGN + self.bits
        }
    }

    /// This number without the sign of a negative zero.
    pub fn without_zero_sign(self) -> (r: Binary64)
        ensures
            r == unsigned(self),
    {
        if self.bits == SIGN {
            Binary64 { bits: 0 }
        } else {
            self
        }
    }

    /// Whether this number is at least the given one.
    pub fn at_least(self, other: Binary64) -> (r: bool)
        ensures
            r == reaches(self, other),
    {
        !self.is_nan() && !other.is_nan() && self.key() >= other.key()
    }

    /// Whether this number is less than the given one.
    pub fn below(self, other: Binary64) -> (r: bool)
        ensures
            r == is_below(self, other),
    {
        !self.is_nan() && !other.is_nan() && self.key() < other.key()
    }

    /// Whether this is not a number.
    pub fn is_nan(self) -> (r: bool)
        ensures
            r == not_a_number(self),
    {
        self.bits % SIGN > INFINITE
    }

}

} // verus!
