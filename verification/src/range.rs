//! Means and totals stay on the scale of zero to one hundred.

use crate::binary64::{
    fraction, half_even, lemma_exact, lemma_half_even_scale, lemma_nearest_scale,
    lemma_units_order, nearest, one, product, quantum, rounded, sum, units, unsigned, Binary64, HIDDEN, INFINITE, SIGN, SIGNIFICANDS, UNIT_SHIFT,
};
use crate::contest::{usable_weight, usable_weights, weights_sum, Criterion};
use crate::nearness::{
    law_rounding_keeps_order, lemma_near_integer, lemma_nearest_units, lemma_quantum_bounds,
    lemma_upper,
};
use crate::score::{
    ascending, has_numbers, hundred, law_samples_in_range, lemma_inner, mean_of,
    none_negative, samples, share, sum_of, term, terms, to_one_decimal, total_score,
    trimmed_mean_of, JudgeResult,
};
use crate::signed::{lemma_nearest_range, lemma_nothing_divided, lemma_sum_not_negative};
use vstd::arithmetic::div_mod::lemma_fundamental_div_mod_converse;
use vstd::arithmetic::power2::{
    lemma2_to64, lemma2_to64_rest, lemma_pow2_adds, lemma_pow2_pos, lemma_pow2_strictly_increases,
    lemma_pow2_unfold, pow2,
};
use vstd::prelude::*;

verus! {

/// An integer that is a significand is a finite number, exactly.
pub(crate) proof fn lemma_integer(m: nat)
    requires
        m < SIGNIFICANDS,
    ensures
        nearest(m * one(), 1) < INFINITE,
        units(nearest(m * one(), 1)) == m * one(),
        fraction(m, 1).bits == nearest(m * one(), 1),
{
    let n = m * one();
    let u = UNIT_SHIFT as nat;
    lemma_pow2_pos(u);
    let e = quantum(n / 1);
    assert(n / 1 == n);
    lemma_quantum_bounds(n);
    let p = pow2(e);
    lemma_pow2_pos(e);
    if e > u {
        lemma_pow2_unfold(e);
        if e - 1 > u {
            lemma_pow2_strictly_increases(u, (e - 1) as nat);
        }
        let w = pow2(u);
        assert(HIDDEN * p >= SIGNIFICANDS * w) by (nonlinear_arith)
            requires
                p >= 2 * w,
                SIGNIFICANDS == 2 * HIDDEN,
        ;
        assert(m * w < SIGNIFICANDS * w) by (nonlinear_arith)
            requires
                m < SIGNIFICANDS,
                w > 0,
        ;
    }
    let t = pow2((u - e) as nat);
    lemma_pow2_adds((u - e) as nat, e);
    let k = m * t;
    assert(n == k * p) by (nonlinear_arith)
        requires
            n == m * (t * p),
            k == m * t,
    ;
    assert(1 * p == p);
    assert(n == p * k + 0) by (nonlinear_arith)
        requires
            n == k * p,
    ;
    lemma_fundamental_div_mod_converse(n as int, p as int, k as int, 0);
    assert(half_even(n, p) == k);
    assert(k < SIGNIFICANDS) by (nonlinear_arith)
        requires
            n == k * p,
            n < SIGNIFICANDS * p,
            p > 0,
    ;
    assert(e * HIDDEN + k < INFINITE) by (nonlinear_arith)
        requires
            e <= 1074,
            k < SIGNIFICANDS,
            HIDDEN == 0x10_0000_0000_0000u64,
            SIGNIFICANDS == 0x20_0000_0000_0000u64,
            INFINITE == 0x7ff0_0000_0000_0000u64,
    ;
    lemma_nearest_units(n, 1);
}

/// What is not above an integer is not rounded above it.
pub(crate) proof fn lemma_at_most(n: nat, d: nat, m: nat)
    requires
        d > 0,
        m < SIGNIFICANDS,
        n <= (m * one()) * d,
    ensures
        nearest(n, d) < INFINITE,
        nearest(n, d) <= nearest(m * one(), 1),
        units(nearest(n, d)) <= m * one(),
{
    lemma_integer(m);
    assert(n * 1 == n);
    law_rounding_keeps_order(n, d, m * one(), 1);
    lemma_units_order(nearest(n, d), nearest(m * one(), 1));
}

/// Two to the 41st: the largest number of criteria for which the bounds are stated. With twice as
/// many the rounding of the sums can carry a total above one hundred.
pub const MANY: u64 = 0x200_0000_0000;

/// Two to the 46th: the largest number of scores of a criterion for which the bounds are stated. The
/// sum of as many scores is never above what a significand holds.
pub const MANY_SCORES: u64 = 0x4000_0000_0000;

/// The bound of all significands, less the largest number of criteria.
const ROOM: u64 = 0x1f_fe00_0000_0000;

/// Whether all numbers of a list lie between zero and one hundred.
pub open spec fn in_range(v: Seq<Binary64>) -> bool {
    forall|i: int| 0 <= i < v.len() ==> unsigned(#[trigger] v[i]).bits <= hundred().bits
}

/// The sum of a list, added up in order, without the sign of a zero.
spec fn total_of(v: Seq<Binary64>) -> Binary64
    decreases v.len(),
{
    if v.len() == 0 {
        Binary64 { bits: 0 }
    } else {
        sum(total_of(v.drop_last()), unsigned(v.last()))
    }
}

/// The sum of numbers that are not below zero is the sum without signs, up to the sign of a zero.
proof fn lemma_sum_is_total(v: Seq<Binary64>)
    requires
        none_negative(v),
    ensures
        sum_of(v).not_negative(),
        unsigned(sum_of(v)) == total_of(v),
    decreases v.len(),
{
    if v.len() > 0 {
        let s = v.drop_last();
        assert forall|i: int| 0 <= i < s.len() implies (#[trigger] s[i]).not_negative() by {
            assert(s[i] == v[i]);
        }
        lemma_sum_is_total(s);
        assert(v[v.len() - 1].not_negative());
        lemma_sum_not_negative(sum_of(s), v.last());
        assert(unsigned(total_of(s)) == total_of(s));
    }
}

proof fn lemma_total_of(v: Seq<Binary64>)
    requires
        in_range(v),
        v.len() <= MANY_SCORES,
    ensures
        total_of(v).bits < INFINITE,
        units(total_of(v).bits as nat) <= (100 * v.len()) * one(),
    decreases v.len(),
{
    lemma_integer(100);
    if v.len() == 0 {
        lemma2_to64();
        assert(units(0) == 0 * pow2(0));
    } else {
        let s = v.drop_last();
        assert forall|i: int| 0 <= i < s.len() implies unsigned(#[trigger] s[i]).bits
            <= hundred().bits by {
            assert(s[i] == v[i]);
        }
        lemma_total_of(s);
        assert(unsigned(v[v.len() - 1]).bits <= hundred().bits);
        let a = total_of(s).bits as nat;
        let b = unsigned(v.last()).bits as nat;
        lemma_units_order(b, hundred().bits as nat);
        let n = units(a) + units(b);
        let m = 100 * v.len();
        assert(n <= (m * one()) * 1) by (nonlinear_arith)
            requires
                n <= (100 * (m / 100 - 1)) * one() + 100 * one(),
                m % 100 == 0,
                m >= 100,
        ;
        lemma_at_most(n, 1, m);
    }
}

/// The mean of numbers between zero and one hundred lies between zero and one hundred.
pub proof fn law_mean_in_range(v: Seq<Binary64>)
    requires
        in_range(v),
        0 < v.len() <= MANY_SCORES,
    ensures
        unsigned(mean_of(v)).bits <= hundred().bits,
{
    lemma_total_of(v);
    lemma_sum_is_total(v);
    lemma_integer(v.len());
    lemma_integer(100);
    lemma_pow2_pos(UNIT_SHIFT as nat);
    let a = units(total_of(v).bits as nat);
    let b = v.len() * one();
    let u = one();
    assert(b > 0) by (nonlinear_arith)
        requires
            b == v.len() * u,
            v.len() > 0,
            u > 0,
    ;
    assert(fraction(v.len(), 1).bits != 0) by {
        lemma2_to64();
        assert(units(0) == 0 * pow2(0));
    }
    assert(a * u <= (100 * u) * b) by (nonlinear_arith)
        requires
            a <= (100 * v.len()) * u,
            b == v.len() * u,
    ;
    lemma_at_most(a * u, b, 100);
    if sum_of(v).bits == SIGN {
        lemma_nothing_divided(fraction(v.len(), 1));
    }
}

/// The trimmed mean of numbers between zero and one hundred lies between zero and one hundred.
pub proof fn law_trimmed_mean_in_range(v: Seq<Binary64>)
    requires
        in_range(v),
        v.len() <= MANY_SCORES,
        v.len() <= usize::MAX,
    ensures
        unsigned(trimmed_mean_of(v)).bits <= hundred().bits,
{
    if v.len() == 0 {
    } else if v.len() < 4 {
        law_mean_in_range(v);
    } else {
        let inner = ascending(v).subrange(1, v.len() - 1);
        lemma_inner(v);
        assert forall|i: int| 0 <= i < inner.len() implies unsigned(#[trigger] inner[i]).bits
            <= hundred().bits by {
            assert(v.contains(inner[i]));
        }
        law_mean_in_range(inner);
    }
}

/// The sum of the weights of the first `n` criteria, exactly, in units.
spec fn weight_units(c: Seq<Criterion>, n: nat) -> nat
    decreases n,
{
    if n == 0 {
        0
    } else {
        weight_units(c, (n - 1) as nat) + units(c[n - 1].weight.bits as nat)
    }
}

proof fn lemma_weight_units_prefix(c: Seq<Criterion>, s: Seq<Criterion>, n: nat)
    requires
        n <= s.len() <= c.len(),
        forall|i: int| 0 <= i < s.len() ==> s[i] == c[i],
    ensures
        weight_units(c, n) == weight_units(s, n),
    decreases n,
{
    if n > 0 {
        lemma_weight_units_prefix(c, s, (n - 1) as nat);
    }
}

proof fn lemma_weight_units_each(c: Seq<Criterion>, n: nat, i: int)
    requires
        0 <= i < n <= c.len(),
    ensures
        units(c[i].weight.bits as nat) <= weight_units(c, n),
    decreases n,
{
    if i < n - 1 {
        lemma_weight_units_each(c, (n - 1) as nat, i);
    }
}

/// The rounded sum of the weights is close to the exact one.
proof fn lemma_weights_sum(c: Seq<Criterion>)
    requires
        usable_weights(c),
        c.len() <= MANY,
    ensures
        weights_sum(c).bits <= INFINITE,
        weights_sum(c).bits < INFINITE ==> weight_units(c, c.len()) * ROOM <= units(
            weights_sum(c).bits as nat,
        ) * (ROOM + c.len()),
    decreases c.len(),
{
    let d = HIDDEN as nat;
    let r = ROOM as nat;
    if c.len() == 0 {
    } else {
        let s = c.drop_last();
        assert forall|i: int| 0 <= i < s.len() implies usable_weight(#[trigger] s[i].weight) by {
            assert(usable_weight(c[i].weight));
        }
        lemma_weights_sum(s);
        lemma_weight_units_prefix(c, s, s.len());
        assert(usable_weight(c[c.len() - 1].weight));
        if weights_sum(c).bits < INFINITE {
            let k = s.len();
            let a = units(weights_sum(s).bits as nat);
            let w = units(c.last().weight.bits as nat);
            let t = units(weights_sum(c).bits as nat);
            let x = weight_units(c, k);
            lemma_near_integer(a + w);
            assert((2 * d - 1) * (a + w) <= 2 * d * t);
            assert((a + w) * (r + k) >= (x + w) * r) by (nonlinear_arith)
                requires
                    x * r <= a * (r + k),
            ;
            assert((2 * d - 1) * (r + k + 1) >= 2 * d * (r + k)) by (nonlinear_arith)
                requires
                    2 * d >= r + k + 1,
            ;
            let y = a + w;
            assert(2 * d * ((x + w) * r) <= 2 * d * (t * (r + k + 1))) by (nonlinear_arith)
                requires
                    (2 * d - 1) * y <= 2 * d * t,
                    y * (r + k) >= (x + w) * r,
                    (2 * d - 1) * (r + k + 1) >= 2 * d * (r + k),
                    d > 0,
            {
                assert(2 * d * ((x + w) * r) <= 2 * d * (y * (r + k)));
                assert(2 * d * (y * (r + k)) == y * (2 * d * (r + k)));
                assert(y * (2 * d * (r + k)) <= y * ((2 * d - 1) * (r + k + 1)));
                assert(y * ((2 * d - 1) * (r + k + 1)) == ((2 * d - 1) * y) * (r + k + 1));
                assert(((2 * d - 1) * y) * (r + k + 1) <= (2 * d * t) * (r + k + 1));
                assert((2 * d * t) * (r + k + 1) == 2 * d * (t * (r + k + 1)));
            }
            assert((x + w) * r <= t * (r + k + 1)) by (nonlinear_arith)
                requires
                    2 * d * ((x + w) * r) <= 2 * d * (t * (r + k + 1)),
                    d > 0,
            ;
        }
    }
}

/// The sum of the shares of the first `n` criteria, exactly, in units.
spec fn share_units(c: Seq<Criterion>, n: nat) -> nat
    decreases n,
{
    if n == 0 {
        0
    } else {
        share_units(c, (n - 1) as nat) + units(share(c, n - 1).bits as nat)
    }
}

/// What a criterion adds to the total, without the sign of a zero.
spec fn part(c: Seq<Criterion>, replies: Seq<JudgeResult>, i: int) -> Binary64 {
    unsigned(term(c, replies, i))
}

/// The sum of what the first `n` criteria add to the total, exactly, in units.
spec fn term_units(c: Seq<Criterion>, replies: Seq<JudgeResult>, n: nat) -> nat
    decreases n,
{
    if n == 0 {
        0
    } else {
        term_units(c, replies, (n - 1) as nat) + units(part(c, replies, n - 1).bits as nat)
    }
}

pub(crate) proof fn lemma_zero_units()
    ensures
        units(0) == 0,
{
    lemma2_to64();
    assert(units(0) == 0 * pow2(0));
}

/// Where the sum of the weights is finite, a share is close to the exact one.
proof fn lemma_share(c: Seq<Criterion>, i: int)
    requires
        usable_weights(c),
        c.len() <= MANY,
        0 <= i < c.len(),
        weights_sum(c).bits < INFINITE,
    ensures
        ({
            let w = units(c[i].weight.bits as nat);
            let s = units(weights_sum(c).bits as nat);
            let q = units(share(c, i).bits as nat);
            &&& s > 0
            &&& share(c, i).bits < INFINITE
            &&& q <= 2 * one()
            &&& 2 * HIDDEN * (q * s) <= (2 * HIDDEN + 1) * (w * one()) + HIDDEN * s
        }),
{
    let d = HIDDEN as nat;
    let w = units(c[i].weight.bits as nat);
    let s = units(weights_sum(c).bits as nat);
    let u = one();
    let n = c.len();
    assert(usable_weight(c[i].weight));
    lemma_zero_units();
    lemma_units_order(0, c[i].weight.bits as nat);
    lemma_weights_sum(c);
    lemma_weight_units_each(c, n, i);
    let x = weight_units(c, n);
    let r = ROOM as nat;
    assert(w <= 2 * s) by (nonlinear_arith)
        requires
            w <= x,
            x * r <= s * (r + n),
            n <= r,
            r > 0,
    ;
    assert(w * u <= (2 * u) * s) by (nonlinear_arith)
        requires
            w <= 2 * s,
    ;
    lemma_at_most(w * u, s, 2);
    lemma_upper(w * u, s);
}

/// The shares add up to little more than one.
proof fn lemma_share_units(c: Seq<Criterion>, n: nat)
    requires
        usable_weights(c),
        c.len() <= MANY,
        n <= c.len(),
        weights_sum(c).bits < INFINITE,
    ensures
        2 * HIDDEN * (share_units(c, n) * units(weights_sum(c).bits as nat)) <= (2 * HIDDEN + 1) * (
        weight_units(c, n) * one()) + n * (HIDDEN * units(weights_sum(c).bits as nat)),
    decreases n,
{
    let d = HIDDEN as nat;
    let s = units(weights_sum(c).bits as nat);
    let u = one();
    if n == 0 {
        let a = share_units(c, 0);
        let b = weight_units(c, 0);
        assert(2 * d * (a * s) == 0 && (2 * d + 1) * (b * u) == 0 && n * (d * s) == 0)
            by (nonlinear_arith)
            requires
                a == 0,
                b == 0,
                n == 0,
        ;
    } else {
        let k = (n - 1) as nat;
        lemma_share_units(c, k);
        lemma_share(c, k as int);
        let a = share_units(c, k);
        let b = weight_units(c, k);
        let q = units(share(c, k as int).bits as nat);
        let w = units(c[k as int].weight.bits as nat);
        assert(2 * d * ((a + q) * s) == 2 * d * (a * s) + 2 * d * (q * s)) by (nonlinear_arith);
        assert((2 * d + 1) * ((b + w) * u) == (2 * d + 1) * (b * u) + (2 * d + 1) * (w * u))
            by (nonlinear_arith);
        assert((k + 1) * (d * s) == k * (d * s) + d * s) by (nonlinear_arith);
    }
}

/// A unit is very much smaller than one.
proof fn lemma_one_is_large()
    ensures
        one() >= MANY * (SIGNIFICANDS * SIGNIFICANDS),
{
    lemma2_to64();
    lemma2_to64_rest();
    let u = UNIT_SHIFT as nat;
    lemma_pow2_adds(53, 53);
    lemma_pow2_adds(106, 41);
    lemma_pow2_strictly_increases(147, u);
    let a = pow2(53);
    let b = pow2(41);
    assert(pow2(147) == (a * a) * b);
    assert(a == SIGNIFICANDS);
    assert(b == MANY);
}

/// The shares add up to little more than one.
proof fn lemma_shares_small(c: Seq<Criterion>)
    requires
        usable_weights(c),
        0 < c.len() <= MANY,
        weights_sum(c).bits < INFINITE,
    ensures
        4094 * share_units(c, c.len()) <= 4095 * one(),
{
    let d = HIDDEN as nat;
    let r = ROOM as nat;
    let n = c.len();
    let s = units(weights_sum(c).bits as nat);
    let u = one();
    let a = share_units(c, n);
    let x = weight_units(c, n);
    lemma_share(c, 0);
    lemma_share_units(c, n);
    lemma_weights_sum(c);
    lemma_one_is_large();
    // over the sum of the weights
    assert(r * (2 * d * (a * s)) <= (2 * d + 1) * ((s * (r + n)) * u) + r * (n * (d * s)))
        by (nonlinear_arith)
        requires
            2 * d * (a * s) <= (2 * d + 1) * (x * u) + n * (d * s),
            x * r <= s * (r + n),
    {
        assert(r * (2 * d * (a * s)) <= r * ((2 * d + 1) * (x * u)) + r * (n * (d * s)));
        assert(r * ((2 * d + 1) * (x * u)) == (2 * d + 1) * ((x * r) * u));
        assert((x * r) * u <= (s * (r + n)) * u);
        assert((2 * d + 1) * ((x * r) * u) <= (2 * d + 1) * ((s * (r + n)) * u));
    }
    let e = 2 * (d * r);
    let left = e * a;
    let mid = (2 * d + 1) * ((r + n) * u);
    let rest = n * (d * r);
    assert(r * (2 * d * (a * s)) == s * left) by (nonlinear_arith)
        requires
            left == (2 * (d * r)) * a,
    ;
    assert((2 * d + 1) * ((s * (r + n)) * u) == s * mid) by (nonlinear_arith)
        requires
            mid == (2 * d + 1) * ((r + n) * u),
    ;
    assert(r * (n * (d * s)) == s * rest) by (nonlinear_arith)
        requires
            rest == n * (d * r),
    ;
    assert(left <= mid + rest) by (nonlinear_arith)
        requires
            s * left <= s * mid + s * rest,
            s > 0,
    ;
    assert(rest <= u) by (nonlinear_arith)
        requires
            rest == n * (d * r),
            n <= 0x200_0000_0000,
            d == 0x10_0000_0000_0000,
            r == 0x1f_fe00_0000_0000,
            u >= 0x200_0000_0000 * (0x20_0000_0000_0000 * 0x20_0000_0000_0000),
    ;
    let f = (2 * d + 1) * (r + n) + 1;
    assert(mid + u == f * u) by (nonlinear_arith)
        requires
            mid == (2 * d + 1) * ((r + n) * u),
            f == (2 * d + 1) * (r + n) + 1,
    ;
    assert(4094 * f <= 4095 * e) by (nonlinear_arith)
        requires
            f == (2 * d + 1) * (r + n) + 1,
            e == 2 * (d * r),
            n <= 0x200_0000_0000,
            d == 0x10_0000_0000_0000,
            r == 0x1f_fe00_0000_0000,
    ;
    assert(e * (4094 * a) <= e * (4095 * u)) by (nonlinear_arith)
        requires
            e * a <= f * u,
            4094 * f <= 4095 * e,
    {
        assert(4094 * (e * a) <= (4094 * f) * u);
        assert((4094 * f) * u <= (4095 * e) * u);
    }
    assert(e > 0) by (nonlinear_arith)
        requires
            e == 2 * (d * r),
            d > 0,
            r > 0,
    ;
    assert(4094 * a <= 4095 * u) by (nonlinear_arith)
        requires
            e * (4094 * a) <= e * (4095 * u),
            e > 0,
    ;
}

/// Whether the replies give each criterion a mean between zero and one hundred.
spec fn sound_means(c: Seq<Criterion>, replies: Seq<JudgeResult>) -> bool {
    forall|i: int|
        0 <= i < c.len() ==> unsigned(
            trimmed_mean_of(samples(replies, (#[trigger] c[i]).id@)),
        ).bits <= hundred().bits
}

/// Where the share is finite, the part is the product.
proof fn lemma_part(c: Seq<Criterion>, replies: Seq<JudgeResult>, i: int)
    requires
        share(c, i).bits < INFINITE,
        unsigned(trimmed_mean_of(samples(replies, c[i].id@))).bits <= hundred().bits,
    ensures
        part(c, replies, i) == product(
            unsigned(trimmed_mean_of(samples(replies, c[i].id@))),
            share(c, i),
        ),
        product(unsigned(trimmed_mean_of(samples(replies, c[i].id@))), share(c, i)).bits
            <= INFINITE,
{
    lemma_integer(100);
    let mean = unsigned(trimmed_mean_of(samples(replies, c[i].id@)));
    let m = units(mean.bits as nat);
    let q = units(share(c, i).bits as nat);
    lemma_nearest_range(m * q, one());
    if trimmed_mean_of(samples(replies, c[i].id@)).bits == SIGN {
        lemma_zero_units();
        lemma_pow2_pos(UNIT_SHIFT as nat);
        lemma_nothing(one());
        assert(m * q == 0) by (nonlinear_arith)
            requires
                m == 0,
        ;
    }
}

/// What a criterion adds to the total is close to the exact product.
proof fn lemma_term(c: Seq<Criterion>, replies: Seq<JudgeResult>, i: int)
    requires
        usable_weights(c),
        c.len() <= MANY,
        0 <= i < c.len(),
        sound_means(c, replies),
        weights_sum(c).bits < INFINITE,
    ensures
        ({
            let t = units(part(c, replies, i).bits as nat);
            let q = units(share(c, i).bits as nat);
            &&& part(c, replies, i).bits < INFINITE
            &&& t <= 200 * one()
            &&& 2 * HIDDEN * t <= 100 * ((2 * HIDDEN + 1) * q) + HIDDEN
        }),
{
    let d = HIDDEN as nat;
    let u = one();
    let mean = unsigned(trimmed_mean_of(samples(replies, c[i].id@)));
    assert(mean.bits <= hundred().bits);
    lemma_integer(100);
    lemma_units_order(mean.bits as nat, hundred().bits as nat);
    lemma_share(c, i);
    lemma_pow2_pos(UNIT_SHIFT as nat);
    lemma_part(c, replies, i);
    let m = units(mean.bits as nat);
    let q = units(share(c, i).bits as nat);
    assert(m * q <= (200 * u) * u) by (nonlinear_arith)
        requires
            m <= 100 * u,
            q <= 2 * u,
    ;
    lemma_at_most(m * q, u, 200);
    lemma_upper(m * q, u);
    let t = units(part(c, replies, i).bits as nat);
    assert(u * (2 * d * t) <= u * (100 * ((2 * d + 1) * q) + d)) by (nonlinear_arith)
        requires
            2 * d * (t * u) <= (2 * d + 1) * (m * q) + d * u,
            m <= 100 * u,
    {
        assert(m * q <= (100 * u) * q);
        assert((2 * d + 1) * (m * q) <= (2 * d + 1) * ((100 * u) * q));
        assert((2 * d + 1) * ((100 * u) * q) == u * (100 * ((2 * d + 1) * q)));
        assert(2 * d * (t * u) == u * (2 * d * t));
    }
    assert(2 * d * t <= 100 * ((2 * d + 1) * q) + d) by (nonlinear_arith)
        requires
            u * (2 * d * t) <= u * (100 * ((2 * d + 1) * q) + d),
            u > 0,
    ;
}

proof fn lemma_term_units(c: Seq<Criterion>, replies: Seq<JudgeResult>, n: nat)
    requires
        usable_weights(c),
        c.len() <= MANY,
        n <= c.len(),
        sound_means(c, replies),
        weights_sum(c).bits < INFINITE,
    ensures
        term_units(c, replies, n) <= n * (200 * one()),
        2 * HIDDEN * term_units(c, replies, n) <= 100 * ((2 * HIDDEN + 1) * share_units(c, n)) + n
            * HIDDEN,
    decreases n,
{
    let d = HIDDEN as nat;
    let u = one();
    if n == 0 {
        assert(0 * (200 * u) == 0) by (nonlinear_arith);
    } else {
        let k = (n - 1) as nat;
        lemma_term_units(c, replies, k);
        lemma_term(c, replies, k as int);
        let a = term_units(c, replies, k);
        let b = share_units(c, k);
        let t = units(part(c, replies, k as int).bits as nat);
        let q = units(share(c, k as int).bits as nat);
        assert((k + 1) * (200 * u) == k * (200 * u) + 200 * u) by (nonlinear_arith);
        assert(2 * d * (a + t) == 2 * d * a + 2 * d * t) by (nonlinear_arith);
        assert((2 * d + 1) * (b + q) == (2 * d + 1) * b + (2 * d + 1) * q) by (nonlinear_arith);
        assert((k + 1) * d == k * d + d) by (nonlinear_arith);
    }
}

proof fn lemma_terms(c: Seq<Criterion>, replies: Seq<JudgeResult>, n: nat)
    requires
        n > 0,
    ensures
        total_of(terms(c, replies, n)) == sum(
            total_of(terms(c, replies, (n - 1) as nat)),
            part(c, replies, n - 1),
        ),
{
    assert(terms(c, replies, n).drop_last() =~= terms(c, replies, (n - 1) as nat));
    assert(terms(c, replies, n).last() == term(c, replies, n - 1));
}

/// The rounded sum of what the criteria add is close to the exact one.
proof fn lemma_weighted(c: Seq<Criterion>, replies: Seq<JudgeResult>, n: nat)
    requires
        usable_weights(c),
        c.len() <= MANY,
        n <= c.len(),
        sound_means(c, replies),
        weights_sum(c).bits < INFINITE,
    ensures
        total_of(terms(c, replies, n)).bits < INFINITE,
        units(total_of(terms(c, replies, n)).bits as nat) * ROOM <= term_units(c, replies, n) * (ROOM
            + n),
    decreases n,
{
    let d = HIDDEN as nat;
    let r = ROOM as nat;
    let u = one();
    if n == 0 {
        lemma_zero_units();
    } else {
        let k = (n - 1) as nat;
        lemma_weighted(c, replies, k);
        lemma_term(c, replies, k as int);
        lemma_term_units(c, replies, k);
        lemma_terms(c, replies, n);
        let a = units(total_of(terms(c, replies, k)).bits as nat);
        let x = term_units(c, replies, k);
        let t = units(part(c, replies, k as int).bits as nat);
        assert(a <= 2 * x) by (nonlinear_arith)
            requires
                a * r <= x * (r + k),
                k <= r,
                r > 0,
        ;
        let m: nat = 0x200_0000_0000 * 402;
        assert(a + t <= (m * u) * 1) by (nonlinear_arith)
            requires
                a <= 2 * x,
                x <= k * (200 * u),
                t <= 200 * u,
                k + 1 <= 0x200_0000_0000,
                m == 0x200_0000_0000 * 402,
        ;
        lemma_at_most(a + t, 1, m);
        lemma_near_integer(a + t);
        let y = a + t;
        let z = units(total_of(terms(c, replies, n)).bits as nat);
        assert(z == units(nearest(y, 1)));
        assert((2 * d + 1) * (r + k) <= 2 * d * (r + k + 1)) by (nonlinear_arith)
            requires
                r + k <= 2 * d,
        ;
        assert(y * r <= (x + t) * (r + k)) by (nonlinear_arith)
            requires
                y == a + t,
                a * r <= x * (r + k),
        ;
        assert(2 * d * (z * r) <= 2 * d * ((x + t) * (r + k + 1))) by (nonlinear_arith)
            requires
                2 * d * z <= (2 * d + 1) * y,
                y * r <= (x + t) * (r + k),
                (2 * d + 1) * (r + k) <= 2 * d * (r + k + 1),
        {
            assert((2 * d * z) * r <= ((2 * d + 1) * y) * r);
            assert(((2 * d + 1) * y) * r == (2 * d + 1) * (y * r));
            assert((2 * d + 1) * (y * r) <= (2 * d + 1) * ((x + t) * (r + k)));
            assert((2 * d + 1) * ((x + t) * (r + k)) == (x + t) * ((2 * d + 1) * (r + k)));
            assert((x + t) * ((2 * d + 1) * (r + k)) <= (x + t) * (2 * d * (r + k + 1)));
            assert((x + t) * (2 * d * (r + k + 1)) == 2 * d * ((x + t) * (r + k + 1)));
            assert((2 * d * z) * r == 2 * d * (z * r));
        }
        assert(z * r <= (x + t) * (r + k + 1)) by (nonlinear_arith)
            requires
                2 * d * (z * r) <= 2 * d * ((x + t) * (r + k + 1)),
                d > 0,
        ;
    }
}

/// The weighted sum is at most a little more than one hundred.
proof fn lemma_weighted_small(c: Seq<Criterion>, replies: Seq<JudgeResult>)
    requires
        usable_weights(c),
        0 < c.len() <= MANY,
        sound_means(c, replies),
        weights_sum(c).bits < INFINITE,
    ensures
        total_of(terms(c, replies, c.len())).bits < INFINITE,
        10000 * units(total_of(terms(c, replies, c.len())).bits as nat) <= 1000489 * one(),
{
    let d = HIDDEN as nat;
    let r = ROOM as nat;
    let n = c.len();
    let u = one();
    lemma_weighted(c, replies, n);
    lemma_term_units(c, replies, n);
    lemma_shares_small(c);
    lemma_one_is_large();
    let a = units(total_of(terms(c, replies, n)).bits as nat);
    let x = term_units(c, replies, n);
    let q = share_units(c, n);
    assert(n * d <= u) by (nonlinear_arith)
        requires
            n <= 0x200_0000_0000,
            d == 0x10_0000_0000_0000,
            u >= 0x200_0000_0000 * (0x20_0000_0000_0000 * 0x20_0000_0000_0000),
    ;
    assert(4093 * x <= 100 * (4094 * u)) by (nonlinear_arith)
        requires
            2 * d * x <= 100 * ((2 * d + 1) * q) + n * d,
            4094 * q <= 4095 * u,
            n * d <= u,
            d == 0x10_0000_0000_0000,
    ;
    assert(4095 * a <= 4096 * x) by (nonlinear_arith)
        requires
            a * r <= x * (r + n),
            n <= 0x200_0000_0000,
            r == 0x1f_fe00_0000_0000,
    ;
    assert(10000 * a <= 1000489 * u);
}

proof fn lemma_to_one_decimal(x: Binary64)
    requires
        x.bits < INFINITE,
        10000 * units(x.bits as nat) <= 1000489 * one(),
    ensures
        to_one_decimal(x).bits <= hundred().bits,
        to_one_decimal(x).bits < SIGN,
{
    let u = one();
    let a = units(x.bits as nat);
    lemma_pow2_pos(UNIT_SHIFT as nat);
    lemma_integer(10);
    lemma_integer(100);
    lemma_zero_units();
    let ten = fraction(10, 1);
    assert(ten.bits != 0);
    let y = product(x, ten);
    let n = a * (10 * u);
    assert(n <= (1001 * u) * u) by (nonlinear_arith)
        requires
            n == a * (10 * u),
            10000 * a <= 1000489 * u,
    ;
    lemma_at_most(n, u, 1001);
    lemma_upper(n, u);
    let v = units(y.bits as nat);
    let d = HIDDEN as nat;
    lemma_one_is_large();
    assert(u * (2 * d * v) <= u * ((2 * d + 1) * (10 * a) + d)) by (nonlinear_arith)
        requires
            2 * d * (v * u) <= (2 * d + 1) * n + d * u,
            n == a * (10 * u),
    ;
    assert(2 * d * v <= (2 * d + 1) * (10 * a) + d) by (nonlinear_arith)
        requires
            u * (2 * d * v) <= u * ((2 * d + 1) * (10 * a) + d),
            u > 0,
    ;
    assert(d <= u) by (nonlinear_arith)
        requires
            d == 0x10_0000_0000_0000,
            u >= 0x200_0000_0000 * (0x20_0000_0000_0000 * 0x20_0000_0000_0000),
    ;
    assert(2 * v < 2001 * u);
    let k = (2 * v + u) / (2 * u);
    assert(k <= 1000) by (nonlinear_arith)
        requires
            k == (2 * v + u) / (2 * u),
            2 * v < 2001 * u,
            u > 0,
    ;
    lemma_integer(k);
    let z = rounded(y);
    assert(z == fraction(k, 1));
    let b = units(z.bits as nat);
    assert(b * u <= (100 * u) * (10 * u)) by (nonlinear_arith)
        requires
            b == k * u,
            k <= 1000,
    ;
    assert(10 * u > 0);
    lemma_at_most(b * u, 10 * u, 100);
}

proof fn lemma_weighted_zero(c: Seq<Criterion>, replies: Seq<JudgeResult>, n: nat)
    requires
        usable_weights(c),
        n <= c.len(),
        sound_means(c, replies),
        weights_sum(c).bits == INFINITE,
    ensures
        total_of(terms(c, replies, n)).bits == 0,
    decreases n,
{
    lemma_zero_units();
    lemma_integer(0);
    assert(0 * one() == 0) by (nonlinear_arith);
    if n > 0 {
        lemma_weighted_zero(c, replies, (n - 1) as nat);
        assert(usable_weight(c[n - 1].weight));
        lemma_terms(c, replies, n);
        lemma_part(c, replies, n - 1);
        let mean = unsigned(trimmed_mean_of(samples(replies, c[n - 1].id@)));
        assert(mean.bits <= hundred().bits);
        lemma_integer(100);
        let m = units(mean.bits as nat);
        assert(m * 0 == 0) by (nonlinear_arith);
        lemma_pow2_pos(UNIT_SHIFT as nat);
        lemma_nothing(one());
        lemma_nothing(1);
    }
}

pub(crate) proof fn lemma_nothing(d: nat)
    requires
        d > 0,
    ensures
        nearest(0, d) == 0,
{
    lemma2_to64();
    assert(0nat / d == 0) by (nonlinear_arith)
        requires
            d > 0,
    ;
    assert(d * pow2(0) == d);
    assert(0nat % d == 0) by (nonlinear_arith)
        requires
            d > 0,
    ;
}

/// The total score of a document lies between zero and one hundred, whatever finite weights the
/// contest has and whatever numbers the judges wrote.
pub proof fn law_total_in_range(c: Seq<Criterion>, replies: Seq<JudgeResult>)
    requires
        usable_weights(c),
        forall|i: int| 0 <= i < replies.len() ==> has_numbers(#[trigger] replies[i]),
        0 < c.len() <= MANY,
        replies.len() <= MANY_SCORES,
        replies.len() <= usize::MAX,
    ensures
        unsigned(total_score(c, replies)).bits <= hundred().bits,
{
    assert forall|i: int| 0 <= i < c.len() implies unsigned(
        trimmed_mean_of(samples(replies, (#[trigger] c[i]).id@)),
    ).bits <= hundred().bits by {
        let v = samples(replies, c[i].id@);
        lemma_samples_len(replies, c[i].id@);
        assert forall|k: int| 0 <= k < v.len() implies unsigned(#[trigger] v[k]).bits
            <= hundred().bits by {
            law_samples_in_range(replies, c[i].id@, k);
        }
        law_trimmed_mean_in_range(v);
    }
    lemma_weights_sum(c);
    if weights_sum(c).bits < INFINITE {
        lemma_weighted_small(c, replies);
    } else {
        lemma_weighted_zero(c, replies, c.len());
        lemma_zero_units();
    }
    lemma_to_one_decimal(total_of(terms(c, replies, c.len())));
    let all = terms(c, replies, c.len());
    assert forall|i: int| 0 <= i < all.len() implies (#[trigger] all[i]).not_negative() by {
        lemma_term_not_negative(c, replies, i);
    }
    lemma_sum_is_total(all);
}

proof fn lemma_term_not_negative(c: Seq<Criterion>, replies: Seq<JudgeResult>, i: int)
    ensures
        term(c, replies, i).not_negative(),
{
    let mean = unsigned(trimmed_mean_of(samples(replies, c[i].id@)));
    lemma_nearest_range(
        units(mean.bits as nat) * units(share(c, i).bits as nat),
        one(),
    );
}

proof fn lemma_samples_len(replies: Seq<JudgeResult>, id: Seq<char>)
    ensures
        samples(replies, id).len() <= replies.len(),
    decreases replies.len(),
{
    if replies.len() > 0 {
        lemma_samples_len(replies.drop_last(), id);
    }
}

/// Twice a number of units is rounded to twice the number.
proof fn lemma_nearest_twice(n: nat)
    requires
        nearest(2 * n, 1) < INFINITE,
    ensures
        nearest(n, 1) < INFINITE,
        units(nearest(2 * n, 1)) == 2 * units(nearest(n, 1)),
{
    law_rounding_keeps_order(n, 1, 2 * n, 1);
    lemma_nearest_units(n, 1);
    lemma_nearest_units(2 * n, 1);
    assert(n / 1 == n && (2 * n) / 1 == 2 * n);
    let e = quantum(n);
    let f = quantum(2 * n);
    let p = pow2(e);
    lemma_pow2_pos(e);
    lemma2_to64();
    assert(1 * p == p);
    if e == 0 {
        assert(half_even(n, 1) == n);
        assert(n * 1 == n);
        if f == 0 {
            assert(half_even(2 * n, 1) == 2 * n);
            assert((2 * n) * 1 == 2 * n);
        } else {
            assert((2 * n) / 2 == n);
            assert(f == 1);
            assert(pow2(1) == 2);
            assert(half_even(2 * n, 2) == n);
        }
    } else {
        assert((2 * n) / 2 == n);
        assert(f == e + 1);
        lemma_pow2_unfold(f);
        assert(1 * pow2(f) == 2 * p);
        lemma_half_even_scale(n, p, 2);
        assert(n * 2 == 2 * n && p * 2 == 2 * p);
        let h = half_even(n, p);
        assert(h * (2 * p) == 2 * (h * p)) by (nonlinear_arith);
    }
}

/// Whether criteria differ in their weights alone, each of which is twice that of the other.
pub open spec fn doubled(c: Seq<Criterion>, d: Seq<Criterion>) -> bool {
    &&& c.len() == d.len()
    &&& forall|i: int|
        0 <= i < c.len() ==> (#[trigger] c[i]).id@ == d[i].id@ && d[i].weight == sum(
            c[i].weight,
            c[i].weight,
        )
}

proof fn lemma_doubled_weight(w: Binary64)
    requires
        usable_weight(w),
        usable_weight(sum(w, w)),
    ensures
        units(sum(w, w).bits as nat) == 2 * units(w.bits as nat),
{
    let u = units(w.bits as nat);
    lemma_nearest_twice(u);
    lemma_exact(w.bits as nat);
    assert(u + u == 2 * u);
}

proof fn lemma_doubled_sum(c: Seq<Criterion>, d: Seq<Criterion>)
    requires
        usable_weights(c),
        usable_weights(d),
        doubled(c, d),
        weights_sum(d).bits < INFINITE,
    ensures
        weights_sum(c).bits < INFINITE,
        units(weights_sum(d).bits as nat) == 2 * units(weights_sum(c).bits as nat),
    decreases c.len(),
{
    if c.len() == 0 {
        lemma_zero_units();
    } else {
        let s = c.drop_last();
        let t = d.drop_last();
        let k = c.len() - 1;
        assert(usable_weight(c[k].weight) && usable_weight(d[k].weight));
        assert(c[k].id@ == d[k].id@);
        assert forall|i: int| 0 <= i < s.len() implies usable_weight(#[trigger] s[i].weight) by {
            assert(usable_weight(c[i].weight));
        }
        assert forall|i: int| 0 <= i < t.len() implies usable_weight(#[trigger] t[i].weight) by {
            assert(usable_weight(d[i].weight));
        }
        assert forall|i: int| 0 <= i < s.len() implies (#[trigger] s[i]).id@ == t[i].id@
            && t[i].weight == sum(s[i].weight, s[i].weight) by {
            assert(c[i].id@ == d[i].id@);
        }
        lemma_sum_finite(weights_sum(t), d[k].weight);
        lemma_doubled_sum(s, t);
        lemma_doubled_weight(c[k].weight);
        let a = units(weights_sum(s).bits as nat);
        let w = units(c[k].weight.bits as nat);
        lemma_nearest_twice(a + w);
        assert(2 * (a + w) == 2 * a + 2 * w);
    }
}

proof fn lemma_sum_finite(a: Binary64, b: Binary64)
    requires
        sum(a, b).bits < INFINITE,
        b.bits < INFINITE,
    ensures
        a.bits < INFINITE,
{
}

/// Only the proportions of the weights count: doubling every weight leaves the total as it is.
pub proof fn law_doubled_weights(
    c: Seq<Criterion>,
    d: Seq<Criterion>,
    replies: Seq<JudgeResult>,
)
    requires
        usable_weights(c),
        usable_weights(d),
        doubled(c, d),
        weights_sum(d).bits < INFINITE,
    ensures
        total_score(d, replies) == total_score(c, replies),
{
    lemma_doubled_sum(c, d);
    let s = units(weights_sum(c).bits as nat);
    assert forall|i: int| 0 <= i < c.len() implies term(c, replies, i) == term(d, replies, i) by {
        assert(c[i].id@ == d[i].id@);
        assert(usable_weight(c[i].weight) && usable_weight(d[i].weight));
        lemma_doubled_weight(c[i].weight);
        let w = units(c[i].weight.bits as nat);
        let u = one();
        lemma_zero_units();
        lemma_sum_positive(c, i);
        lemma_nearest_scale(w * u, s, 2);
        assert((w * u) * 2 == (2 * w) * u) by (nonlinear_arith);
        assert(s * 2 == 2 * s);
        assert(share(c, i) == share(d, i));
    }
    assert(terms(c, replies, c.len()) =~= terms(d, replies, d.len()));
}

proof fn lemma_sum_positive(c: Seq<Criterion>, i: int)
    requires
        usable_weights(c),
        0 <= i < c.len(),
        weights_sum(c).bits < INFINITE,
    ensures
        units(weights_sum(c).bits as nat) > 0,
        weights_sum(c).bits > 0,
{
    let s = c.drop_last();
    let w = c[c.len() - 1].weight;
    assert(usable_weight(w));
    lemma_zero_units();
    lemma_units_order(0, w.bits as nat);
    lemma_sum_finite(weights_sum(s), w);
    let a = units(weights_sum(s).bits as nat);
    let b = units(w.bits as nat);
    law_rounding_keeps_order(b, 1, a + b, 1);
    lemma_exact(w.bits as nat);
    assert(weights_sum(c).bits >= w.bits);
    lemma_units_order(0, weights_sum(c).bits as nat);
}

} // verus!
