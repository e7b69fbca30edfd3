//! What the operations on binary64 numbers compute, told by the values of the numbers.

use crate::binary64::{
    difference, fraction, half_even, integer_part, is_below, lemma_exact, lemma_units_order,
    nearest, not_a_number, one, product, quotient, reaches, rounded, sum, units, unsigned, Binary64,
    INFINITE, SIGN, UNIT_SHIFT,
};
use crate::nearness::{distance, law_rounds_to_nearest};
use crate::render::{decimals, fixed, last_digits, ten_to};
use crate::signed::{
    finite, has_sign, infinite, lemma_nearest_range, lemma_no_units, signed_sum, signed_units, size,
};
use crate::text::decimal;
use crate::words::value_of;
use vstd::arithmetic::div_mod::{lemma_fundamental_div_mod, lemma_fundamental_div_mod_converse};
use vstd::arithmetic::power2::{
    lemma2_to64, lemma2_to64_rest, lemma_pow2_adds, lemma_pow2_pos, pow2,
};
use vstd::prelude::*;
use vstd::string::*;

verus! {

/// The value of a pattern: its lower 52 bits with a leading one, times a power of two that the bits
/// above them give; without the leading one where these bits are zero. One is as many units as they
/// say.
pub proof fn law_pattern(e: nat, m: nat)
    requires
        e < 2047,
        m < 0x10_0000_0000_0000,
    ensures
        e == 0 ==> units(m) == m,
        e > 0 ==> units(e * 0x10_0000_0000_0000 + m) == (0x10_0000_0000_0000 + m) * pow2(
            (e - 1) as nat,
        ),
        one() == pow2(1074),
        units(0x3ff0_0000_0000_0000) == one(),
{
    lemma2_to64();
    lemma2_to64_rest();
    lemma_pow2_adds(52, 1022);
    if e == 0 {
        assert(m * pow2(0) == m);
    } else {
        let b = e * 0x10_0000_0000_0000 + m;
        assert(b / 0x10_0000_0000_0000 == e && b % 0x10_0000_0000_0000 == m);
    }
    assert(0x3ff0_0000_0000_0000nat / 0x10_0000_0000_0000 == 1023);
    assert(0x3ff0_0000_0000_0000nat % 0x10_0000_0000_0000 == 0);
    assert(units(0x3ff0_0000_0000_0000) == 0x10_0000_0000_0000 * pow2(1022));
}

/// No finite number is nearer to the exact sum, or the exact difference of a number and one that is
/// not above it, than the one computed.
pub proof fn law_sum_is_nearest(a: Binary64, b: Binary64, c: Binary64)
    requires
        a.bits < INFINITE,
        b.bits < INFINITE,
        c.bits < INFINITE,
    ensures
        sum(a, b).bits < INFINITE ==> distance(
            units(sum(a, b).bits as nat),
            units(a.bits as nat) + units(b.bits as nat),
        ) <= distance(units(c.bits as nat), units(a.bits as nat) + units(b.bits as nat)),
        sum(a, b) == sum(b, a),
        units(a.bits as nat) + units(b.bits as nat) == units(c.bits as nat) ==> sum(a, b) == c,
        b.bits <= a.bits && difference(a, b).bits < INFINITE ==> distance(
            units(difference(a, b).bits as nat),
            (units(a.bits as nat) - units(b.bits as nat)) as nat,
        ) <= distance(
            units(c.bits as nat),
            (units(a.bits as nat) - units(b.bits as nat)) as nat,
        ),
        units(c.bits as nat) + units(b.bits as nat) == units(a.bits as nat) ==> difference(a, b)
            == c,
{
    let n = units(a.bits as nat) + units(b.bits as nat);
    lemma_nearest_range(n, 1);
    let x = units(c.bits as nat);
    if sum(a, b).bits < INFINITE {
        law_rounds_to_nearest(n, 1, c.bits as nat);
        let y = units(sum(a, b).bits as nat);
        assert(y * 1 == y && x * 1 == x);
    }
    lemma_exact(c.bits as nat);
    if b.bits <= a.bits {
        lemma_units_order(b.bits as nat, a.bits as nat);
        let m = (units(a.bits as nat) - units(b.bits as nat)) as nat;
        lemma_nearest_range(m, 1);
        if difference(a, b).bits < INFINITE {
            law_rounds_to_nearest(m, 1, c.bits as nat);
            let y = units(difference(a, b).bits as nat);
            assert(y * 1 == y && x * 1 == x);
        }
    }
}

/// No finite number is nearer to the exact product than the one computed.
pub proof fn law_product_is_nearest(a: Binary64, b: Binary64, c: Binary64)
    requires
        a.bits < INFINITE,
        b.bits < INFINITE,
        c.bits < INFINITE,
    ensures
        product(a, b).bits < INFINITE ==> distance(
            units(product(a, b).bits as nat) * one(),
            units(a.bits as nat) * units(b.bits as nat),
        ) <= distance(
            units(c.bits as nat) * one(),
            units(a.bits as nat) * units(b.bits as nat),
        ),
        product(a, b) == product(b, a),
{
    let x = units(a.bits as nat);
    let y = units(b.bits as nat);
    lemma_pow2_pos(UNIT_SHIFT as nat);
    lemma_nearest_range(x * y, one());
    assert(x * y == y * x) by (nonlinear_arith);
    if product(a, b).bits < INFINITE {
        law_rounds_to_nearest(x * y, one(), c.bits as nat);
    }
}

/// No finite number is nearer to the exact quotient than the one computed.
pub proof fn law_quotient_is_nearest(a: Binary64, b: Binary64, c: Binary64)
    requires
        a.bits < INFINITE,
        0 < b.bits < INFINITE,
        c.bits < INFINITE,
    ensures
        quotient(a, b).bits < INFINITE ==> distance(
            units(quotient(a, b).bits as nat) * units(b.bits as nat),
            units(a.bits as nat) * one(),
        ) <= distance(
            units(c.bits as nat) * units(b.bits as nat),
            units(a.bits as nat) * one(),
        ),
{
    let x = units(a.bits as nat);
    let y = units(b.bits as nat);
    lemma_no_units();
    lemma_units_order(0, b.bits as nat);
    lemma_nearest_range(x * one(), y);
    if quotient(a, b).bits < INFINITE {
        law_rounds_to_nearest(x * one(), y, c.bits as nat);
    }
}

/// A number is below another if and only if its value is less; and it reaches another if and only if
/// its value is not less. Infinite ones are beyond all finite ones of their sign.
pub proof fn law_order_of_values(a: Binary64, b: Binary64)
    ensures
        finite(a) && finite(b) ==> (is_below(a, b) <==> signed_units(a) < signed_units(b)),
        finite(a) && finite(b) ==> (reaches(a, b) <==> signed_units(a) >= signed_units(b)),
        finite(a) && infinite(b) ==> (is_below(a, b) <==> !has_sign(b)),
        finite(b) && infinite(a) ==> (is_below(a, b) <==> has_sign(a)),
        not_a_number(a) || not_a_number(b) ==> !is_below(a, b) && !reaches(a, b),
{
    lemma_no_units();
    if finite(a) && finite(b) {
        let x = size(a).bits as nat;
        let y = size(b).bits as nat;
        lemma_units_order(0, x);
        lemma_units_order(0, y);
        if x <= y {
            lemma_units_order(x, y);
        } else {
            lemma_units_order(y, x);
        }
    }
}

/// The sum of finite numbers of either sign is the number nearest to the exact one: the other way
/// round it is the same, and it is exact where the exact sum is a number.
pub proof fn law_signed_sum(a: Binary64, b: Binary64, c: Binary64)
    requires
        finite(a),
        finite(b),
        finite(c),
    ensures
        signed_sum(a, b) == signed_sum(b, a),
        signed_units(a) + signed_units(b) == signed_units(c) ==> unsigned(signed_sum(a, b))
            == unsigned(c),
{
    lemma_no_units();
    lemma_exact(size(c).bits as nat);
    if size(c).bits > 0 {
        lemma_units_order(0, size(c).bits as nat);
    }
}

/// The integer part of a number is the greatest whole number that is not above it, unless the limit
/// is less.
pub proof fn law_integer_part(a: Binary64, max: u64)
    requires
        a.bits < INFINITE,
    ensures
        integer_part(a, max) <= max,
        integer_part(a, max) * one() <= units(a.bits as nat),
        integer_part(a, max) < max ==> units(a.bits as nat) < (integer_part(a, max) + 1) * one(),
{
    let u = one();
    let x = units(a.bits as nat);
    lemma_pow2_pos(UNIT_SHIFT as nat);
    lemma_fundamental_div_mod(x as int, u as int);
    let q = x / u;
    assert(q * u <= x < (q + 1) * u) by (nonlinear_arith)
        requires
            x == u * q + x % u,
            0 <= x % u < u,
    ;
    let m = max as nat;
    if q > m {
        assert(m * u <= q * u) by (nonlinear_arith)
            requires
                m <= q,
        ;
    }
}

/// A number is rounded to the whole number nearest to it, and from the middle of two to the greater.
pub proof fn law_rounded(a: Binary64, k: nat)
    requires
        a.bits < INFINITE,
        (2 * k - 1) * one() <= 2 * units(a.bits as nat) < (2 * k + 1) * one(),
    ensures
        rounded(a) == fraction(k, 1),
{
    let u = one();
    let x = units(a.bits as nat);
    lemma_pow2_pos(UNIT_SHIFT as nat);
    let n = 2 * x + u;
    let d = 2 * u;
    assert(k * d <= n < k * d + d) by (nonlinear_arith)
        requires
            (2 * k - 1) * u <= 2 * x < (2 * k + 1) * u,
            n == 2 * x + u,
            d == 2 * u,
    ;
    lemma_fundamental_div_mod_converse(n as int, d as int, k as int, n - k * d);
}

proof fn lemma_last_digits(n: nat, k: nat)
    ensures
        last_digits(n, k).len() == k,
        forall|i: int| 0 <= i < k ==> '0' <= #[trigger] last_digits(n, k)[i] <= '9',
        ten_to(k) > 0,
        value_of(last_digits(n, k)) == n % ten_to(k),
    decreases k,
{
    let s = last_digits(n, k);
    if k == 0 {
        assert(n % 1 == 0);
    } else {
        let m = n / 10;
        let j = (k - 1) as nat;
        lemma_last_digits(m, j);
        let t = ten_to(j);
        assert(s.drop_last() =~= last_digits(m, j));
        assert forall|i: int| 0 <= i < k implies '0' <= #[trigger] s[i] <= '9' by {
            if i < j {
                assert(s[i] == last_digits(m, j)[i]);
            }
        }
        assert(s.last() as int - '0' as int == n % 10);
        let q = m / t;
        let r = m % t;
        lemma_fundamental_div_mod(m as int, t as int);
        assert(n == 10 * m + n % 10);
        assert(n == q * (10 * t) + (10 * r + n % 10)) by (nonlinear_arith)
            requires
                n == 10 * m + n % 10,
                m == t * q + r,
        ;
        assert(10 * r + n % 10 < 10 * t);
        lemma_fundamental_div_mod_converse(
            n as int,
            (10 * t) as int,
            q as int,
            (10 * r + n % 10) as int,
        );
    }
}

/// A finite number without a sign is rendered as a whole number of units of the last decimal: the
/// nearest one to its value, in decimal, with a point before the last `k` digits.
pub proof fn law_fixed(a: Binary64, k: nat) -> (n: nat)
    requires
        a.bits < INFINITE,
    ensures
        2 * (n * one()) <= 2 * (units(a.bits as nat) * ten_to(k)) + one(),
        2 * (units(a.bits as nat) * ten_to(k)) <= 2 * (n * one()) + one(),
        k == 0 ==> fixed(a, k) == decimal(n),
        k > 0 ==> exists|tail: Seq<char>|
            fixed(a, k) == decimal(n / ten_to(k)) + seq!['.'] + tail && tail.len() == k
                && #[trigger] value_of(tail) == n % ten_to(k) && forall|i: int|
                0 <= i < k ==> '0' <= #[trigger] tail[i] <= '9',
{
    let u = one();
    lemma_pow2_pos(UNIT_SHIFT as nat);
    let x = units(a.bits as nat) * ten_to(k);
    let n = half_even(x, u);
    let q = x / u;
    let r = x % u;
    lemma_fundamental_div_mod(x as int, u as int);
    assert(q * u + r == x) by (nonlinear_arith)
        requires
            x == u * q + r,
    ;
    assert((q + 1) * u == q * u + u) by (nonlinear_arith);
    assert(2 * (n * u) <= 2 * x + u && 2 * x <= 2 * (n * u) + u);
    assert(a.bits % SIGN == a.bits);
    let e = Seq::<char>::empty();
    assert(e + decimals(n, k) =~= decimals(n, k));
    if k > 0 {
        lemma_last_digits(n, k);
        let tail = last_digits(n, k);
        assert(value_of(tail) == n % ten_to(k));
    }
    n
}

/// A number with a sign is rendered as the one without it, with a minus before it.
pub proof fn law_fixed_sign(a: Binary64, k: nat)
    requires
        a.bits <= INFINITE,
    ensures
        fixed(Binary64 { bits: (a.bits + SIGN) as u64 }, k) == seq!['-'] + fixed(a, k),
{
    reveal_strlit("-");
    reveal_strlit("inf");
    assert("-"@ =~= seq!['-']);
    let b = Binary64 { bits: (a.bits + SIGN) as u64 };
    assert(b.bits % SIGN == a.bits);
    let e = Seq::<char>::empty();
    assert(e + "inf"@ =~= "inf"@);
    let m = half_even(units(a.bits as nat) * ten_to(k), one());
    assert(e + decimals(m, k) =~= decimals(m, k));
}

/// Rounding takes the nearest whole number, and of two that are equally near the even one.
pub proof fn law_half_even(n: nat, d: nat)
    requires
        d > 0,
    ensures
        2 * distance(half_even(n, d) * d, n) <= d,
        2 * distance(half_even(n, d) * d, n) == d ==> half_even(n, d) % 2 == 0,
{
    let q = n / d;
    let r = n % d;
    lemma_fundamental_div_mod(n as int, d as int);
    assert(q * d + r == n && (q + 1) * d == q * d + d) by (nonlinear_arith)
        requires
            n == d * q + r,
    ;
}

} // verus!
