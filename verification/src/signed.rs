//! Sums and means of binary64 numbers of either sign, by way of their sizes.

use crate::binary64::{
    fraction, half_even, lemma_units_order, nearest, not_a_number, one, quantum, quotient, sum,
    units, unsigned, Binary64, HIDDEN, INFINITE, NOT_A_NUMBER, SIGN, UNIT_SHIFT,
};
use vstd::arithmetic::power2::{lemma2_to64, lemma_pow2_pos, pow2};
use vstd::prelude::*;

verus! {

/// A number without its sign.
pub open spec fn size(a: Binary64) -> Binary64 {
    Binary64 { bits: a.bits % SIGN }
}

/// Whether a number is below positive zero: it carries a sign.
pub open spec fn has_sign(a: Binary64) -> bool {
    a.bits >= SIGN
}

/// A number without a sign, given one or not.
pub open spec fn with_sign(a: Binary64, negative: bool) -> Binary64 {
    if negative {
        Binary64 { bits: (a.bits + SIGN) as u64 }
    } else {
        a
    }
}

/// A number with the other sign.
pub open spec fn negated(a: Binary64) -> Binary64 {
    with_sign(size(a), !has_sign(a))
}

/// Whether this is a number, and not infinite.
pub open spec fn finite(a: Binary64) -> bool {
    size(a).bits < INFINITE
}

/// Whether this is one of the two infinities.
pub open spec fn infinite(a: Binary64) -> bool {
    size(a).bits == INFINITE
}

/// The value of a finite number, counted in units.
pub open spec fn signed_units(a: Binary64) -> int {
    if has_sign(a) {
        -(units(size(a).bits as nat) as int)
    } else {
        units(size(a).bits as nat) as int
    }
}

/// The number nearest to a number of units.
pub open spec fn nearest_number(n: int) -> Binary64 {
    if n < 0 {
        with_sign(Binary64 { bits: nearest((-n) as nat, 1) as u64 }, true)
    } else {
        Binary64 { bits: nearest(n as nat, 1) as u64 }
    }
}

/// The sum of two numbers, rounded. Two negative zeros make a negative zero, any other numbers that
/// cancel out make a positive one.
pub open spec fn signed_sum(a: Binary64, b: Binary64) -> Binary64 {
    if not_a_number(a) || not_a_number(b) {
        Binary64 { bits: NOT_A_NUMBER }
    } else if infinite(a) && infinite(b) && a != b {
        Binary64 { bits: NOT_A_NUMBER }
    } else if infinite(a) {
        a
    } else if infinite(b) {
        b
    } else if a.bits == SIGN && b.bits == SIGN {
        a
    } else {
        nearest_number(signed_units(a) + signed_units(b))
    }
}

/// The quotient of a number and one without a sign, rounded.
pub open spec fn signed_quotient(a: Binary64, b: Binary64) -> Binary64 {
    let q = quotient(size(a), b);
    if not_a_number(q) {
        Binary64 { bits: NOT_A_NUMBER }
    } else {
        with_sign(q, has_sign(a))
    }
}

/// Whether two are numbers, and equal. The two zeros are.
pub open spec fn equal(a: Binary64, b: Binary64) -> bool {
    !not_a_number(a) && !not_a_number(b) && unsigned(a) == unsigned(b)
}

pub(crate) proof fn lemma_nearest_range(n: nat, d: nat)
    ensures
        nearest(n, d) <= INFINITE,
{
    let e = quantum(n / d);
    assert(e * HIDDEN >= 0) by (nonlinear_arith);
}

pub(crate) proof fn lemma_no_units()
    ensures
        units(0) == 0,
        nearest(0, 1) == 0,
{
    lemma2_to64();
    assert(units(0) == 0 * pow2(0));
    assert(quantum(0) == 0);
}

/// The sign of a zero in a sum makes no difference but for the sign of a zero.
pub(crate) proof fn lemma_sum_unsigned(a: Binary64, b: Binary64)
    ensures
        unsigned(signed_sum(a, b)) == unsigned(signed_sum(unsigned(a), unsigned(b))),
{
    lemma_no_units();
}

/// The sum of two finite numbers, or of an infinity and a finite number, is a number.
pub(crate) proof fn lemma_sum_is_number(a: Binary64, b: Binary64)
    requires
        !not_a_number(a),
        finite(b),
    ensures
        !not_a_number(signed_sum(a, b)),
{
    let n = signed_units(a) + signed_units(b);
    if n < 0 {
        lemma_nearest_range((-n) as nat, 1);
    } else {
        lemma_nearest_range(n as nat, 1);
    }
}

/// The sum of two numbers that are not below zero, by the sum without signs.
pub(crate) proof fn lemma_sum_not_negative(a: Binary64, b: Binary64)
    requires
        a.not_negative(),
        b.not_negative(),
    ensures
        signed_sum(a, b).not_negative(),
        unsigned(signed_sum(a, b)) == sum(unsigned(a), unsigned(b)),
        signed_sum(a, b).bits == SIGN <==> a.bits == SIGN && b.bits == SIGN,
{
    lemma_no_units();
    lemma_nearest_range(units(size(a).bits as nat) + units(size(b).bits as nat), 1);
    lemma_nearest_range(
        units(unsigned(a).bits as nat) + units(unsigned(b).bits as nat),
        1,
    );
}

pub(crate) proof fn lemma_quotient_range(a: Binary64, b: Binary64)
    ensures
        quotient(a, b).nonneg(),
{
    lemma_nearest_range(units(a.bits as nat) * one(), units(b.bits as nat));
}

/// A count is a number above zero.
pub(crate) proof fn lemma_count(n: nat)
    requires
        n > 0,
    ensures
        0 < fraction(n, 1).bits <= INFINITE,
{
    let u = one();
    lemma_pow2_pos(UNIT_SHIFT as nat);
    let m = n * u;
    assert(m > 0) by (nonlinear_arith)
        requires
            m == n * u,
            n > 0,
            u > 0,
    ;
    lemma_nearest_range(m, 1);
    lemma2_to64();
    assert(m / 1 == m);
    let e = quantum(m);
    if e > 0 {
        assert(e * HIDDEN > 0) by (nonlinear_arith)
            requires
                e > 0,
        ;
    } else {
        assert(half_even(m, 1) == m);
    }
}

/// Nothing in parts is nothing.
pub(crate) proof fn lemma_nothing_divided(b: Binary64)
    requires
        0 < b.bits <= INFINITE,
    ensures
        quotient(Binary64 { bits: 0 }, b).bits == 0,
{
    lemma_no_units();
    if b.bits < INFINITE {
        let d = units(b.bits as nat);
        lemma_units_order(0, b.bits as nat);
        assert(0 * one() == 0) by (nonlinear_arith);
        assert(0nat / d == 0 && 0nat % d == 0) by (nonlinear_arith)
            requires
                d > 0,
        ;
        lemma2_to64();
        let p = pow2(0);
        assert(d * p == d) by (nonlinear_arith)
            requires
                p == 1,
        ;
    }
}

impl Binary64 {
    /// This number without its sign.
    fn without_sign(self) -> (r: Binary64)
        ensures
            r == size(self),
    {
        Binary64 { bits: self.bits % SIGN }
    }

    /// This number without a sign, given one or not.
    fn signed(self, negative: bool) -> (r: Binary64)
        requires
            self.bits < SIGN,
        ensures
            r == with_sign(self, negative),
    {
        if negative {
            Binary64 { bits: self.bits + SIGN }
        } else {
            self
        }
    }

    /// This number with the other sign.
    pub fn negative(self) -> (r: Binary64)
        ensures
            r == negated(self),
    {
        self.without_sign().signed(self.bits < SIGN)
    }

    /// The sum of two numbers of either sign.
    pub fn plus_signed(self, other: Binary64) -> (r: Binary64)
        ensures
            r == signed_sum(self, other),
    {
        if self.is_nan() || other.is_nan() {
            return Binary64 { bits: NOT_A_NUMBER };
        }
        let a = self.without_sign();
        let b = other.without_sign();
        if a.bits == INFINITE {
            if b.bits == INFINITE && self.bits != other.bits {
                return Binary64 { bits: NOT_A_NUMBER };
            }
            return self;
        }
        if b.bits == INFINITE {
            return other;
        }
        if self.bits == SIGN && other.bits == SIGN {
            return self;
        }
        let negative = self.bits >= SIGN;
        proof {
            lemma_no_units();
            if a.bits > 0 {
                lemma_units_order(0, a.bits as nat);
            }
            if b.bits > 0 {
                lemma_units_order(0, b.bits as nat);
            }
            if a.bits <= b.bits {
                lemma_units_order(a.bits as nat, b.bits as nat);
            } else {
                lemma_units_order(b.bits as nat, a.bits as nat);
            }
        }
        if negative == (other.bits >= SIGN) {
            a.plus(b).signed(negative)
        } else if a.bits == b.bits {
            Binary64 { bits: 0 }
        } else if a.bits > b.bits {
            a.minus(b).signed(negative)
        } else {
            b.minus(a).signed(!negative)
        }
    }

    /// The quotient of this number and one without a sign.
    pub fn over_unsigned(self, other: Binary64) -> (r: Binary64)
        requires
            other.nonneg(),
        ensures
            r == signed_quotient(self, other),
    {
        if self.is_nan() {
            return Binary64 { bits: NOT_A_NUMBER };
        }
        let q = self.without_sign().over(other);
        if q.is_nan() {
            Binary64 { bits: NOT_A_NUMBER }
        } else {
            q.signed(self.bits >= SIGN)
        }
    }
}

} // verus!
