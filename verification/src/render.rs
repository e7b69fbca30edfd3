//! Decimal rendering of binary64 numbers with a fixed number of decimals.

use crate::binary64::{
    half_even, lemma_half_even_scale, lemma_whole, not_a_number, one, rounded_quotient, units,
    Binary64, INFINITE, SIGN, UNIT_SHIFT,
};
use crate::text::{decimal, decimal_string, digit};
use vstd::arithmetic::div_mod::{lemma_fundamental_div_mod, lemma_fundamental_div_mod_converse};
use vstd::arithmetic::power2::{
    lemma2_to64, lemma2_to64_rest, lemma_pow2_adds, lemma_pow2_pos, lemma_pow2_strictly_increases,
    lemma_pow2_unfold, pow2,
};
use vstd::prelude::*;
use vstd::string::*;

verus! {

/// Ten to the `k`.
pub open spec fn ten_to(k: nat) -> nat
    decreases k,
{
    if k == 0 {
        1
    } else {
        10 * ten_to((k - 1) as nat)
    }
}

/// The last `k` decimal digits of `n`.
pub open spec fn last_digits(n: nat, k: nat) -> Seq<char>
    decreases k,
{
    if k == 0 {
        Seq::empty()
    } else {
        last_digits(n / 10, (k - 1) as nat).push(digit(n % 10))
    }
}

/// `n / 10^k` in decimal, with `k` decimals.
pub open spec fn decimals(n: nat, k: nat) -> Seq<char> {
    if k == 0 {
        decimal(n)
    } else {
        decimal(n / ten_to(k)) + seq!['.'] + last_digits(n, k)
    }
}

/// A number with `k` decimals: the exact value to the nearest such decimal, ties to even.
pub open spec fn fixed(a: Binary64, k: nat) -> Seq<char> {
    let magnitude = (a.bits % SIGN) as nat;
    let sign = if a.bits >= SIGN {
        "-"@
    } else {
        Seq::empty()
    };
    if not_a_number(a) {
        "NaN"@
    } else if magnitude == INFINITE {
        sign + "inf"@
    } else {
        sign + decimals(half_even(units(magnitude) * ten_to(k), one()), k)
    }
}

/// The number whose decimal digits, from the last to the first, are given.
spec fn value(v: Seq<u8>) -> nat
    decreases v.len(),
{
    if v.len() == 0 {
        0
    } else {
        v[0] as nat + 10 * value(v.drop_first())
    }
}

/// Whether the digits are decimal digits and the first one is not a needless zero.
spec fn plain(v: Seq<u8>) -> bool {
    &&& v.len() > 0
    &&& forall|i: int| 0 <= i < v.len() ==> v[i] < 10
    &&& v.len() == 1 || v.last() > 0
}

proof fn lemma_value_push(v: Seq<u8>, d: u8)
    ensures
        value(v.push(d)) == value(v) + d * ten_to(v.len()),
    decreases v.len(),
{
    if v.len() == 0 {
        assert(v.push(d).drop_first() == Seq::<u8>::empty());
        assert(value(v.push(d).drop_first()) == 0);
        assert(ten_to(0) == 1);
        assert(d * ten_to(0) == d) by (nonlinear_arith)
            requires
                ten_to(0) == 1,
        ;
    } else {
        assert(v.push(d)[0] == v[0]);
        assert(v.push(d).drop_first() == v.drop_first().push(d));
        lemma_value_push(v.drop_first(), d);
        assert(10 * (d * ten_to((v.len() - 1) as nat)) == d * ten_to(v.len())) by (nonlinear_arith)
            requires
                ten_to(v.len()) == 10 * ten_to((v.len() - 1) as nat),
        ;
    }
}

proof fn lemma_value_positive(v: Seq<u8>)
    requires
        v.len() > 0,
        v.last() > 0,
    ensures
        value(v) > 0,
    decreases v.len(),
{
    if v.len() > 1 {
        assert(v.drop_first().last() == v.last());
        lemma_value_positive(v.drop_first());
    }
}

/// The characters of the digits, first digit first.
spec fn spelled(v: Seq<u8>) -> Seq<char> {
    Seq::new(v.len(), |i: int| digit(v[v.len() - 1 - i] as nat))
}

proof fn lemma_spelled(v: Seq<u8>)
    requires
        plain(v),
    ensures
        spelled(v) == decimal(value(v)),
    decreases v.len(),
{
    if v.len() == 1 {
        assert(value(v.drop_first()) == 0);
        assert(spelled(v) =~= seq![digit(v[0] as nat)]);
    } else {
        let rest = v.drop_first();
        assert(rest.last() == v.last());
        lemma_value_positive(rest);
        lemma_spelled(rest);
        assert(value(v) / 10 == value(rest));
        assert(value(v) % 10 == v[0]);
        assert(spelled(v) =~= spelled(rest).push(digit(v[0] as nat)));
    }
}

/// Doubles the number whose digits are given.
fn double(v: &mut Vec<u8>)
    requires
        plain(old(v)@),
        value(old(v)@) > 0,
    ensures
        plain(final(v)@),
        value(final(v)@) == 2 * value(old(v)@),
{
    let ghost before = v@;
    let mut carry: u8 = 0;
    let mut i: usize = 0;
    let n: usize = v.len();
    while i < n
        invariant
            i <= n,
            n == v.len() == before.len(),
            carry <= 1,
            forall|j: int| 0 <= j < n ==> v@[j] < 10,
            forall|j: int| 0 <= j < n ==> before[j] < 10,
            forall|j: int| i <= j < n ==> v@[j] == before[j],
            value(v@.take(i as int)) + carry * ten_to(i as nat) == 2 * value(before.take(i as int)),
            i > 0 && carry == 0 && before[i - 1] > 0 ==> v@[i - 1] > 0,
        decreases n - i,
    {
        let ghost was = v@;
        let d: u8 = 2 * v[i] + carry;
        let digit_now: u8 = d % 10;
        let ghost old_carry = carry;
        v.set(i, digit_now);
        carry = d / 10;
        proof {
            assert(v@.take(i + 1) == was.take(i as int).push(digit_now));
            lemma_value_push(was.take(i as int), digit_now);
            assert(before.take(i + 1) == before.take(i as int).push(before[i as int]));
            lemma_value_push(before.take(i as int), before[i as int]);
            let t = ten_to(i as nat);
            let b = before[i as int];
            assert(ten_to((i + 1) as nat) == 10 * t);
            assert(digit_now * t + carry * (10 * t) == 2 * (b * t) + old_carry * t)
                by (nonlinear_arith)
                requires
                    digit_now + 10 * carry == 2 * b + old_carry,
            ;
        }
        i += 1;
    }
    assert(v@.take(n as int) == v@);
    assert(before.take(n as int) == before);
    if carry > 0 {
        proof {
            lemma_value_push(v@, 1);
        }
        v.push(carry);
    }
}

/// `m * 2^z` in decimal.
fn scaled_decimal(m: u64, z: u32) -> (s: String)
    requires
        m > 0,
    ensures
        s@ == decimal(m as nat * pow2(z as nat)),
{
    let mut v: Vec<u8> = Vec::new();
    let mut rest: u64 = m;
    assert(ten_to(0) == 1);
    assert(rest * ten_to(0) == m);
    while rest >= 10
        invariant
            rest > 0,
            forall|j: int| 0 <= j < v@.len() ==> v@[j] < 10,
            value(v@) + rest * ten_to(v@.len()) == m,
        decreases rest,
    {
        let d: u8 = (rest % 10) as u8;
        proof {
            lemma_value_push(v@, d);
            let t = ten_to(v@.len());
            let r = rest;
            assert(d * t + (r / 10) * (10 * t) == r * t) by (nonlinear_arith)
                requires
                    d == r % 10,
            ;
        }
        v.push(d);
        rest = rest / 10;
    }
    proof {
        lemma_value_push(v@, rest as u8);
        lemma2_to64();
        assert(m as nat * pow2(0) == m);
    }
    v.push(rest as u8);
    let mut k: u32 = 0;
    while k < z
        invariant
            k <= z,
            plain(v@),
            m > 0,
            value(v@) == m as nat * pow2(k as nat),
        decreases z - k,
    {
        proof {
            lemma_pow2_pos(k as nat);
            lemma_pow2_unfold((k + 1) as nat);
            let p = pow2(k as nat);
            assert(m as nat * p > 0) by (nonlinear_arith)
                requires
                    m > 0,
                    p > 0,
            ;
            assert(m as nat * (2 * p) == 2 * (m as nat * p)) by (nonlinear_arith);
        }
        double(&mut v);
        k += 1;
    }
    let mut s = String::new();
    let mut i: usize = v.len();
    while i > 0
        invariant
            i <= v.len(),
            plain(v@),
            s@ == spelled(v@).take(v@.len() - i),
        decreases i,
    {
        i -= 1;
        s.push((48 + v[i]) as char);
    }
    proof {
        assert(s@ == spelled(v@));
        lemma_spelled(v@);
    }
    s
}

/// The last `k` decimal digits of `n`.
fn last_digits_string(n: u64, k: u32) -> (s: String)
    ensures
        s@ == last_digits(n as nat, k as nat),
    decreases k,
{
    if k == 0 {
        String::new()
    } else {
        let mut s = last_digits_string(n / 10, k - 1);
        s.push((48 + (n % 10) as u8) as char);
        s
    }
}

proof fn lemma_ten_to()
    ensures
        ten_to(0) == 1,
        ten_to(1) == 10,
        ten_to(2) == 100,
        ten_to(3) == 1000,
        ten_to(4) == 10000,
{
    reveal_with_fuel(ten_to, 5);
}

fn power_of_ten(k: u32) -> (r: u64)
    requires
        k <= 4,
    ensures
        r == ten_to(k as nat),
        1 <= r <= 10000,
{
    proof {
        lemma_ten_to();
    }
    if k == 0 {
        1
    } else if k == 1 {
        10
    } else if k == 2 {
        100
    } else if k == 3 {
        1000
    } else {
        10000
    }
}

proof fn lemma_shift_one(t: u32)
    requires
        t <= 100,
    ensures
        1u128 << t == pow2(t as nat),
        0 < 1u128 << t <= 0x100_0000_0000_0000_0000_0000_0000_0000,
    decreases t,
{
    lemma2_to64();
    if t == 0 {
        assert(1u128 << 0u32 == 1u128) by (bit_vector);
    } else {
        let s = (t - 1) as u32;
        lemma_shift_one(s);
        lemma_pow2_unfold(t as nat);
        assert(1u128 << t == 2 * (1u128 << s)) by (bit_vector)
            requires
                0 < t <= 100,
                s == t - 1,
        ;
        assert(1u128 << t <= 0x100_0000_0000_0000_0000_0000_0000_0000) by (bit_vector)
            requires
                t <= 100,
        ;
    }
}

proof fn lemma_fixed_whole(m: nat, e: nat, k: nat)
    requires
        e >= UNIT_SHIFT,
    ensures
        half_even((m * pow2(e)) * ten_to(k), one()) == (m * pow2((e - UNIT_SHIFT) as nat)) * ten_to(
            k,
        ),
{
    lemma_whole(m, e);
    let w = m * pow2((e - UNIT_SHIFT) as nat);
    let t = ten_to(k);
    let o = one();
    assert((w * o) * t == (w * t) * o) by (nonlinear_arith);
    lemma_fundamental_div_mod_converse(((w * t) * o) as int, o as int, (w * t) as int, 0);
}

proof fn lemma_whole_digits(w: nat, k: nat)
    ensures
        ten_to(k) > 0,
        (w * ten_to(k)) / ten_to(k) == w,
        last_digits(w * ten_to(k), k) == last_digits(0, k),
    decreases k,
{
    if k > 0 {
        let j = (k - 1) as nat;
        lemma_whole_digits(w, j);
        let t = ten_to(j);
        assert(w * (10 * t) == 10 * (w * t)) by (nonlinear_arith);
        assert((10 * (w * t)) / 10 == w * t);
        assert((10 * (w * t)) % 10 == 0);
        assert(0nat / 10 == 0);
    }
    lemma_fundamental_div_mod_converse((w * ten_to(k)) as int, ten_to(k) as int, w as int, 0);
}

proof fn lemma_fixed_small(m: nat, e: nat, c: nat)
    requires
        e < UNIT_SHIFT,
    ensures
        half_even((m * pow2(e)) * c, one()) == half_even(m * c, pow2((UNIT_SHIFT - e) as nat)),
{
    let t = (UNIT_SHIFT - e) as nat;
    lemma_pow2_adds(t, e);
    lemma_pow2_pos(t);
    lemma_pow2_pos(e);
    lemma_half_even_scale(m * c, pow2(t), pow2(e));
    assert((m * pow2(e)) * c == (m * c) * pow2(e)) by (nonlinear_arith);
}

proof fn lemma_last_digits_mod(n: nat, k: nat)
    ensures
        ten_to(k) > 0,
        last_digits(n, k) == last_digits(n % ten_to(k), k),
    decreases k,
{
    if k > 0 {
        let j = (k - 1) as nat;
        lemma_last_digits_mod(n / 10, j);
        let t = ten_to(j);
        let r = n % (10 * t);
        lemma_fundamental_div_mod(n as int, (10 * t) as int);
        let q = n / (10 * t);
        assert((10 * t) * q == 10 * (t * q)) by (nonlinear_arith);
        assert(n / 10 == t * q + r / 10);
        assert(r / 10 < t);
        assert(n % 10 == r % 10);
        assert(t * q == q * t) by (nonlinear_arith);
        lemma_fundamental_div_mod_converse((n / 10) as int, t as int, q as int, (r / 10) as int);
        lemma_last_digits_mod(r / 10, j);
    }
}

/// The number with `k` decimals.
pub fn fixed_string(a: Binary64, k: u32) -> (s: String)
    requires
        k <= 4,
    ensures
        s@ == fixed(a, k as nat),
{
    if a.is_nan() {
        return String::from_str("NaN");
    }
    let mut s = String::new();
    if a.bits >= SIGN {
        s = String::from_str("-");
    }
    let magnitude = Binary64 { bits: a.bits % SIGN };
    if magnitude.bits == INFINITE {
        s.append("inf");
        return s;
    }
    let ghost sign = s@;
    let (m, e) = magnitude.parts();
    let c: u64 = power_of_ten(k);
    if e >= UNIT_SHIFT {
        let z: u32 = e - UNIT_SHIFT;
        proof {
            lemma_fixed_whole(m as nat, e as nat, k as nat);
            lemma_whole_digits(m as nat * pow2(z as nat), k as nat);
            assert((m as nat * pow2(z as nat)) * 1 == m as nat * pow2(z as nat));
        }
        s.append(scaled_decimal(m, z).as_str());
        if k > 0 {
            s.push('.');
            s.append(last_digits_string(0, k).as_str());
        }
        assert(s@ == fixed(a, k as nat));
        s
    } else {
        let t: u32 = UNIT_SHIFT - e;
        proof {
            lemma_fixed_small(m as nat, e as nat, c as nat);
            lemma_pow2_pos(t as nat);
        }
        assert(m * c <= 0x20_0000_0000_0000 * 10000) by (nonlinear_arith)
            requires
                m <= 0x20_0000_0000_0000,
                c <= 10000,
        ;
        let n: u128 = if t > 100 {
            proof {
                lemma2_to64();
                lemma2_to64_rest();
                lemma_pow2_adds(64, 36);
                lemma_pow2_strictly_increases(100, t as nat);
                lemma_fundamental_div_mod_converse(
                    (m * c) as int,
                    pow2(t as nat) as int,
                    0,
                    (m * c) as int,
                );
            }
            0
        } else {
            proof {
                lemma_shift_one(t);
            }
            rounded_quotient((m as u128) * (c as u128), 1u128 << t)
        };
        proof {
            lemma_fundamental_div_mod((m * c) as int, pow2(t as nat) as int);
            let p = pow2(t as nat);
            lemma_pow2_unfold(t as nat);
            lemma_pow2_pos((t - 1) as nat);
            assert(n <= (m * c) / 2 + 1) by {
                let q = (m as nat * c as nat) / p;
                let x = m as nat * c as nat;
                assert(2 * q <= x) by (nonlinear_arith)
                    requires
                        x == p * q + x % p,
                        x % p >= 0,
                        p >= 2,
                ;
            }
            lemma_last_digits_mod(n as nat, k as nat);
            assert(n as nat / (c as nat) <= 0x20_0000_0000_0000) by (nonlinear_arith)
                requires
                    n <= (m * c) / 2 + 1,
                    m <= 0x20_0000_0000_0000,
                    c >= 1,
            ;
        }
        let whole: u64 = (n / (c as u128)) as u64;
        s.append(decimal_string(whole).as_str());
        if k > 0 {
            s.push('.');
            let part: u64 = (n % (c as u128)) as u64;
            s.append(last_digits_string(part, k).as_str());
        } else {
            assert(n as nat / 1 == n);
        }
        assert(s@ == fixed(a, k as nat));
        s
    }
}

} // verus!
