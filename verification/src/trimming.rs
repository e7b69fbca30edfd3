//! The trimmed mean looks at the scores, not at their order, and not at how extreme the extremes are.

use crate::binary64::{
    exponent, fraction, lemma_exact, not_a_number, one, rank_key, significand, units, unsigned,
    Binary64, HIDDEN, INFINITE, SIGN, UNIT_SHIFT,
};
use crate::nearness::law_rounding_keeps_order;
use crate::order::{all_numbers, law_order, order, put_in};
use crate::score::{ascending, lemma_inner, mean_of, sum_of, trimmed_mean_of};
use crate::signed::{
    equal, finite, lemma_count, lemma_nearest_range, lemma_nothing_divided, lemma_quotient_range,
    lemma_sum_is_number, lemma_sum_unsigned, signed_quotient, signed_sum, size,
};
use vstd::arithmetic::power2::{lemma2_to64, lemma_pow2_adds, pow2};
use vstd::prelude::*;
use vstd::relations::{sorted_by, total_ordering};
use vstd::seq_lib::lemma_sorted_unique;

verus! {

/// Whether all numbers of a list are finite.
pub open spec fn all_finite(v: Seq<Binary64>) -> bool {
    forall|i: int| 0 <= i < v.len() ==> finite(#[trigger] v[i])
}

/// Whether no number of a list is the negative zero.
pub open spec fn no_negative_zero(v: Seq<Binary64>) -> bool {
    forall|i: int| 0 <= i < v.len() ==> (#[trigger] v[i]).bits != SIGN
}

/// A list with the positive zero for each negative one.
spec fn plain(v: Seq<Binary64>) -> Seq<Binary64> {
    v.map_values(|x: Binary64| unsigned(x))
}

/// The numbers at some positions of a list.
spec fn at_positions(v: Seq<Binary64>, s: Seq<usize>) -> Seq<Binary64> {
    s.map_values(|i: usize| v[i as int])
}

spec fn at_most() -> spec_fn(Binary64, Binary64) -> bool {
    |a: Binary64, b: Binary64|
        rank_key(a) < rank_key(b) || (rank_key(a) == rank_key(b) && a.bits <= b.bits)
}

proof fn lemma_put_in_contents(v: Seq<Binary64>, s: Seq<usize>, i: usize)
    ensures
        at_positions(v, put_in(s, v, i, false)).to_multiset() == at_positions(
            v,
            s,
        ).to_multiset().insert(v[i as int]),
    decreases s.len(),
{
    broadcast use vstd::seq_lib::group_to_multiset_ensures;

    let r = put_in(s, v, i, false);
    if r == s.push(i) {
        assert(at_positions(v, r) =~= at_positions(v, s).push(v[i as int]));
    } else {
        let t = s.drop_last();
        lemma_put_in_contents(v, t, i);
        let q = put_in(t, v, i, false);
        let last = v[s.last() as int];
        assert(at_positions(v, r) =~= at_positions(v, q).push(last));
        assert(at_positions(v, s) =~= at_positions(v, t).push(last));
        let m = at_positions(v, t).to_multiset();
        assert(m.insert(v[i as int]).insert(last) =~= m.insert(last).insert(v[i as int]));
    }
}

proof fn lemma_order_contents(v: Seq<Binary64>, n: nat)
    requires
        n <= v.len() <= usize::MAX,
    ensures
        at_positions(v, order(v, n, false)).to_multiset() == v.take(n as int).to_multiset(),
    decreases n,
{
    broadcast use vstd::seq_lib::group_to_multiset_ensures;

    if n == 0 {
        assert(at_positions(v, order(v, n, false)) =~= v.take(0));
    } else {
        let m = (n - 1) as nat;
        lemma_order_contents(v, m);
        lemma_put_in_contents(v, order(v, m, false), m as usize);
        assert(v.take(n as int) =~= v.take(m as int).push(v[m as int]));
    }
}

/// The list in order holds what the list holds, and is in order.
proof fn lemma_ascending(v: Seq<Binary64>)
    requires
        v.len() <= usize::MAX,
        all_finite(v),
        no_negative_zero(v),
    ensures
        ascending(v).to_multiset() == v.to_multiset(),
        ascending(v).len() == v.len(),
        sorted_by(ascending(v), at_most()),
{
    let all = order(v, v.len(), false);
    assert(all_numbers(v, v.len())) by {
        assert forall|k: int| 0 <= k < v.len() implies !not_a_number(#[trigger] v[k]) by {
            assert(finite(v[k]));
        }
    }
    law_order(v, v.len(), false);
    lemma_order_contents(v, v.len());
    assert(v.take(v.len() as int) =~= v);
    assert(ascending(v) =~= at_positions(v, all));
    let a = ascending(v);
    assert forall|i: int, j: int| 0 <= i < j < a.len() implies #[trigger] at_most()(a[i], a[j]) by {
        assert(all[i] < v.len() && all[j] < v.len());
        let x = v[all[i] as int];
        let y = v[all[j] as int];
        assert(!not_a_number(x) && !not_a_number(y));
        assert(x.bits != SIGN && y.bits != SIGN);
        assert(rank_key(x) <= rank_key(y));
    }
}

proof fn lemma_total_order()
    ensures
        total_ordering(at_most()),
{
    let leq = at_most();
    assert forall|a: Binary64, b: Binary64| #[trigger] leq(a, b) && #[trigger] leq(b, a) implies a
        == b by {}
}

proof fn lemma_put_in_plain(v: Seq<Binary64>, s: Seq<usize>, i: usize)
    requires
        i < v.len(),
        forall|a: int| 0 <= a < s.len() ==> s[a] < v.len(),
    ensures
        put_in(s, plain(v), i, false) == put_in(s, v, i, false),
    decreases s.len(),
{
    if s.len() > 0 {
        assert(s[s.len() - 1] < v.len());
        lemma_put_in_plain(v, s.drop_last(), i);
    }
}

proof fn lemma_order_plain(v: Seq<Binary64>, n: nat)
    requires
        n <= v.len() <= usize::MAX,
    ensures
        order(plain(v), n, false) == order(v, n, false),
    decreases n,
{
    if n > 0 {
        let m = (n - 1) as nat;
        lemma_order_plain(v, m);
        law_order(v, m, false);
        lemma_put_in_plain(v, order(v, m, false), m as usize);
    }
}

/// The sign of a zero has no part in the order.
proof fn lemma_ascending_plain(v: Seq<Binary64>)
    requires
        v.len() <= usize::MAX,
    ensures
        ascending(plain(v)) == plain(ascending(v)),
{
    lemma_order_plain(v, v.len());
    law_order(v, v.len(), false);
    let all = order(v, v.len(), false);
    assert forall|i: int| 0 <= i < all.len() implies ascending(plain(v))[i] == plain(
        ascending(v),
    )[i] by {
        assert(all[i] < v.len());
    }
    assert(ascending(plain(v)) =~= plain(ascending(v)));
}

proof fn lemma_sum_plain(v: Seq<Binary64>)
    ensures
        unsigned(sum_of(plain(v))) == unsigned(sum_of(v)),
    decreases v.len(),
{
    if v.len() > 0 {
        let s = v.drop_last();
        lemma_sum_plain(s);
        assert(plain(v).drop_last() =~= plain(s));
        lemma_sum_unsigned(sum_of(s), v.last());
        lemma_sum_unsigned(sum_of(plain(s)), unsigned(v.last()));
    }
}

/// The sign of a zero makes no difference to a mean but for the sign of a zero.
proof fn lemma_mean_plain(v: Seq<Binary64>)
    requires
        v.len() > 0,
    ensures
        unsigned(mean_of(plain(v))) == unsigned(mean_of(v)),
{
    lemma_sum_plain(v);
    lemma_count(v.len());
    lemma_nothing_divided(fraction(v.len(), 1));
}

proof fn lemma_trimmed_plain(v: Seq<Binary64>)
    requires
        4 <= v.len() <= usize::MAX,
    ensures
        unsigned(trimmed_mean_of(plain(v))) == unsigned(trimmed_mean_of(v)),
{
    lemma_ascending_plain(v);
    lemma_inner(v);
    let inner = ascending(v).subrange(1, v.len() - 1);
    assert(ascending(plain(v)).subrange(1, v.len() - 1) =~= plain(inner));
    lemma_mean_plain(inner);
}

/// The count of a list is finite.
proof fn lemma_finite_count(n: nat)
    requires
        n <= u64::MAX,
    ensures
        fraction(n, 1).bits < INFINITE,
{
    let b: nat = 1087 * 0x10_0000_0000_0000;
    assert(significand(b) == HIDDEN && exponent(b) == 1086);
    lemma2_to64();
    lemma_pow2_adds(12, UNIT_SHIFT as nat);
    let u = one();
    let p = pow2(12);
    let m = units(b);
    assert(m == 0x1_0000_0000_0000_0000 * u) by (nonlinear_arith)
        requires
            m == 0x10_0000_0000_0000 * (p * u),
            p == 4096,
    ;
    assert((n * u) * 1 <= m * 1) by (nonlinear_arith)
        requires
            m == 0x1_0000_0000_0000_0000 * u,
            n <= 0x1_0000_0000_0000_0000,
    ;
    law_rounding_keeps_order(n * u, 1, m, 1);
    lemma_exact(b);
    lemma_nearest_range(n * u, 1);
}

proof fn lemma_sum_of_finite(v: Seq<Binary64>)
    requires
        all_finite(v),
    ensures
        !not_a_number(sum_of(v)),
    decreases v.len(),
{
    if v.len() > 0 {
        let s = v.drop_last();
        assert forall|i: int| 0 <= i < s.len() implies finite(#[trigger] s[i]) by {
            assert(s[i] == v[i]);
        }
        lemma_sum_of_finite(s);
        assert(finite(v[v.len() - 1]));
        lemma_sum_is_number(sum_of(s), v.last());
    }
}

/// The trimmed mean of finite numbers is a number.
pub proof fn law_trimmed_mean_is_number(v: Seq<Binary64>)
    requires
        v.len() <= usize::MAX,
        all_finite(v),
    ensures
        !not_a_number(trimmed_mean_of(v)),
{
    if 0 < v.len() < 4 {
        lemma_mean_is_number(v);
    } else if v.len() >= 4 {
        lemma_inner(v);
        let inner = ascending(v).subrange(1, v.len() - 1);
        assert forall|i: int| 0 <= i < inner.len() implies finite(#[trigger] inner[i]) by {
            assert(v.contains(inner[i]));
        }
        lemma_mean_is_number(inner);
    }
}

proof fn lemma_mean_is_number(v: Seq<Binary64>)
    requires
        0 < v.len() <= usize::MAX,
        all_finite(v),
    ensures
        !not_a_number(mean_of(v)),
{
    lemma_sum_of_finite(v);
    lemma_count(v.len());
    lemma_finite_count(v.len());
    let t = size(sum_of(v));
    let n = fraction(v.len(), 1);
    lemma_quotient_range(t, n);
    lemma_nearest_range(units(t.bits as nat) * one(), units(n.bits as nat));
}

proof fn lemma_plain(v: Seq<Binary64>)
    requires
        all_finite(v),
    ensures
        all_finite(plain(v)),
        no_negative_zero(plain(v)),
        plain(v).len() == v.len(),
        no_negative_zero(v) ==> plain(v) == v,
{
    assert forall|i: int| 0 <= i < v.len() implies finite(#[trigger] plain(v)[i]) by {
        assert(finite(v[i]));
    }
    if no_negative_zero(v) {
        assert forall|i: int| 0 <= i < v.len() implies plain(v)[i] == v[i] by {
            assert(v[i].bits != SIGN);
        }
        assert(plain(v) =~= v);
    }
}

proof fn lemma_plain_contents(v: Seq<Binary64>, w: Seq<Binary64>)
    requires
        v.to_multiset() == w.to_multiset(),
    ensures
        plain(v).to_multiset() == plain(w).to_multiset(),
    decreases v.len(),
{
    broadcast use vstd::seq_lib::group_to_multiset_ensures;

    assert(v.to_multiset().len() == v.len() && w.to_multiset().len() == w.len());
    if v.len() == 0 {
        assert(plain(v) =~= plain(w));
    } else {
        let x = v.last();
        let s = v.drop_last();
        assert(v =~= s.push(x));
        assert(v.to_multiset().count(x) > 0);
        assert(w.contains(x));
        let k = choose|k: int| 0 <= k < w.len() && w[k] == x;
        let t = w.remove(k);
        assert(s.to_multiset() =~= v.to_multiset().remove(x));
        assert(t.to_multiset() =~= w.to_multiset().remove(x));
        lemma_plain_contents(s, t);
        assert(plain(v) =~= plain(s).push(unsigned(x)));
        assert(plain(t) =~= plain(w).remove(k));
        assert(plain(w)[k] == unsigned(x));
        assert(plain(w).contains(unsigned(x)));
        assert(plain(w).to_multiset() =~= plain(t).to_multiset().insert(unsigned(x)));
    }
}

proof fn lemma_same_order(v: Seq<Binary64>, w: Seq<Binary64>)
    requires
        4 <= v.len() <= usize::MAX,
        all_finite(v),
        all_finite(w),
        no_negative_zero(v),
        no_negative_zero(w),
        v.to_multiset() == w.to_multiset(),
    ensures
        trimmed_mean_of(v) == trimmed_mean_of(w),
{
    broadcast use vstd::seq_lib::group_to_multiset_ensures;

    assert(v.to_multiset().len() == v.len() && w.to_multiset().len() == w.len());
    lemma_ascending(v);
    lemma_ascending(w);
    lemma_total_order();
    lemma_sorted_unique(ascending(v), ascending(w), at_most());
}

/// The trimmed mean of four finite numbers or more does not depend on their order. Of lists that
/// hold negative zeros, the means are equal but may be zeros of different signs.
pub proof fn law_order_makes_no_difference(v: Seq<Binary64>, w: Seq<Binary64>)
    requires
        4 <= v.len() <= usize::MAX,
        all_finite(v),
        v.to_multiset() == w.to_multiset(),
    ensures
        equal(trimmed_mean_of(v), trimmed_mean_of(w)),
        no_negative_zero(v) ==> trimmed_mean_of(v) == trimmed_mean_of(w),
{
    broadcast use vstd::seq_lib::group_to_multiset_ensures;

    assert(v.to_multiset().len() == v.len() && w.to_multiset().len() == w.len());
    assert forall|i: int| 0 <= i < w.len() implies v.contains(#[trigger] w[i]) by {
        assert(w.contains(w[i]));
        assert(w.to_multiset().count(w[i]) > 0);
    }
    assert forall|i: int| 0 <= i < w.len() implies finite(#[trigger] w[i]) by {
        assert(v.contains(w[i]));
    }
    if no_negative_zero(v) {
        assert forall|i: int| 0 <= i < w.len() implies (#[trigger] w[i]).bits != SIGN by {
            assert(v.contains(w[i]));
        }
    }
    lemma_plain(v);
    lemma_plain(w);
    lemma_plain_contents(v, w);
    lemma_same_order(plain(v), plain(w));
    lemma_trimmed_plain(v);
    lemma_trimmed_plain(w);
    law_trimmed_mean_is_number(v);
    law_trimmed_mean_is_number(w);
}

/// Whether no number of a list is above the one at a position.
pub open spec fn is_highest(v: Seq<Binary64>, m: int) -> bool {
    forall|k: int| 0 <= k < v.len() ==> rank_key(#[trigger] v[k]) <= rank_key(v[m])
}

/// Whether no number of a list is below the one at a position.
pub open spec fn is_lowest(v: Seq<Binary64>, m: int) -> bool {
    forall|k: int| 0 <= k < v.len() ==> rank_key(#[trigger] v[k]) >= rank_key(v[m])
}

/// The greatest of a list in order is its last, whatever else is at least as great.
proof fn lemma_last_is_greatest(v: Seq<Binary64>, m: int)
    requires
        0 <= m < v.len() <= usize::MAX,
        all_finite(v),
        no_negative_zero(v),
        is_highest(v, m),
    ensures
        ascending(v).last() == v[m],
{
    broadcast use vstd::seq_lib::group_to_multiset_ensures;

    lemma_ascending(v);
    let a = ascending(v);
    assert(v.to_multiset().count(v[m]) > 0) by {
        assert(v.contains(v[m]));
    }
    assert(a.contains(v[m]));
    let i = choose|i: int| 0 <= i < a.len() && a[i] == v[m];
    let last = a.len() - 1;
    if i < last {
        assert(at_most()(a[i], a[last]));
    }
    assert(a.contains(a[last]));
    assert(v.to_multiset().count(a[last]) > 0);
    assert(v.contains(a[last]));
    let k = choose|k: int| 0 <= k < v.len() && v[k] == a[last];
    assert(rank_key(v[k]) <= rank_key(v[m]));
    assert(v[k].bits != SIGN && v[m].bits != SIGN);
}

/// The least of a list in order is its first, whatever else is as little.
proof fn lemma_first_is_least(v: Seq<Binary64>, m: int)
    requires
        0 <= m < v.len() <= usize::MAX,
        all_finite(v),
        no_negative_zero(v),
        is_lowest(v, m),
    ensures
        ascending(v)[0] == v[m],
{
    broadcast use vstd::seq_lib::group_to_multiset_ensures;

    lemma_ascending(v);
    let a = ascending(v);
    assert(v.to_multiset().count(v[m]) > 0) by {
        assert(v.contains(v[m]));
    }
    assert(a.contains(v[m]));
    let i = choose|i: int| 0 <= i < a.len() && a[i] == v[m];
    if i > 0 {
        assert(at_most()(a[0], a[i]));
    }
    assert(a.contains(a[0]));
    assert(v.to_multiset().count(a[0]) > 0);
    assert(v.contains(a[0]));
    let k = choose|k: int| 0 <= k < v.len() && v[k] == a[0];
    assert(rank_key(v[k]) >= rank_key(v[m]));
    assert(v[k].bits != SIGN && v[m].bits != SIGN);
}

proof fn lemma_remove_update(v: Seq<Binary64>, m: int, x: Binary64)
    requires
        0 <= m < v.len(),
    ensures
        v.update(m, x).to_multiset().remove(x) == v.to_multiset().remove(v[m]),
{
    broadcast use vstd::seq_lib::group_to_multiset_ensures;

    assert(v.update(m, x).remove(m) =~= v.remove(m));
    assert(v.update(m, x)[m] == x);
}

/// A list with another number at a position, its negative zeros made positive.
proof fn lemma_update(v: Seq<Binary64>, m: int, x: Binary64)
    requires
        0 <= m < v.len(),
        all_finite(v),
        finite(x),
    ensures
        all_finite(v.update(m, x)),
        plain(v.update(m, x)) == plain(v).update(m, unsigned(x)),
        is_highest(v, m) ==> is_highest(plain(v), m),
        is_lowest(v, m) ==> is_lowest(plain(v), m),
        is_highest(v, m) && rank_key(v[m]) <= rank_key(x) ==> is_highest(
            plain(v).update(m, unsigned(x)),
            m,
        ),
        is_lowest(v, m) && rank_key(v[m]) >= rank_key(x) ==> is_lowest(
            plain(v).update(m, unsigned(x)),
            m,
        ),
{
    let w = v.update(m, x);
    let p = plain(v);
    let q = p.update(m, unsigned(x));
    assert(plain(w) =~= q);
    assert forall|k: int| 0 <= k < w.len() implies finite(#[trigger] w[k]) by {
        if k != m {
            assert(w[k] == v[k]);
        }
    }
    if is_highest(v, m) {
        assert forall|k: int| 0 <= k < p.len() implies rank_key(#[trigger] p[k]) <= rank_key(
            p[m],
        ) by {
            assert(rank_key(v[k]) <= rank_key(v[m]));
        }
    }
    if is_lowest(v, m) {
        assert forall|k: int| 0 <= k < p.len() implies rank_key(#[trigger] p[k]) >= rank_key(
            p[m],
        ) by {
            assert(rank_key(v[k]) >= rank_key(v[m]));
        }
    }
    if is_highest(v, m) && rank_key(v[m]) <= rank_key(x) {
        assert forall|k: int| 0 <= k < q.len() implies rank_key(#[trigger] q[k]) <= rank_key(
            q[m],
        ) by {
            assert(rank_key(v[k]) <= rank_key(v[m]));
        }
    }
    if is_lowest(v, m) && rank_key(v[m]) >= rank_key(x) {
        assert forall|k: int| 0 <= k < q.len() implies rank_key(#[trigger] q[k]) >= rank_key(
            q[m],
        ) by {
            assert(rank_key(v[k]) >= rank_key(v[m]));
        }
    }
}

proof fn lemma_highest_is_dropped(v: Seq<Binary64>, m: int, x: Binary64)
    requires
        4 <= v.len() <= usize::MAX,
        0 <= m < v.len(),
        all_finite(v),
        all_finite(v.update(m, x)),
        no_negative_zero(v),
        no_negative_zero(v.update(m, x)),
        is_highest(v, m),
        is_highest(v.update(m, x), m),
    ensures
        trimmed_mean_of(v.update(m, x)) == trimmed_mean_of(v),
{
    broadcast use vstd::seq_lib::group_to_multiset_ensures;

    let w = v.update(m, x);
    lemma_last_is_greatest(v, m);
    lemma_last_is_greatest(w, m);
    lemma_ascending(v);
    lemma_ascending(w);
    let a = ascending(v);
    let b = ascending(w);
    let n = v.len() - 1;
    assert(a.remove(n) =~= a.drop_last());
    assert(b.remove(n) =~= b.drop_last());
    lemma_remove_update(v, m, x);
    assert(a.drop_last().to_multiset() == b.drop_last().to_multiset());
    assert(sorted_by(a.drop_last(), at_most())) by {
        assert forall|i: int, j: int| 0 <= i < j < n implies #[trigger] at_most()(
            a.drop_last()[i],
            a.drop_last()[j],
        ) by {
            assert(at_most()(a[i], a[j]));
        }
    }
    assert(sorted_by(b.drop_last(), at_most())) by {
        assert forall|i: int, j: int| 0 <= i < j < n implies #[trigger] at_most()(
            b.drop_last()[i],
            b.drop_last()[j],
        ) by {
            assert(at_most()(b[i], b[j]));
        }
    }
    lemma_total_order();
    lemma_sorted_unique(a.drop_last(), b.drop_last(), at_most());
    assert(a.subrange(1, n) =~= b.subrange(1, n)) by {
        assert forall|i: int| 1 <= i < n implies a[i] == b[i] by {
            assert(a.drop_last()[i] == b.drop_last()[i]);
        }
    }
}

proof fn lemma_lowest_is_dropped(v: Seq<Binary64>, m: int, x: Binary64)
    requires
        4 <= v.len() <= usize::MAX,
        0 <= m < v.len(),
        all_finite(v),
        all_finite(v.update(m, x)),
        no_negative_zero(v),
        no_negative_zero(v.update(m, x)),
        is_lowest(v, m),
        is_lowest(v.update(m, x), m),
    ensures
        trimmed_mean_of(v.update(m, x)) == trimmed_mean_of(v),
{
    broadcast use vstd::seq_lib::group_to_multiset_ensures;

    let w = v.update(m, x);
    lemma_first_is_least(v, m);
    lemma_first_is_least(w, m);
    lemma_ascending(v);
    lemma_ascending(w);
    let a = ascending(v);
    let b = ascending(w);
    let n = v.len() - 1;
    assert(a.remove(0) =~= a.drop_first());
    assert(b.remove(0) =~= b.drop_first());
    lemma_remove_update(v, m, x);
    assert(a.drop_first().to_multiset() == b.drop_first().to_multiset());
    assert(sorted_by(a.drop_first(), at_most())) by {
        assert forall|i: int, j: int| 0 <= i < j < n implies #[trigger] at_most()(
            a.drop_first()[i],
            a.drop_first()[j],
        ) by {
            assert(at_most()(a[i + 1], a[j + 1]));
        }
    }
    assert(sorted_by(b.drop_first(), at_most())) by {
        assert forall|i: int, j: int| 0 <= i < j < n implies #[trigger] at_most()(
            b.drop_first()[i],
            b.drop_first()[j],
        ) by {
            assert(at_most()(b[i + 1], b[j + 1]));
        }
    }
    lemma_total_order();
    lemma_sorted_unique(a.drop_first(), b.drop_first(), at_most());
    assert(a.subrange(1, n) =~= b.subrange(1, n)) by {
        assert forall|i: int| 1 <= i < n implies a[i] == b[i] by {
            assert(a.drop_first()[i - 1] == b.drop_first()[i - 1]);
        }
    }
}

/// Raising a highest number of four or more finite numbers does not change the trimmed mean. Of
/// lists that hold negative zeros, the means are equal but may be zeros of different signs.
pub proof fn law_highest_is_dropped(v: Seq<Binary64>, m: int, x: Binary64)
    requires
        4 <= v.len() <= usize::MAX,
        0 <= m < v.len(),
        all_finite(v),
        finite(x),
        is_highest(v, m),
        rank_key(v[m]) <= rank_key(x),
    ensures
        equal(trimmed_mean_of(v.update(m, x)), trimmed_mean_of(v)),
        no_negative_zero(v) && x.bits != SIGN ==> trimmed_mean_of(v.update(m, x))
            == trimmed_mean_of(v),
{
    let w = v.update(m, x);
    lemma_update(v, m, x);
    lemma_plain(v);
    lemma_plain(w);
    lemma_highest_is_dropped(plain(v), m, unsigned(x));
    lemma_trimmed_plain(v);
    lemma_trimmed_plain(w);
    law_trimmed_mean_is_number(v);
    law_trimmed_mean_is_number(w);
    if no_negative_zero(v) && x.bits != SIGN {
        assert(no_negative_zero(w)) by {
            assert forall|k: int| 0 <= k < w.len() implies (#[trigger] w[k]).bits != SIGN by {
                if k != m {
                    assert(w[k] == v[k]);
                }
            }
        }
    }
}

/// Lowering a lowest number of four or more finite numbers does not change the trimmed mean. Of
/// lists that hold negative zeros, the means are equal but may be zeros of different signs.
pub proof fn law_lowest_is_dropped(v: Seq<Binary64>, m: int, x: Binary64)
    requires
        4 <= v.len() <= usize::MAX,
        0 <= m < v.len(),
        all_finite(v),
        finite(x),
        is_lowest(v, m),
        rank_key(v[m]) >= rank_key(x),
    ensures
        equal(trimmed_mean_of(v.update(m, x)), trimmed_mean_of(v)),
        no_negative_zero(v) && x.bits != SIGN ==> trimmed_mean_of(v.update(m, x))
            == trimmed_mean_of(v),
{
    let w = v.update(m, x);
    lemma_update(v, m, x);
    lemma_plain(v);
    lemma_plain(w);
    lemma_lowest_is_dropped(plain(v), m, unsigned(x));
    lemma_trimmed_plain(v);
    lemma_trimmed_plain(w);
    law_trimmed_mean_is_number(v);
    law_trimmed_mean_is_number(w);
    if no_negative_zero(v) && x.bits != SIGN {
        assert(no_negative_zero(w)) by {
            assert forall|k: int| 0 <= k < w.len() implies (#[trigger] w[k]).bits != SIGN by {
                if k != m {
                    assert(w[k] == v[k]);
                }
            }
        }
    }
}

/// Numbers added up from the first to the last, with nothing to begin with.
pub open spec fn added_up(v: Seq<Binary64>) -> Binary64 {
    v.fold_left(Binary64 { bits: SIGN }, |t: Binary64, x: Binary64| signed_sum(t, x))
}

/// A list without the numbers at two positions.
pub open spec fn rest_of(v: Seq<Binary64>, a: int, b: int) -> Seq<Binary64> {
    if a < b {
        v.remove(b).remove(a)
    } else {
        v.remove(a).remove(b)
    }
}

/// Whether the numbers of a list go up, or stay as they are.
pub open spec fn goes_up(v: Seq<Binary64>) -> bool {
    forall|i: int, j: int|
        #![trigger v[i], v[j]]
        0 <= i < j < v.len() ==> rank_key(v[i]) <= rank_key(v[j])
}

proof fn lemma_added_up(v: Seq<Binary64>)
    ensures
        sum_of(v) == added_up(v),
    decreases v.len(),
{
    reveal(Seq::fold_left);
    if v.len() > 0 {
        lemma_added_up(v.drop_last());
    }
}

proof fn lemma_contents_without(v: Seq<Binary64>, a: int, b: int)
    requires
        0 <= a < v.len(),
        0 <= b < v.len(),
        a != b,
    ensures
        rest_of(v, a, b).to_multiset() == v.to_multiset().remove(v[a]).remove(v[b]),
        plain(rest_of(v, a, b)) == rest_of(plain(v), a, b),
{
    broadcast use vstd::seq_lib::group_to_multiset_ensures;

    let m = v.to_multiset();
    assert(plain(rest_of(v, a, b)) =~= rest_of(plain(v), a, b));
    if a < b {
        assert(v.remove(b)[a] == v[a]);
        assert(v.contains(v[a]) && v.contains(v[b]));
        assert(v.remove(b).contains(v[a]));
        assert(m.remove(v[b]).remove(v[a]) =~= m.remove(v[a]).remove(v[b]));
    } else {
        assert(v.remove(a)[b] == v[b]);
    }
}

proof fn lemma_inner_is_rest(v: Seq<Binary64>, a: int, b: int, s: Seq<Binary64>)
    requires
        4 <= v.len() <= usize::MAX,
        all_finite(v),
        no_negative_zero(v),
        no_negative_zero(s),
        0 <= a < v.len(),
        0 <= b < v.len(),
        a != b,
        is_lowest(v, a),
        is_highest(v, b),
        goes_up(s),
        s.to_multiset() == rest_of(v, a, b).to_multiset(),
    ensures
        ascending(v).subrange(1, v.len() - 1) == s,
{
    broadcast use vstd::seq_lib::group_to_multiset_ensures;

    lemma_ascending(v);
    lemma_first_is_least(v, a);
    lemma_last_is_greatest(v, b);
    lemma_contents_without(v, a, b);
    let x = ascending(v);
    let n = v.len() - 1;
    let inner = x.subrange(1, n);
    assert(x.remove(0).remove(n - 1) =~= inner);
    assert(x.remove(0)[n - 1] == x[n]);
    assert(inner.to_multiset() == x.to_multiset().remove(x[0]).remove(x[n]));
    assert(sorted_by(inner, at_most())) by {
        assert forall|i: int, j: int| 0 <= i < j < inner.len() implies #[trigger] at_most()(
            inner[i],
            inner[j],
        ) by {
            assert(at_most()(x[i + 1], x[j + 1]));
        }
    }
    assert(sorted_by(s, at_most())) by {
        assert forall|i: int, j: int| 0 <= i < j < s.len() implies #[trigger] at_most()(
            s[i],
            s[j],
        ) by {
            assert(s[i].bits != SIGN && s[j].bits != SIGN);
            assert(rank_key(s[i]) <= rank_key(s[j]));
        }
    }
    lemma_total_order();
    lemma_sorted_unique(inner, s, at_most());
}

/// The trimmed mean of four finite numbers or more is the mean of all of them but one lowest and one
/// highest: these, in ascending order, added up and divided by their number. Of lists that hold
/// negative zeros, the means are equal but may be zeros of different signs.
pub proof fn law_trimmed_mean_is_mean_of_rest(
    v: Seq<Binary64>,
    a: int,
    b: int,
    s: Seq<Binary64>,
)
    requires
        4 <= v.len() <= usize::MAX,
        all_finite(v),
        0 <= a < v.len(),
        0 <= b < v.len(),
        a != b,
        is_lowest(v, a),
        is_highest(v, b),
        goes_up(s),
        s.to_multiset() == rest_of(v, a, b).to_multiset(),
    ensures
        equal(
            trimmed_mean_of(v),
            signed_quotient(added_up(s), fraction((v.len() - 2) as nat, 1)),
        ),
        no_negative_zero(v) ==> trimmed_mean_of(v) == signed_quotient(
            added_up(s),
            fraction((v.len() - 2) as nat, 1),
        ),
{
    broadcast use vstd::seq_lib::group_to_multiset_ensures;

    let rest = rest_of(v, a, b);
    assert(s.to_multiset().len() == s.len() && rest.to_multiset().len() == rest.len());
    assert forall|i: int| 0 <= i < s.len() implies v.contains(#[trigger] s[i]) by {
        assert(s.contains(s[i]));
        assert(s.to_multiset().count(s[i]) > 0);
        assert(rest.contains(s[i]));
        let k = choose|k: int| 0 <= k < rest.len() && rest[k] == s[i];
        if a < b {
            assert(v.remove(b).remove(a)[k] == if k < a {
                v.remove(b)[k]
            } else {
                v.remove(b)[k + 1]
            });
        }
    }
    assert forall|i: int| 0 <= i < s.len() implies finite(#[trigger] s[i]) by {
        assert(v.contains(s[i]));
    }
    lemma_plain(v);
    lemma_plain(s);
    lemma_update(v, a, v[a]);
    lemma_update(v, b, v[b]);
    lemma_plain_contents(s, rest);
    lemma_contents_without(v, a, b);
    let p = plain(v);
    let q = plain(s);
    assert(goes_up(q)) by {
        assert forall|i: int, j: int|
            #![trigger q[i], q[j]]
            0 <= i < j < q.len() implies rank_key(q[i]) <= rank_key(q[j]) by {
            assert(rank_key(s[i]) <= rank_key(s[j]));
        }
    }
    lemma_inner_is_rest(p, a, b, q);
    lemma_trimmed_plain(v);
    lemma_mean_plain(s);
    lemma_added_up(s);
    law_trimmed_mean_is_number(v);
    lemma_mean_is_number(s);
    if no_negative_zero(v) {
        assert forall|i: int| 0 <= i < s.len() implies (#[trigger] s[i]).bits != SIGN by {
            assert(v.contains(s[i]));
        }
    }
}

/// The trimmed mean of one to three numbers is the mean of all, added up in the order of the list;
/// that of none is zero.
pub proof fn law_few_numbers(v: Seq<Binary64>)
    requires
        v.len() < 4,
    ensures
        v.len() > 0 ==> trimmed_mean_of(v) == signed_quotient(
            added_up(v),
            fraction(v.len(), 1),
        ),
        v.len() == 0 ==> trimmed_mean_of(v) == (Binary64 { bits: 0 }),
{
    lemma_added_up(v);
}

} // verus!
