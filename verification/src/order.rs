//! Stable ordering of numbers.

use crate::binary64::{is_below, not_a_number, rank_key, Binary64};
use vstd::prelude::*;

verus! {

/// Whether `a` goes before `b`. What is not a number neither goes before anything nor behind it.
pub open spec fn goes_before(a: Binary64, b: Binary64, descending: bool) -> bool {
    if descending {
        is_below(b, a)
    } else {
        is_below(a, b)
    }
}

/// A list of positions with `i` put in: behind the last one that `i`'s number does not go before.
pub open spec fn put_in(
    s: Seq<usize>,
    v: Seq<Binary64>,
    i: usize,
    descending: bool,
) -> Seq<usize>
    decreases s.len(),
{
    if s.len() == 0 || !goes_before(v[i as int], v[s.last() as int], descending) {
        s.push(i)
    } else {
        put_in(s.drop_last(), v, i, descending).push(s.last())
    }
}

/// The first `n` positions in the order of their numbers, equal numbers in the order of the
/// positions.
pub open spec fn order(v: Seq<Binary64>, n: nat, descending: bool) -> Seq<usize>
    decreases n,
{
    if n == 0 {
        Seq::empty()
    } else {
        put_in(order(v, (n - 1) as nat, descending), v, (n - 1) as usize, descending)
    }
}

/// Whether each of the first `n` is a number.
pub open spec fn all_numbers(v: Seq<Binary64>, n: nat) -> bool {
    forall|k: int| 0 <= k < n ==> !not_a_number(#[trigger] v[k])
}

/// Whether `s` holds positions below `n`, none of them twice.
pub open spec fn lists_once(s: Seq<usize>, n: nat) -> bool {
    &&& forall|a: int| 0 <= a < s.len() ==> s[a] < n
    &&& forall|a: int, b: int| #![trigger s[a], s[b]] 0 <= a < b < s.len() ==> s[a] != s[b]
}

/// Whether `s` holds positions in the order of their numbers, equal numbers in the order of the
/// positions.
pub open spec fn in_order(s: Seq<usize>, v: Seq<Binary64>, descending: bool) -> bool {
    forall|a: int, b: int|
        #![trigger s[a], s[b]]
        0 <= a < b < s.len() ==> !goes_before(v[s[b] as int], v[s[a] as int], descending) && (
        rank_key(v[s[a] as int]) == rank_key(v[s[b] as int]) ==> s[a] < s[b])
}

proof fn lemma_put_in_once(s: Seq<usize>, v: Seq<Binary64>, i: usize, descending: bool)
    requires
        lists_once(s, i as nat),
    ensures
        lists_once(put_in(s, v, i, descending), (i + 1) as nat),
        put_in(s, v, i, descending).len() == s.len() + 1,
        put_in(s, v, i, descending).contains(i),
        forall|x: usize| s.contains(x) ==> put_in(s, v, i, descending).contains(x),
        forall|x: usize| put_in(s, v, i, descending).contains(x) ==> s.contains(x) || x == i,
    decreases s.len(),
{
    let r = put_in(s, v, i, descending);
    if s.len() == 0 || !goes_before(v[i as int], v[s.last() as int], descending) {
        assert(r == s.push(i));
        assert(r[s.len() as int] == i);
        assert forall|x: usize| s.contains(x) implies r.contains(x) by {
            let k = choose|k: int| 0 <= k < s.len() && s[k] == x;
            assert(r[k] == x);
        }
    } else {
        let t = s.drop_last();
        assert(lists_once(t, i as nat)) by {
            assert forall|a: int, b: int|
                #![trigger t[a], t[b]]
                0 <= a < b < t.len() implies t[a] != t[b] by {
                assert(s[a] == t[a] && s[b] == t[b]);
            }
        }
        lemma_put_in_once(t, v, i, descending);
        let q = put_in(t, v, i, descending);
        assert(r == q.push(s.last()));
        let k = choose|k: int| 0 <= k < q.len() && q[k] == i;
        assert(r[k] == i);
        assert(r[q.len() as int] == s.last());
        assert forall|x: usize| s.contains(x) implies r.contains(x) by {
            let m = choose|m: int| 0 <= m < s.len() && s[m] == x;
            if m < t.len() {
                assert(t[m] == x);
                assert(t.contains(x));
                assert(q.contains(x));
                let z = choose|z: int| 0 <= z < q.len() && q[z] == x;
                assert(r[z] == x);
            } else {
                assert(r[q.len() as int] == x);
            }
        }
        assert forall|x: usize| r.contains(x) implies s.contains(x) || x == i by {
            let m = choose|m: int| 0 <= m < r.len() && r[m] == x;
            if m < q.len() {
                assert(q.contains(q[m]));
                if t.contains(x) {
                    let z = choose|z: int| 0 <= z < t.len() && t[z] == x;
                    assert(s[z] == x);
                }
            } else {
                assert(s[s.len() - 1] == x);
            }
        }
        assert forall|a: int, b: int| #![trigger r[a], r[b]] 0 <= a < b < r.len() implies r[a]
            != r[b] by {
            assert(q[a] == r[a]);
            if b < q.len() {
                assert(q[b] == r[b]);
            } else {
                assert(q.contains(q[a]));
                if q[a] != i {
                    assert(t.contains(q[a]));
                    let z = choose|z: int| 0 <= z < t.len() && t[z] == q[a];
                    assert(s[z] == q[a]);
                    assert(s[s.len() - 1] == s.last());
                }
            }
        }
        assert forall|a: int| 0 <= a < r.len() implies r[a] < i + 1 by {
            if a < q.len() {
                assert(q[a] == r[a]);
            } else {
                assert(s[s.len() - 1] == r[a]);
            }
        }
    }
}

proof fn lemma_put_in(s: Seq<usize>, v: Seq<Binary64>, i: usize, descending: bool)
    requires
        lists_once(s, i as nat),
        in_order(s, v, descending),
        all_numbers(v, (i + 1) as nat),
    ensures
        in_order(put_in(s, v, i, descending), v, descending),
    decreases s.len(),
{
    let r = put_in(s, v, i, descending);
    assert(!not_a_number(v[i as int]));
    if s.len() == 0 || !goes_before(v[i as int], v[s.last() as int], descending) {
        assert(r == s.push(i));
        assert forall|a: int, b: int|
            #![trigger r[a], r[b]]
            0 <= a < b < r.len() implies !goes_before(
            v[r[b] as int],
            v[r[a] as int],
            descending,
        ) && (rank_key(v[r[a] as int]) == rank_key(v[r[b] as int]) ==> r[a] < r[b]) by {
            assert(s[a] == r[a]);
            assert(!not_a_number(v[s[a] as int]));
            if b < s.len() {
                assert(s[b] == r[b]);
            } else {
                let last = s[s.len() - 1];
                assert(!not_a_number(v[last as int]));
            }
        }
    } else {
        let t = s.drop_last();
        assert(lists_once(t, i as nat)) by {
            assert forall|a: int, b: int|
                #![trigger t[a], t[b]]
                0 <= a < b < t.len() implies t[a] != t[b] by {
                assert(s[a] == t[a] && s[b] == t[b]);
            }
        }
        assert forall|a: int, b: int|
            #![trigger t[a], t[b]]
            0 <= a < b < t.len() implies !goes_before(
            v[t[b] as int],
            v[t[a] as int],
            descending,
        ) && (rank_key(v[t[a] as int]) == rank_key(v[t[b] as int]) ==> t[a] < t[b]) by {
            assert(s[a] == t[a] && s[b] == t[b]);
        }
        lemma_put_in(t, v, i, descending);
        lemma_put_in_once(t, v, i, descending);
        let q = put_in(t, v, i, descending);
        assert(r == q.push(s.last()));
        assert forall|a: int, b: int|
            #![trigger r[a], r[b]]
            0 <= a < b < r.len() implies !goes_before(
            v[r[b] as int],
            v[r[a] as int],
            descending,
        ) && (rank_key(v[r[a] as int]) == rank_key(v[r[b] as int]) ==> r[a] < r[b]) by {
            assert(q[a] == r[a]);
            if b < q.len() {
                assert(q[b] == r[b]);
            } else {
                assert(q.contains(q[a]));
                assert(s[s.len() - 1] == s.last());
                if q[a] != i {
                    assert(t.contains(q[a]));
                    let z = choose|z: int| 0 <= z < t.len() && t[z] == q[a];
                    assert(s[z] == q[a]);
                }
            }
        }
    }
}

/// The order lists each position once. Where all are numbers, smaller ones come first (or larger
/// ones, where it descends), and of equal ones the earlier position.
pub proof fn law_order(v: Seq<Binary64>, n: nat, descending: bool)
    requires
        n <= usize::MAX,
    ensures
        lists_once(order(v, n, descending), n),
        order(v, n, descending).len() == n,
        forall|x: usize| x < n ==> order(v, n, descending).contains(x),
        all_numbers(v, n) ==> in_order(order(v, n, descending), v, descending),
    decreases n,
{
    if n > 0 {
        let m = (n - 1) as nat;
        law_order(v, m, descending);
        let s = order(v, m, descending);
        lemma_put_in_once(s, v, m as usize, descending);
        if all_numbers(v, n) {
            assert(all_numbers(v, m));
            lemma_put_in(s, v, m as usize, descending);
        }
        assert forall|x: usize| x < n implies order(v, n, descending).contains(x) by {
            if x < n - 1 {
                assert(s.contains(x));
            }
        }
    }
}

fn number_goes_before(a: Binary64, b: Binary64, descending: bool) -> (r: bool)
    ensures
        r == goes_before(a, b, descending),
{
    if descending {
        b.below(a)
    } else {
        a.below(b)
    }
}

/// The positions in the order of their numbers, equal numbers in the order of the positions.
pub fn order_by(v: &Vec<Binary64>, descending: bool) -> (r: Vec<usize>)
    ensures
        r@ == order(v@, v@.len(), descending),
        r@.len() == v@.len(),
        forall|a: int| 0 <= a < r@.len() ==> r@[a] < v@.len(),
{
    let mut r: Vec<usize> = Vec::new();
    let mut i: usize = 0;
    while i < v.len()
        invariant
            i <= v@.len(),
            r@ == order(v@, i as nat, descending),
            r@.len() == i,
            forall|a: int| 0 <= a < r@.len() ==> r@[a] < i,
        decreases v@.len() - i,
    {
        let ghost s = r@;
        let mut j: usize = r.len();
        assert(s.take(j as int) =~= s);
        assert(s.skip(j as int) =~= Seq::empty());
        assert(put_in(s, v@, i, descending) =~= put_in(s.take(j as int), v@, i, descending)
            + s.skip(j as int));
        while j > 0 && number_goes_before(v[i], v[r[j - 1]], descending)
            invariant
                i < v@.len(),
                r@ == s,
                j <= s.len(),
                s.len() == i,
                forall|a: int| 0 <= a < s.len() ==> s[a] < i,
                put_in(s, v@, i, descending) == put_in(s.take(j as int), v@, i, descending)
                    + s.skip(j as int),
            decreases j,
        {
            proof {
                let t = s.take(j as int);
                assert(t.last() == s[j - 1]);
                assert(t.drop_last() =~= s.take(j - 1));
                assert(put_in(t, v@, i, descending) + s.skip(j as int) =~= put_in(
                    s.take(j - 1),
                    v@,
                    i,
                    descending,
                ) + s.skip(j - 1));
            }
            j -= 1;
        }
        r.insert(j, i);
        proof {
            let t = s.take(j as int);
            if j > 0 {
                assert(t.last() == s[j - 1]);
            }
            assert(r@ =~= t.push(i) + s.skip(j as int));
        }
        i += 1;
    }
    r
}

} // verus!
