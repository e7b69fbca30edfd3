//! When the loop stops, told by the totals of its rounds alone.

use crate::binary64::{difference, is_below, not_a_number, rank_key, unsigned, Binary64};
use crate::loop_run::{best_round, gained, law_best, stalls, stop_after, LoopCfg, StopReason};
use vstd::prelude::*;

verus! {

/// Whether the totals are numbers that are not below zero.
pub open spec fn sound_totals(t: Seq<Binary64>) -> bool {
    forall|i: int| 0 <= i < t.len() ==> (#[trigger] t[i]).not_negative() && !not_a_number(t[i])
}

/// Whether round `m` has the highest total of the rounds before round `k`.
pub open spec fn tops_before(t: Seq<Binary64>, k: int, m: int) -> bool {
    &&& 0 <= m < k
    &&& forall|j: int| 0 <= j < k ==> !is_below(t[m], #[trigger] t[j])
}

/// Whether the total of round `k` is not above the highest total before it, or above it by less than
/// `min_delta`.
pub open spec fn adds_little(t: Seq<Binary64>, k: int, min_delta: Binary64) -> bool {
    exists|m: int| #[trigger]
        tops_before(t, k, m) && (!is_below(t[m], t[k]) || is_below(
            difference(unsigned(t[k]), unsigned(t[m])),
            min_delta,
        ))
}

/// Whether each of the last `patience` rounds adds little. The first round has none before it, so it
/// never does.
pub open spec fn has_stalled(t: Seq<Binary64>, patience: nat, min_delta: Binary64) -> bool {
    forall|k: int|
        t.len() - patience <= k < t.len() ==> #[trigger] adds_little(t, k, min_delta)
}

proof fn lemma_gained(t: Seq<Binary64>, k: int, min_delta: Binary64)
    requires
        sound_totals(t),
        0 < k < t.len(),
    ensures
        gained(t.take(k + 1), min_delta) == !adds_little(t, k, min_delta),
{
    let s = t.take(k);
    let now = t.take(k + 1);
    assert(now.drop_last() =~= s);
    assert forall|i: int| 0 <= i < s.len() implies (#[trigger] s[i]).not_negative()
        && !not_a_number(s[i]) by {
        assert(s[i] == t[i]);
    }
    law_best(s);
    let b = best_round(s);
    assert(tops_before(t, k, b)) by {
        assert forall|j: int| 0 <= j < k implies !is_below(t[b], #[trigger] t[j]) by {
            assert(s[j] == t[j] && s[b] == t[b]);
        }
    }
    if adds_little(t, k, min_delta) {
        let m = choose|m: int| #[trigger]
            tops_before(t, k, m) && (!is_below(t[m], t[k]) || is_below(
                difference(unsigned(t[k]), unsigned(t[m])),
                min_delta,
            ));
        assert(!is_below(t[m], t[b]) && !is_below(t[b], t[m]));
        assert(!not_a_number(t[m]) && !not_a_number(t[b]));
        assert(t[m].not_negative() && t[b].not_negative());
        assert(rank_key(t[m]) == rank_key(t[b]));
        assert(unsigned(t[m]) == unsigned(t[b]));
    }
}

proof fn lemma_stalls_at_least(t: Seq<Binary64>, n: nat, min_delta: Binary64)
    requires
        sound_totals(t),
    ensures
        stalls(t, min_delta) >= n <==> has_stalled(t, n, min_delta),
    decreases t.len(),
{
    if n > 0 && t.len() > 0 {
        let last = t.len() - 1;
        let s = t.drop_last();
        assert(t.take(last + 1) =~= t);
        assert forall|i: int| 0 <= i < s.len() implies (#[trigger] s[i]).not_negative()
            && !not_a_number(s[i]) by {
            assert(s[i] == t[i]);
        }
        lemma_stalls_at_least(s, (n - 1) as nat, min_delta);
        if last > 0 {
            lemma_gained(t, last, min_delta);
        }
        assert forall|k: int| 0 < k < last implies adds_little(t, k, min_delta) == #[trigger]
            adds_little(s, k, min_delta) by {
            lemma_adds_little_before(t, s, k, min_delta);
        }
        if has_stalled(t, n, min_delta) {
            let x = adds_little(t, last, min_delta);
            assert(adds_little(t, last, min_delta));
            assert forall|k: int| s.len() - (n - 1) <= k < s.len() implies #[trigger] adds_little(
                s,
                k,
                min_delta,
            ) by {
                let y = adds_little(t, k, min_delta);
                assert(adds_little(t, k, min_delta));
            }
            assert(has_stalled(s, (n - 1) as nat, min_delta));
            assert(!gained(t, min_delta));
            assert(stalls(t, min_delta) >= n);
        }
        if stalls(t, min_delta) >= n {
            assert(!gained(t, min_delta));
            assert(last > 0);
            assert(adds_little(t, last, min_delta));
            assert(has_stalled(s, (n - 1) as nat, min_delta));
            assert forall|k: int| t.len() - n <= k < t.len() implies #[trigger] adds_little(
                t,
                k,
                min_delta,
            ) by {
                if k < last {
                    let y = adds_little(s, k, min_delta);
                    assert(adds_little(s, k, min_delta));
                }
            }
            assert(has_stalled(t, n, min_delta));
        }
    } else if n > 0 {
        if has_stalled(t, n, min_delta) {
            let x = adds_little(t, -1, min_delta);
            assert(false);
        }
    } else {
        assert(has_stalled(t, n, min_delta));
    }
}

proof fn lemma_adds_little_before(
    t: Seq<Binary64>,
    s: Seq<Binary64>,
    k: int,
    min_delta: Binary64,
)
    requires
        0 < k < s.len() <= t.len(),
        s == t.take(s.len() as int),
    ensures
        adds_little(t, k, min_delta) == adds_little(s, k, min_delta),
{
    assert forall|m: int| 0 <= m < k implies (#[trigger] tops_before(t, k, m)) == tops_before(
        s,
        k,
        m,
    ) by {
        if tops_before(t, k, m) {
            assert forall|j: int| 0 <= j < k implies !is_below(s[m], #[trigger] s[j]) by {
                assert(t[j] == s[j]);
            }
        }
        if tops_before(s, k, m) {
            assert forall|j: int| 0 <= j < k implies !is_below(t[m], #[trigger] t[j]) by {
                assert(t[j] == s[j]);
            }
        }
    }
    if adds_little(t, k, min_delta) {
        let m = choose|m: int| #[trigger]
            tops_before(t, k, m) && (!is_below(t[m], t[k]) || is_below(
                difference(unsigned(t[k]), unsigned(t[m])),
                min_delta,
            ));
        assert(tops_before(s, k, m));
        assert(s[m] == t[m] && s[k] == t[k]);
    }
    if adds_little(s, k, min_delta) {
        let m = choose|m: int| #[trigger]
            tops_before(s, k, m) && (!is_below(s[m], s[k]) || is_below(
                difference(unsigned(s[k]), unsigned(s[m])),
                min_delta,
            ));
        assert(tops_before(t, k, m));
        assert(s[m] == t[m] && s[k] == t[k]);
    }
}

/// The loop stops at the target if and only if the last draft has no format issues and its total is
/// at least the target. Else it stops for want of gains if and only if there is more than one round
/// and each of the last `patience` rounds adds less than `min_delta` to the highest total before it.
/// Else it stops if and only if it has made as many rounds as it may, or one where it may make none.
pub proof fn law_stop(t: Seq<Binary64>, clean: bool, cfg: LoopCfg)
    requires
        t.len() > 0,
        sound_totals(t),
    ensures
        ({
            let at_target = clean && !not_a_number(cfg.target) && !is_below(t.last(), cfg.target);
            let stalled = t.len() > 1 && has_stalled(t, cfg.patience as nat, cfg.min_delta);
            let at_limit = t.len() >= cfg.max_iter && t.len() >= 1;
            &&& at_target <==> stop_after(t, clean, cfg) == Some(StopReason::Target(cfg.target))
            &&& !at_target && stalled <==> stop_after(t, clean, cfg) == Some(
                StopReason::Stalled { patience: cfg.patience, min_delta: cfg.min_delta },
            )
            &&& !at_target && !stalled && at_limit <==> stop_after(t, clean, cfg) == Some(
                StopReason::MaxIterations(if cfg.max_iter == 0 { 1 } else { cfg.max_iter }),
            )
            &&& !at_target && !stalled && !at_limit <==> stop_after(t, clean, cfg) is None
        }),
{
    lemma_stalls_at_least(t, cfg.patience as nat, cfg.min_delta);
    assert(!not_a_number(t[t.len() - 1]));
}

/// A round whose total is not above an earlier one never counts as a gain: after as many such
/// rounds in a row as the patience, the loop stops.
pub proof fn law_no_gain_stalls(t: Seq<Binary64>, clean: bool, cfg: LoopCfg, m: int)
    requires
        sound_totals(t),
        0 <= m < t.len() - cfg.patience,
        t.len() > 1,
        forall|k: int|
            t.len() - cfg.patience <= k < t.len() ==> !is_below(t[m], #[trigger] t[k]),
    ensures
        stop_after(t, clean, cfg) is Some,
{
    law_stop(t, clean, cfg);
    assert forall|k: int| t.len() - cfg.patience <= k < t.len() implies #[trigger] adds_little(
        t,
        k,
        cfg.min_delta,
    ) by {
        let s = t.take(k);
        assert forall|i: int| 0 <= i < s.len() implies (#[trigger] s[i]).not_negative()
            && !not_a_number(s[i]) by {
            assert(s[i] == t[i]);
        }
        law_best(s);
        let b = best_round(s);
        assert(tops_before(t, k, b)) by {
            assert forall|j: int| 0 <= j < k implies !is_below(t[b], #[trigger] t[j]) by {
                assert(s[j] == t[j] && s[b] == t[b]);
            }
        }
        assert(!is_below(t[b], t[m]));
        assert(!is_below(t[m], t[k]));
        assert(!not_a_number(t[b]) && !not_a_number(t[m]) && !not_a_number(t[k]));
        assert(!is_below(t[b], t[k]));
    }
}

} // verus!
