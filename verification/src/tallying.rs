//! What a score is made of: which replies count, which numbers they give, and how these add up.

use crate::binary64::{
    fraction, is_below, nearest, not_a_number, one, product, quotient, rank_key, rounded, sum,
    units, unsigned, Binary64, INFINITE, SIGN, UNIT_SHIFT,
};
use crate::checks::{describes, issues_of, missing_in};
use crate::contest::{weights_sum, Criterion, Spec};
use crate::order::{all_numbers, law_order, order};
use crate::range::{lemma_nothing, lemma_zero_units};
use crate::render::fixed;
use crate::score::{
    all_instructions, clamped, counts, first_score, hundred, is_score_of, is_scored, kept,
    kept_models, lemma_first_score, mean_under, means, same_scored, same_stats, samples,
    scored_once, share, spread_of, sum_of, summarizes, term, terms, total_score, trimmed_mean_of,
    weak_line, weak_text, weakest, weighted, CriterionScore, CriterionStats, JudgeResult, Round,
    Scored,
};
use crate::signed::{
    lemma_nearest_range, lemma_nothing_divided, lemma_sum_not_negative, negated, signed_sum,
};
use crate::text::views;
use vstd::arithmetic::power2::lemma_pow2_pos;
use vstd::prelude::*;
use vstd::string::*;

verus! {

/// The criteria that a reply scores, in order.
pub open spec fn scored_ids(r: JudgeResult) -> Seq<Seq<char>> {
    r.criteria@.map_values(|s: CriterionScore| s.id@)
}

/// A reply counts if and only if it scores no criterion twice and each criterion of the contest.
pub proof fn law_reply_counts(r: JudgeResult, criteria: Seq<Criterion>)
    ensures
        counts(r, criteria) <==> scored_ids(r).no_duplicates() && forall|i: int|
            0 <= i < criteria.len() ==> scored_ids(r).contains((#[trigger] criteria[i]).id@),
{
    let ids = scored_ids(r);
    let scores = r.criteria@;
    assert(scored_once(scores) == ids.no_duplicates()) by {
        if scored_once(scores) {
            assert forall|i: int, j: int| 0 <= i < ids.len() && 0 <= j < ids.len() && i != j implies
                ids[i] != ids[j] by {
                if i < j {
                    assert(scores[i].id@ != scores[j].id@);
                } else {
                    assert(scores[j].id@ != scores[i].id@);
                }
            }
        }
        if ids.no_duplicates() {
            assert forall|i: int, j: int|
                #![trigger scores[i], scores[j]]
                0 <= i < j < scores.len() implies scores[i].id@ != scores[j].id@ by {
                assert(ids[i] != ids[j]);
            }
        }
    }
    assert forall|id: Seq<char>| #[trigger] is_scored(scores, id) == ids.contains(id) by {
        if is_scored(scores, id) {
            let k = choose|k: int| 0 <= k < scores.len() && (#[trigger] scores[k]).id@ == id;
            assert(ids[k] == id);
        }
        if ids.contains(id) {
            let k = choose|k: int| 0 <= k < ids.len() && ids[k] == id;
            assert(scores[k].id@ == id);
        }
    }
}

/// The reply of a round, where it counts.
pub open spec fn reply_of(round: Round, criteria: Seq<Criterion>) -> Seq<JudgeResult> {
    match round.reply {
        Some(r) => if counts(r, criteria) {
            seq![r]
        } else {
            Seq::empty()
        },
        None => Seq::empty(),
    }
}

/// Each round is judged by its own reply alone: the replies that count, and the models that gave
/// them, are those of the rounds before it, its own, and those of the rounds behind it, in order.
pub proof fn law_rounds_are_kept_one_by_one(
    before: Seq<Round>,
    round: Round,
    after: Seq<Round>,
    criteria: Seq<Criterion>,
)
    ensures
        kept(Seq::empty(), criteria) == Seq::<JudgeResult>::empty(),
        kept_models(Seq::empty(), criteria) == Seq::<Seq<char>>::empty(),
        kept(before + seq![round] + after, criteria) == kept(before, criteria) + reply_of(
            round,
            criteria,
        ) + kept(after, criteria),
        kept_models(before + seq![round] + after, criteria) == kept_models(before, criteria)
            + reply_of(round, criteria).map_values(|r: JudgeResult| round.model@) + kept_models(
            after,
            criteria,
        ),
    decreases after.len(),
{
    let all = before + seq![round] + after;
    let f = |r: JudgeResult| round.model@;
    if after.len() == 0 {
        assert(all.drop_last() =~= before);
        assert(all.last() == round);
        assert(after =~= Seq::empty());
        assert(reply_of(round, criteria).map_values(f).len() == reply_of(round, criteria).len());
        assert(kept(all, criteria) =~= kept(before, criteria) + reply_of(round, criteria) + kept(
            after,
            criteria,
        ));
        assert(kept_models(all, criteria) =~= kept_models(before, criteria) + reply_of(
            round,
            criteria,
        ).map_values(f) + kept_models(after, criteria));
    } else {
        let rest = after.drop_last();
        law_rounds_are_kept_one_by_one(before, round, rest, criteria);
        assert(all.drop_last() =~= before + seq![round] + rest);
        assert(all.last() == after.last());
        let x = kept(before, criteria) + reply_of(round, criteria);
        let y = kept_models(before, criteria) + reply_of(round, criteria).map_values(f);
        assert(kept(all, criteria) =~= x + kept(after, criteria));
        assert(kept_models(all, criteria) =~= y + kept_models(after, criteria));
    }
}

/// A score below zero is taken as zero, one above a hundred as a hundred, and any other as it is.
pub proof fn law_clamped(x: Binary64)
    ensures
        is_below(x, Binary64 { bits: 0 }) ==> clamped(x) == (Binary64 { bits: 0 }),
        is_below(fraction(100, 1), x) ==> clamped(x) == fraction(100, 1),
        !not_a_number(x) && !is_below(x, Binary64 { bits: 0 }) && !is_below(fraction(100, 1), x)
            ==> clamped(x) == x,
        not_a_number(x) ==> not_a_number(clamped(x)),
{
    crate::range::lemma_integer(100);
}

proof fn lemma_first_score_among(scores: Seq<CriterionScore>, id: Seq<char>)
    ensures
        first_score(scores, id) matches Some(x) ==> exists|k: int|
            0 <= k < scores.len() && (#[trigger] scores[k]).id@ == id && scores[k].score == x,
    decreases scores.len(),
{
    if scores.len() > 0 {
        let rest = scores.drop_first();
        lemma_first_score_among(rest, id);
        if scores[0].id@ != id && first_score(scores, id) is Some {
            let x = first_score(scores, id)->0;
            let k = choose|k: int|
                0 <= k < rest.len() && (#[trigger] rest[k]).id@ == id && rest[k].score == x;
            assert(scores[k + 1].id@ == id);
        }
    }
}

/// Whether a reply gives a criterion a number that is taken as the given one.
pub open spec fn gives(r: JudgeResult, id: Seq<char>, x: Binary64) -> bool {
    exists|k: int|
        0 <= k < r.criteria@.len() && (#[trigger] r.criteria@[k]).id@ == id && clamped(
            r.criteria@[k].score,
        ) == x
}

/// The scores of a criterion are those that the replies give it, one of each reply, in order.
pub proof fn law_samples(
    replies: Seq<JudgeResult>,
    criteria: Seq<Criterion>,
    i: int,
    k: int,
)
    requires
        0 <= i < criteria.len(),
        forall|a: int| 0 <= a < replies.len() ==> counts(#[trigger] replies[a], criteria),
        0 <= k < replies.len(),
    ensures
        samples(replies, criteria[i].id@).len() == replies.len(),
        gives(replies[k], criteria[i].id@, samples(replies, criteria[i].id@)[k]),
    decreases replies.len(),
{
    let s = replies.drop_last();
    let last = replies.last();
    let id = criteria[i].id@;
    assert(last == replies[replies.len() - 1]);
    assert(counts(last, criteria));
    assert(is_scored(last.criteria@, id));
    lemma_first_score(last.criteria@, id);
    lemma_first_score_among(last.criteria@, id);
    assert forall|a: int| 0 <= a < s.len() implies counts(#[trigger] s[a], criteria) by {
        assert(s[a] == replies[a]);
    }
    if s.len() > 0 {
        law_samples(s, criteria, i, if k < s.len() {
            k
        } else {
            0
        });
        if k < s.len() {
            assert(s[k] == replies[k]);
        }
    } else {
        assert(samples(s, id) =~= Seq::empty());
    }
    if k == s.len() {
        let x = first_score(last.criteria@, id)->0;
        let m = choose|m: int|
            0 <= m < last.criteria@.len() && (#[trigger] last.criteria@[m]).id@ == id
                && last.criteria@[m].score == x;
        assert(clamped(last.criteria@[m].score) == samples(replies, id)[k]);
    }
}

/// The spread of some numbers is the distance of a highest and a lowest one of them.
pub proof fn law_spread(v: Seq<Binary64>, i: int, j: int)
    requires
        0 <= i < v.len(),
        0 <= j < v.len(),
        forall|k: int| 0 <= k < v.len() ==> !not_a_number(#[trigger] v[k]),
        forall|k: int| 0 <= k < v.len() ==> rank_key(v[j]) <= rank_key(#[trigger] v[k]),
        forall|k: int| 0 <= k < v.len() ==> rank_key(#[trigger] v[k]) <= rank_key(v[i]),
    ensures
        spread_of(v) == signed_sum(unsigned(v[i]), negated(unsigned(v[j]))),
{
    lemma_extremes(v);
    let lo = crate::score::lowest(v);
    let hi = crate::score::highest(v);
    assert(rank_key(v[j]) <= rank_key(v[i]));
    lemma_same_rank(hi, v[i]);
    lemma_same_rank(lo, v[j]);
}

proof fn lemma_same_rank(a: Binary64, b: Binary64)
    requires
        rank_key(a) == rank_key(b),
    ensures
        unsigned(a) == unsigned(b),
{
}

proof fn lemma_extremes(v: Seq<Binary64>)
    requires
        forall|k: int| 0 <= k < v.len() ==> !not_a_number(#[trigger] v[k]),
    ensures
        !not_a_number(crate::score::lowest(v)),
        !not_a_number(crate::score::highest(v)),
        forall|k: int|
            0 <= k < v.len() ==> rank_key(crate::score::lowest(v)) <= rank_key(#[trigger] v[k]),
        forall|k: int|
            0 <= k < v.len() ==> rank_key(#[trigger] v[k]) <= rank_key(crate::score::highest(v)),
        v.len() == 0 ==> rank_key(crate::score::lowest(v)) == SIGN + INFINITE,
        v.len() == 0 ==> rank_key(crate::score::highest(v)) == SIGN - INFINITE,
        v.len() > 0 ==> exists|k: int|
            0 <= k < v.len() && rank_key(#[trigger] v[k]) == rank_key(crate::score::lowest(v)),
        v.len() > 0 ==> exists|k: int|
            0 <= k < v.len() && rank_key(#[trigger] v[k]) == rank_key(crate::score::highest(v)),
    decreases v.len(),
{
    if v.len() > 0 {
        let s = v.drop_last();
        let x = v[v.len() - 1];
        assert(!not_a_number(x));
        assert(x == v.last());
        assert(SIGN - INFINITE <= rank_key(x) <= SIGN + INFINITE) by {
            lemma_rank_of_number(x);
        }
        assert forall|k: int| 0 <= k < s.len() implies !not_a_number(#[trigger] s[k]) by {
            assert(s[k] == v[k]);
        }
        lemma_extremes(s);
        let lo = crate::score::lowest(v);
        let hi = crate::score::highest(v);
        assert forall|k: int| 0 <= k < v.len() implies rank_key(lo) <= rank_key(#[trigger] v[k]) by {
            if k < s.len() {
                assert(s[k] == v[k]);
            }
        }
        assert forall|k: int| 0 <= k < v.len() implies rank_key(#[trigger] v[k]) <= rank_key(hi) by {
            if k < s.len() {
                assert(s[k] == v[k]);
            }
        }
        assert(exists|k: int| 0 <= k < v.len() && rank_key(#[trigger] v[k]) == rank_key(lo)) by {
            if s.len() > 0 && !is_below(x, crate::score::lowest(s)) {
                let k = choose|k: int|
                    0 <= k < s.len() && rank_key(#[trigger] s[k]) == rank_key(
                        crate::score::lowest(s),
                    );
                assert(rank_key(v[k]) == rank_key(lo));
            } else {
                assert(rank_key(v[v.len() - 1]) == rank_key(lo));
            }
        }
        assert(exists|k: int| 0 <= k < v.len() && rank_key(#[trigger] v[k]) == rank_key(hi)) by {
            if s.len() > 0 && !is_below(crate::score::highest(s), x) {
                let k = choose|k: int|
                    0 <= k < s.len() && rank_key(#[trigger] s[k]) == rank_key(
                        crate::score::highest(s),
                    );
                assert(rank_key(v[k]) == rank_key(hi));
            } else {
                assert(rank_key(v[v.len() - 1]) == rank_key(hi));
            }
        }
    }
}

proof fn lemma_rank_of_number(x: Binary64)
    requires
        !not_a_number(x),
    ensures
        SIGN - INFINITE <= rank_key(x) <= SIGN + INFINITE,
{
}

/// Numbers without a sign added up from the first to the last.
pub open spec fn added_unsigned(v: Seq<Binary64>) -> Binary64 {
    v.fold_left(Binary64 { bits: 0 }, |t: Binary64, x: Binary64| sum(t, x))
}

/// The weights of some criteria.
pub open spec fn weights_of(c: Seq<Criterion>) -> Seq<Binary64> {
    c.map_values(|x: Criterion| x.weight)
}

/// The mean of each criterion, times its share in the sum of the weights.
pub open spec fn weighted_means(c: Seq<Criterion>, replies: Seq<JudgeResult>) -> Seq<Binary64> {
    Seq::new(
        c.len(),
        |i: int|
            product(
                unsigned(trimmed_mean_of(samples(replies, c[i].id@))),
                quotient(c[i].weight, added_unsigned(weights_of(c))),
            ),
    )
}

pub(crate) proof fn lemma_weights_sum_added(c: Seq<Criterion>)
    ensures
        weights_sum(c) == added_unsigned(weights_of(c)),
    decreases c.len(),
{
    reveal(Seq::fold_left);
    if c.len() > 0 {
        lemma_weights_sum_added(c.drop_last());
        assert(weights_of(c).drop_last() =~= weights_of(c.drop_last()));
        assert(weights_of(c).last() == c.last().weight);
    }
}

proof fn lemma_zero_product(x: Binary64)
    requires
        x.bits < INFINITE,
    ensures
        product(Binary64 { bits: 0 }, x).bits == 0,
{
    lemma_zero_units();
    lemma_pow2_pos(UNIT_SHIFT as nat);
    lemma_nothing(one());
    let q = units(x.bits as nat);
    assert(0 * q == 0) by (nonlinear_arith);
}

proof fn lemma_term_unsigned(c: Seq<Criterion>, replies: Seq<JudgeResult>, i: int)
    requires
        0 <= i < c.len(),
    ensures
        unsigned(term(c, replies, i)) == weighted_means(c, replies)[i],
        term(c, replies, i).not_negative(),
{
    lemma_weights_sum_added(c);
    let mean = trimmed_mean_of(samples(replies, c[i].id@));
    let s = share(c, i);
    lemma_nearest_range(units(unsigned(mean).bits as nat) * units(s.bits as nat), one());
    if mean.bits == SIGN && s.bits < INFINITE {
        lemma_zero_product(s);
    }
}

proof fn lemma_added_terms(c: Seq<Criterion>, replies: Seq<JudgeResult>, n: nat)
    requires
        n <= c.len(),
    ensures
        sum_of(terms(c, replies, n)).not_negative(),
        unsigned(sum_of(terms(c, replies, n))) == added_unsigned(
            weighted_means(c, replies).take(n as int),
        ),
    decreases n,
{
    reveal(Seq::fold_left);
    let w = weighted_means(c, replies);
    if n > 0 {
        let m = (n - 1) as nat;
        lemma_added_terms(c, replies, m);
        lemma_term_unsigned(c, replies, n - 1);
        let t = terms(c, replies, n);
        assert(t.drop_last() =~= terms(c, replies, m));
        assert(t.last() == term(c, replies, n - 1));
        lemma_sum_not_negative(sum_of(terms(c, replies, m)), t.last());
        assert(w.take(n as int).drop_last() =~= w.take(m as int));
        assert(w.take(n as int).last() == w[n - 1]);
        let a = added_unsigned(w.take(m as int));
        assert(unsigned(a) == a);
    } else {
        assert(terms(c, replies, 0) =~= Seq::empty());
        assert(w.take(0) =~= Seq::empty());
    }
}

/// A number taken to the nearest tenth.
pub open spec fn tenths(x: Binary64) -> Binary64 {
    quotient(rounded(product(x, fraction(10, 1))), fraction(10, 1))
}

proof fn lemma_tenths_of_zero()
    ensures
        tenths(Binary64 { bits: 0 }).bits == 0,
{
    crate::range::lemma_integer(10);
    crate::range::lemma_integer(0);
    lemma_zero_units();
    let ten = fraction(10, 1);
    lemma_zero_product(ten);
    let u = one();
    lemma_pow2_pos(UNIT_SHIFT as nat);
    assert((2 * 0 + u) / (2 * u) == 0) by (nonlinear_arith)
        requires
            u > 0,
    ;
    lemma_nothing(1);
    assert(0 * u == 0) by (nonlinear_arith);
    assert(fraction(0, 1).bits == 0);
    lemma_nothing_divided(ten);
}

/// The total is the sum of the means, each times the share of its weight in the sum of all weights,
/// taken to the nearest tenth; but for the sign of a zero.
pub proof fn law_total(c: Seq<Criterion>, replies: Seq<JudgeResult>)
    ensures
        unsigned(total_score(c, replies)) == unsigned(
            tenths(added_unsigned(weighted_means(c, replies))),
        ),
{
    lemma_added_terms(c, replies, c.len());
    assert(weighted_means(c, replies).take(c.len() as int) =~= weighted_means(c, replies));
    let x = weighted(c, replies);
    if x.bits == SIGN {
        lemma_tenths_of_zero();
    }
}

/// What a score holds: the total, and for each criterion of the contest its scores, their trimmed
/// mean and their spread; what the document lacks; the instructions; and the comment of each reply.
pub proof fn law_score(
    s: Scored,
    sp: Spec,
    label: Seq<char>,
    doc: Seq<char>,
    replies: Seq<JudgeResult>,
    i: int,
    k: int,
)
    requires
        is_score_of(s, sp, label, doc, replies),
        0 <= i < sp.criteria@.len(),
        0 <= k < replies.len(),
    ensures
        s.label@ == label,
        s.total == total_score(sp.criteria@, replies),
        s.per_criterion@.len() == sp.criteria@.len(),
        s.per_criterion@[i].id@ == sp.criteria@[i].id@,
        s.per_criterion@[i].raw@ == samples(replies, sp.criteria@[i].id@),
        s.per_criterion@[i].mean == trimmed_mean_of(s.per_criterion@[i].raw@),
        s.per_criterion@[i].spread == spread_of(s.per_criterion@[i].raw@),
        views(s.missing_sections@) == missing_in(sp.sections@, doc),
        views(s.format_issues@) == issues_of(sp, doc),
        describes(s.metrics, doc),
        views(s.improvements@) == all_instructions(
            views(s.format_issues@),
            replies,
            replies.len(),
        ),
        s.rounds == replies.len(),
        s.comments@.len() == replies.len(),
        s.comments@[k]@ == replies[k].comment@,
{
    assert(summarizes(s.per_criterion@[i], sp.criteria@[i], replies));
    let all = replies.map_values(|r: JudgeResult| r.comment@);
    assert(views(s.comments@).len() == s.comments@.len());
    assert(views(s.comments@)[k] == s.comments@[k]@);
    assert(all[k] == replies[k].comment@);
}

/// The mean of a criterion is the one of the first statistics under its id, or zero where there are
/// none.
pub proof fn law_mean_under(stats: Seq<CriterionStats>, id: Seq<char>, k: int)
    requires
        0 <= k <= stats.len(),
        forall|j: int| 0 <= j < k ==> (#[trigger] stats[j]).id@ != id,
    ensures
        k < stats.len() && stats[k].id@ == id ==> mean_under(stats, id) == stats[k].mean,
        k == stats.len() ==> mean_under(stats, id) == (Binary64 { bits: 0 }),
    decreases stats.len(),
{
    if k > 0 {
        let rest = stats.drop_first();
        assert(stats[0].id@ != id);
        assert forall|j: int| 0 <= j < k - 1 implies (#[trigger] rest[j]).id@ != id by {
            assert(rest[j] == stats[j + 1]);
        }
        law_mean_under(rest, id, k - 1);
        if k < stats.len() {
            assert(rest[k - 1] == stats[k]);
        }
    }
}

/// The line that tells of a weak criterion.
pub open spec fn line_of(name: Seq<char>, mean: Binary64) -> Seq<char> {
    "- "@ + name + " : "@ + fixed(mean, 0) + "/100"@
}

/// Whether a criterion goes before another in the order from the lowest mean, equal ones in the
/// order of the contest.
pub open spec fn is_weaker(m: Seq<Binary64>, i: int, j: int) -> bool {
    rank_key(m[i]) < rank_key(m[j]) || (rank_key(m[i]) == rank_key(m[j]) && i < j)
}

/// The weak points are the lines of the two criteria with the lowest means, the lower one first; of
/// one criterion, its line.
pub proof fn law_weak_points(
    criteria: Seq<Criterion>,
    stats: Seq<CriterionStats>,
    i: int,
    j: int,
)
    requires
        criteria.len() <= usize::MAX,
        0 <= i < criteria.len(),
        0 <= j < criteria.len(),
        forall|k: int|
            0 <= k < criteria.len() ==> !not_a_number(
                mean_under(stats, (#[trigger] criteria[k]).id@),
            ),
        i == j ==> criteria.len() == 1,
        i != j ==> ({
            let m = criteria.map_values(|c: Criterion| mean_under(stats, c.id@));
            &&& is_weaker(m, i, j)
            &&& forall|k: int|
                0 <= k < criteria.len() && k != i && k != j ==> #[trigger] is_weaker(m, j, k)
        }),
    ensures
        weak_text(criteria, stats) == if i == j {
            line_of(criteria[i].name@, mean_under(stats, criteria[i].id@))
        } else {
            line_of(criteria[i].name@, mean_under(stats, criteria[i].id@)) + "\n"@ + line_of(
                criteria[j].name@,
                mean_under(stats, criteria[j].id@),
            )
        },
{
    let m = means(criteria, stats);
    let all = order(m, criteria.len(), false);
    law_order(m, criteria.len(), false);
    assert(all_numbers(m, criteria.len())) by {
        assert forall|k: int| 0 <= k < criteria.len() implies !not_a_number(#[trigger] m[k]) by {
            assert(!not_a_number(mean_under(stats, criteria[k].id@)));
        }
    }
    let low = weakest(criteria, stats);
    let f = |i: usize| weak_line(criteria[i as int], m[i as int]);
    reveal_with_fuel(crate::text::join, 3);
    if i == j {
        assert(all[0] < 1);
        assert(low.map_values(f) =~= seq![f(i as usize)]);
    } else {
        assert(all.contains(i as usize) && all.contains(j as usize));
        let a = choose|a: int| 0 <= a < all.len() && all[a] == i as usize;
        let b = choose|b: int| 0 <= b < all.len() && all[b] == j as usize;
        assert(a < b) by {
            if b < a {
                let u = all[b];
                let v = all[a];
            }
        }
        assert(a == 0) by {
            if a > 0 {
                let u = all[0];
                let v = all[a];
                let k = u as int;
                assert(k != i);
                if k != j {
                    assert(is_weaker(m, j, k));
                } else {
                    let w = all[b];
                }
            }
        }
        assert(b == 1) by {
            if b > 1 {
                let u = all[1];
                let v = all[b];
                let w = all[0];
                let k = u as int;
                assert(k != j && k != i);
                assert(is_weaker(m, j, k));
            }
        }
        assert(low =~= seq![i as usize, j as usize]);
        let lines = low.map_values(f);
        assert(lines =~= seq![f(i as usize), f(j as usize)]);
        assert(lines.drop_last() =~= seq![f(i as usize)]);
    }
}

/// Scores that hold the same have the same total, the same statistics of each criterion, and the same
/// texts.
pub proof fn law_same_scored(a: Scored, b: Scored, i: int)
    requires
        same_scored(a, b),
        0 <= i < a.per_criterion@.len(),
    ensures
        a.label@ == b.label@,
        a.total == b.total,
        a.per_criterion@.len() == b.per_criterion@.len(),
        a.per_criterion@[i].id@ == b.per_criterion@[i].id@,
        a.per_criterion@[i].mean == b.per_criterion@[i].mean,
        a.per_criterion@[i].raw@ == b.per_criterion@[i].raw@,
        a.per_criterion@[i].spread == b.per_criterion@[i].spread,
        views(a.missing_sections@) == views(b.missing_sections@),
        views(a.format_issues@) == views(b.format_issues@),
        a.metrics.chars == b.metrics.chars,
        a.metrics.tables == b.metrics.tables,
        a.metrics.citations == b.metrics.citations,
        a.metrics.years == b.metrics.years,
        views(a.improvements@) == views(b.improvements@),
        views(a.comments@) == views(b.comments@),
        a.rounds == b.rounds,
        views(a.models@) == views(b.models@),
{
    assert(same_stats(a.per_criterion@[i], b.per_criterion@[i]));
}

} // verus!
