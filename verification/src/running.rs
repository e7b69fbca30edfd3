//! The limits of a run, who judges in it, and which contests it takes.

use crate::binary64::{is_below, Binary64};
use crate::cli::{
    batch_size, bound_error, failures, judge_names, listed_names, names_among, successes,
    BoundError,
};
use crate::contest::{
    distinct_ids, load_error, usable_weight, usable_weights, Criterion, Spec, SpecError,
};
use crate::llm::{closing, inert_closing, wrapped};
use crate::signed::finite;
use crate::text::{contains, first_at, pieces, replace, trim};
use crate::words::{law_pieces, law_replace};
use vstd::prelude::*;
use vstd::string::*;

verus! {

/// Whether a number is absent, or not above a limit.
pub open spec fn within(n: Option<usize>, most: nat) -> bool {
    match n {
        Some(k) => k <= most,
        None => true,
    }
}

/// A run makes at most twenty drafts, ten scoring rounds per document and twenty rounds of a loop.
/// The first of these limits that is exceeded is told, with the number.
pub proof fn law_bounds(count: Option<usize>, rounds: Option<usize>, max_iter: Option<usize>)
    ensures
        bound_error(count, rounds, max_iter) is None <==> within(count, 20) && within(rounds, 10)
            && within(max_iter, 20),
        !within(count, 20) ==> bound_error(count, rounds, max_iter) == Some(
            BoundError::Count(count->0),
        ),
        within(count, 20) && !within(rounds, 10) ==> bound_error(count, rounds, max_iter) == Some(
            BoundError::Rounds(rounds->0),
        ),
        within(count, 20) && within(rounds, 10) && !within(max_iter, 20) ==> bound_error(
            count,
            rounds,
            max_iter,
        ) == Some(BoundError::MaxIter(max_iter->0)),
{
}

/// A batch takes as many items as may run at a time, where there are so many; else all that are left.
/// It takes at least one where there is one.
pub proof fn law_batch_size(concurrency: nat, left: nat)
    ensures
        batch_size(concurrency, left) <= left,
        left > 0 ==> batch_size(concurrency, left) > 0,
        concurrency > 0 ==> batch_size(concurrency, left) <= concurrency,
        0 < concurrency <= left ==> batch_size(concurrency, left) == concurrency,
        left < concurrency ==> batch_size(concurrency, left) == left,
        concurrency == 0 && left > 0 ==> batch_size(concurrency, left) == 1,
{
}

/// The values and the errors of some outcomes, with one more: it is added to the one or the other,
/// at the end.
pub proof fn law_outcomes<T, E>(outcomes: Seq<Result<T, E>>, more: Result<T, E>)
    ensures
        ({
            let now = outcomes.push(more);
            let n = outcomes.len();
            match more {
                Ok(v) => successes(now, n + 1) == successes(outcomes, n).push(v) && failures(
                    now,
                    n + 1,
                ) == failures(outcomes, n),
                Err(e) => successes(now, n + 1) == successes(outcomes, n) && failures(now, n + 1)
                    == failures(outcomes, n).push(e),
            }
        }),
        successes(outcomes, 0) == Seq::<T>::empty(),
        failures(outcomes, 0) == Seq::<E>::empty(),
{
    lemma_outcomes_same(outcomes, outcomes.push(more), outcomes.len());
}

proof fn lemma_outcomes_same<T, E>(a: Seq<Result<T, E>>, b: Seq<Result<T, E>>, n: nat)
    requires
        n <= a.len(),
        n <= b.len(),
        forall|k: int| 0 <= k < n ==> a[k] == b[k],
    ensures
        successes(a, n) == successes(b, n),
        failures(a, n) == failures(b, n),
    decreases n,
{
    if n > 0 {
        lemma_outcomes_same(a, b, (n - 1) as nat);
    }
}

proof fn lemma_names_concat(a: Seq<Seq<char>>, b: Seq<Seq<char>>, n: nat)
    requires
        n <= b.len(),
    ensures
        names_among(a + b, a.len() + n) == names_among(a, a.len()) + names_among(b, n),
    decreases n,
{
    if n == 0 {
        lemma_names_same(a + b, a, a.len());
        assert(names_among(a, a.len()) + names_among(b, 0) =~= names_among(a, a.len()));
    } else {
        lemma_names_concat(a, b, (n - 1) as nat);
        assert((a + b)[a.len() + n - 1] == b[n - 1]);
        assert(names_among(a + b, a.len() + n) =~= names_among(a, a.len()) + names_among(b, n));
    }
}

proof fn lemma_names_same(a: Seq<Seq<char>>, b: Seq<Seq<char>>, n: nat)
    requires
        n <= a.len(),
        n <= b.len(),
        forall|k: int| 0 <= k < n ==> a[k] == b[k],
    ensures
        names_among(a, n) == names_among(b, n),
    decreases n,
{
    if n > 0 {
        lemma_names_same(a, b, (n - 1) as nat);
    }
}

/// What is left of a name when it is trimmed, where something is.
pub open spec fn name_in(a: Seq<char>) -> Seq<Seq<char>> {
    if trim(a).len() > 0 {
        seq![trim(a)]
    } else {
        Seq::empty()
    }
}

/// The names in a list are what stands between its commas, trimmed, without the blank ones, in
/// order.
pub proof fn law_listed_names(a: Seq<char>, b: Seq<char>)
    requires
        !a.contains(','),
    ensures
        listed_names(a) == name_in(a),
        listed_names(a + seq![','] + b) == name_in(a) + listed_names(b),
{
    law_pieces(a, b, ',');
    reveal_with_fuel(names_among, 2);
    let p = pieces(b, ',');
    lemma_names_concat(seq![a], p, p.len());
    assert(names_among(seq![a], 1) =~= name_in(a));
    assert(seq![a].len() == 1);
}

/// The judges are those named in the list, in order; without a list, the generation model alone.
pub proof fn law_judges(list: Seq<char>, model: Option<Seq<char>>, i: int)
    requires
        0 <= i < listed_names(list).len(),
    ensures
        judge_names(None, model) == seq![model],
        judge_names(Some(list), model).len() == listed_names(list).len(),
        judge_names(Some(list), model)[i] == Some(listed_names(list)[i]),
{
}

/// The ids of some criteria.
pub open spec fn ids_of(criteria: Seq<Criterion>) -> Seq<Seq<char>> {
    criteria.map_values(|c: Criterion| c.id@)
}

/// Whether a weight is a number above zero that is not infinite.
pub open spec fn is_usable(w: Binary64) -> bool {
    is_below(Binary64 { bits: 0 }, w) && finite(w)
}

/// A contest is taken if and only if it has sections and criteria, each criterion has a weight above
/// zero that is not infinite, and no two criteria share an id.
pub proof fn law_contest(sp: Spec)
    ensures
        load_error(sp) is None <==> {
            &&& sp.sections@.len() > 0
            &&& sp.criteria@.len() > 0
            &&& forall|i: int|
                0 <= i < sp.criteria@.len() ==> is_usable((#[trigger] sp.criteria@[i]).weight)
            &&& ids_of(sp.criteria@).no_duplicates()
        },
        load_error(sp) == Some(SpecError::NoSections) <==> sp.sections@.len() == 0,
        load_error(sp) == Some(SpecError::NoCriteria) <==> sp.sections@.len() > 0
            && sp.criteria@.len() == 0,
        load_error(sp) == Some(SpecError::DuplicateCriterion) ==> !ids_of(
            sp.criteria@,
        ).no_duplicates(),
        load_error(sp) == Some(SpecError::BadWeight) ==> exists|i: int|
            0 <= i < sp.criteria@.len() && !is_usable((#[trigger] sp.criteria@[i]).weight),
{
    let c = sp.criteria@;
    let ids = ids_of(c);
    assert forall|i: int| 0 <= i < c.len() implies usable_weight((#[trigger] c[i]).weight)
        == is_usable(c[i].weight) by {}
    assert(distinct_ids(c) == ids.no_duplicates()) by {
        if distinct_ids(c) {
            assert forall|i: int, j: int| 0 <= i < ids.len() && 0 <= j < ids.len() && i != j implies
                ids[i] != ids[j] by {
                if i < j {
                    assert(c[i].id@ != c[j].id@);
                } else {
                    assert(c[j].id@ != c[i].id@);
                }
            }
        }
        if ids.no_duplicates() {
            assert forall|i: int, j: int|
                #![trigger c[i], c[j]]
                0 <= i < j < c.len() implies c[i].id@ != c[j].id@ by {
                assert(ids[i] != ids[j]);
            }
        }
    }
    assert(usable_weights(c) == (forall|i: int|
        0 <= i < c.len() ==> is_usable((#[trigger] c[i]).weight))) by {
        if usable_weights(c) {
            assert forall|i: int| 0 <= i < c.len() implies is_usable((#[trigger] c[i]).weight) by {
                assert(usable_weight(c[i].weight));
            }
        }
        if forall|i: int| 0 <= i < c.len() ==> is_usable((#[trigger] c[i]).weight) {
            assert forall|i: int| 0 <= i < c.len() implies usable_weight(
                #[trigger] c[i].weight,
            ) by {
                let x = c[i];
                assert(is_usable(c[i].weight));
            }
        }
    }
}

/// A block holds its content between its tags, as it is where it does not hold the closing tag.
pub proof fn law_block_holds_content(tag: Seq<char>, content: Seq<char>)
    requires
        !contains(content, seq!['<', '/'] + tag + seq!['>']),
    ensures
        wrapped(tag, content) == seq!['<'] + tag + seq!['>', '\n'] + content + seq!['\n', '<', '/']
            + tag + seq!['>'],
{
    reveal_strlit("<");
    reveal_strlit(">");
    reveal_strlit(">\n");
    reveal_strlit("</");
    reveal_strlit("\n</");
    let p = closing(tag);
    assert("</"@ =~= seq!['<', '/']);
    assert(">"@ =~= seq!['>']);
    assert("<"@ =~= seq!['<']);
    assert(">\n"@ =~= seq!['>', '\n']);
    assert("\n</"@ =~= seq!['\n', '<', '/']);
    law_replace(content, p, Seq::empty(), inert_closing(tag));
}

/// The first closing tag inside a block gets a zero-width space, and what follows it is dealt with in
/// the same way.
pub proof fn law_closing_tag_is_made_inert(tag: Seq<char>, a: Seq<char>, b: Seq<char>)
    requires
        first_at(
            a + (seq!['<', '/'] + tag + seq!['>']) + b,
            seq!['<', '/'] + tag + seq!['>'],
            a.len() as int,
        ),
    ensures
        replace(a + closing(tag) + b, closing(tag), inert_closing(tag)) == a + (seq![
            '<',
            '\u{200B}',
            '/',
        ] + tag + seq!['>']) + replace(b, closing(tag), inert_closing(tag)),
{
    reveal_strlit(">");
    reveal_strlit("</");
    reveal_strlit("<\u{200B}/");
    assert("</"@ =~= seq!['<', '/']);
    assert(">"@ =~= seq!['>']);
    assert("<\u{200B}/"@ =~= seq!['<', '\u{200B}', '/']);
    law_replace(a, closing(tag), b, inert_closing(tag));
}

} // verus!
