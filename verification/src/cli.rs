//! The rules of the command line: limits of a run, the panel of judges, labels, and the handling of
//! a batch of items of which some fail.

use crate::binary64::{not_a_number, rank_key, Binary64};
use crate::contest::Spec;
use crate::generate::{angle_pool, angles_for};
use crate::llm::{view_of, Llm};
use crate::order::{all_numbers, law_order, order, order_by};
use crate::render::{fixed, fixed_string};
use crate::score::Scored;
use crate::text::{
    append_slice, chars_of, decimal, decimal_string, pieces, pieces_slice, slice_views, string_of,
    trim, trim_slice, two_digit_string, two_digits, views,
};
use vstd::prelude::*;
use vstd::string::*;

verus! {

/// The largest number of drafts of a run. Each draft is a paid call.
pub const MAX_COUNT: usize = 20;

/// The largest number of scoring rounds per document. Each round is a paid call.
pub const MAX_ROUNDS: usize = 10;

/// The largest number of rounds of a loop. Each round is made of paid calls.
pub const MAX_ITER: usize = 20;

/// The largest size of an input file in bytes: eight mebibytes.
pub const MAX_INPUT_BYTES: u64 = 8_388_608;

/// Why the arguments of a run are refused.
#[derive(Debug, Clone, Copy, PartialEq, Eq, Structural)]
pub enum BoundError {
    NoCount,
    Count(usize),
    Rounds(usize),
    MaxIter(usize),
}

/// How a bound that is exceeded is stated.
pub open spec fn too_large(what: Seq<char>, n: nat, max: nat) -> Seq<char> {
    what + " too large ("@ + decimal(n) + ", max "@ + decimal(max) + ") — "@
}

fn too_large_string(what: &str, n: usize, max: usize) -> (s: String)
    ensures
        s@ == too_large(what@, n as nat, max as nat),
{
    let mut s = String::from_str(what);
    s.append(" too large (");
    s.append(decimal_string(n as u64).as_str());
    s.append(", max ");
    s.append(decimal_string(max as u64).as_str());
    s.append(") — ");
    s
}

impl BoundError {
    /// The message for the error.
    pub open spec fn text(self) -> Seq<char> {
        match self {
            BoundError::NoCount => "count (-n) must be at least 1 (got 0)"@,
            BoundError::Count(n) => too_large("count (-n)"@, n as nat, MAX_COUNT as nat)
                + "would trigger an unbounded number of paid LLM calls"@,
            BoundError::Rounds(n) => too_large("rounds"@, n as nat, MAX_ROUNDS as nat)
                + "each round is a paid LLM call per document"@,
            BoundError::MaxIter(n) => too_large("max_iter"@, n as nat, MAX_ITER as nat)
                + "each iteration is a paid LLM call"@,
        }
    }

    /// The message for the error.
    pub fn message(&self) -> (s: String)
        ensures
            s@ == self.text(),
    {
        match self {
            BoundError::NoCount => String::from_str("count (-n) must be at least 1 (got 0)"),
            BoundError::Count(n) => {
                let mut s = too_large_string("count (-n)", *n, MAX_COUNT);
                s.append("would trigger an unbounded number of paid LLM calls");
                s
            },
            BoundError::Rounds(n) => {
                let mut s = too_large_string("rounds", *n, MAX_ROUNDS);
                s.append("each round is a paid LLM call per document");
                s
            },
            BoundError::MaxIter(n) => {
                let mut s = too_large_string("max_iter", *n, MAX_ITER);
                s.append("each iteration is a paid LLM call");
                s
            },
        }
    }
}

/// What the arguments of a run are answered with. An absent argument is never refused.
pub open spec fn bound_error(
    count: Option<usize>,
    rounds: Option<usize>,
    max_iter: Option<usize>,
) -> Option<BoundError> {
    if count matches Some(n) && n > MAX_COUNT {
        Some(BoundError::Count(count->0))
    } else if rounds matches Some(n) && n > MAX_ROUNDS {
        Some(BoundError::Rounds(rounds->0))
    } else if max_iter matches Some(n) && n > MAX_ITER {
        Some(BoundError::MaxIter(max_iter->0))
    } else {
        None
    }
}

/// Refuses arguments that would make too many paid calls.
pub fn validate_call_bounds(
    count: Option<usize>,
    rounds: Option<usize>,
    max_iter: Option<usize>,
) -> (r: Result<(), BoundError>)
    ensures
        match r {
            Ok(_) => bound_error(count, rounds, max_iter) is None,
            Err(e) => bound_error(count, rounds, max_iter) == Some(e),
        },
{
    if let Some(n) = count {
        if n > MAX_COUNT {
            return Err(BoundError::Count(n));
        }
    }
    if let Some(n) = rounds {
        if n > MAX_ROUNDS {
            return Err(BoundError::Rounds(n));
        }
    }
    if let Some(n) = max_iter {
        if n > MAX_ITER {
            return Err(BoundError::MaxIter(n));
        }
    }
    Ok(())
}

/// Refuses a number of drafts that is zero or would make too many paid calls.
pub fn validate_generation(count: usize, rounds: usize) -> (r: Result<(), BoundError>)
    ensures
        match r {
            Ok(_) => count > 0 && bound_error(Some(count), Some(rounds), None) is None,
            Err(e) => if count == 0 {
                e == BoundError::NoCount
            } else {
                bound_error(Some(count), Some(rounds), None) == Some(e)
            },
        },
{
    if count == 0 {
        return Err(BoundError::NoCount);
    }
    validate_call_bounds(Some(count), Some(rounds), None)
}

/// An input file that is too large.
#[derive(Debug, Clone)]
pub struct InputTooLarge {
    pub path: String,
    pub bytes: u64,
}

impl InputTooLarge {
    /// The message for the error.
    pub open spec fn text(self) -> Seq<char> {
        "File too large: "@ + self.path@ + " ("@ + decimal(self.bytes as nat) + " bytes, limit "@
            + decimal(MAX_INPUT_BYTES as nat) + " bytes) — check that the path is correct"@
    }

    /// The message for the error.
    pub fn message(&self) -> (s: String)
        ensures
            s@ == self.text(),
    {
        let mut s = String::from_str("File too large: ");
        s.append(self.path.as_str());
        s.append(" (");
        s.append(decimal_string(self.bytes).as_str());
        s.append(" bytes, limit ");
        s.append(decimal_string(MAX_INPUT_BYTES).as_str());
        s.append(" bytes) — check that the path is correct");
        s
    }
}

/// Refuses an input file that is larger than the limit, before it is read.
pub fn validate_input_size(path: &str, bytes: u64) -> (r: Result<(), InputTooLarge>)
    ensures
        match r {
            Ok(_) => bytes <= MAX_INPUT_BYTES,
            Err(e) => bytes > MAX_INPUT_BYTES && e.path@ == path@ && e.bytes == bytes,
        },
{
    if bytes > MAX_INPUT_BYTES {
        Err(InputTooLarge { path: String::from_str(path), bytes })
    } else {
        Ok(())
    }
}

/// Whether two optional strings are the same text.
fn is_text(s: Option<&str>, t: &str) -> (r: bool)
    ensures
        r == (s matches Some(x) && x@ == t@),
{
    match s {
        Some(x) => String::from_str(x) == String::from_str(t),
        None => false,
    }
}

/// Whether a file of a directory is a document to score, by its name and its extension: markdown
/// and text files are, but for the report itself. What is absent is not readable as text.
pub fn is_document(name: Option<&str>, extension: Option<&str>) -> (r: bool)
    ensures
        r == ((extension matches Some(e) && (e@ == "md"@ || e@ == "txt"@)) && !(name matches Some(
            n,
        ) && n@ == "report.md"@)),
{
    (is_text(extension, "md") || is_text(extension, "txt")) && !is_text(name, "report.md")
}

/// The settings that all calls of a run share.
#[derive(Debug, Clone)]
pub struct CallSettings {
    pub bin: String,
    pub retries: u32,
    pub verbose: bool,
    pub timeout_secs: u64,
    pub max_budget_usd: Option<String>,
    pub load_context: bool,
}

/// Whether a model is called with the given settings.
pub open spec fn has_settings(llm: Llm, c: CallSettings) -> bool {
    &&& llm.bin@ == c.bin@
    &&& llm.retries == c.retries
    &&& llm.verbose == c.verbose
    &&& llm.timeout_secs == c.timeout_secs
    &&& view_of(llm.max_budget_usd) == view_of(c.max_budget_usd)
    &&& llm.load_context == c.load_context
}

fn copy_option(s: &Option<String>) -> (r: Option<String>)
    ensures
        view_of(r) == view_of(*s),
{
    match s {
        Some(x) => Some(x.clone()),
        None => None,
    }
}

/// The model with the given name, called with the given settings.
pub fn build_llm(c: &CallSettings, model: Option<String>) -> (llm: Llm)
    ensures
        has_settings(llm, *c),
        llm.model == model,
{
    let mut llm = Llm::new(c.bin.clone(), model);
    llm.retries = c.retries;
    llm.verbose = c.verbose;
    llm.timeout_secs = c.timeout_secs;
    llm.max_budget_usd = copy_option(&c.max_budget_usd);
    llm.load_context = c.load_context;
    llm
}

/// The nonblank pieces among the first `n` of a list, trimmed.
pub open spec fn names_among(parts: Seq<Seq<char>>, n: nat) -> Seq<Seq<char>>
    decreases n,
{
    if n == 0 {
        Seq::empty()
    } else {
        let before = names_among(parts, (n - 1) as nat);
        let t = trim(parts[n - 1]);
        if t.len() > 0 {
            before.push(t)
        } else {
            before
        }
    }
}

/// The names in a comma-separated list.
pub open spec fn listed_names(list: Seq<char>) -> Seq<Seq<char>> {
    names_among(pieces(list, ','), pieces(list, ',').len())
}

/// The names of the judges: those listed, or else the generation model alone.
pub open spec fn judge_names(
    list: Option<Seq<char>>,
    model: Option<Seq<char>>,
) -> Seq<Option<Seq<char>>> {
    match list {
        Some(l) => listed_names(l).map_values(|n: Seq<char>| Some(n)),
        None => seq![model],
    }
}

/// The names of a list of models.
pub open spec fn model_names(v: Seq<Llm>) -> Seq<Option<Seq<char>>> {
    v.map_values(|l: Llm| view_of(l.model))
}

fn names_in(list: &str) -> (v: Vec<String>)
    ensures
        views(v@) == listed_names(list@),
{
    let chars = chars_of(list);
    let parts = pieces_slice(chars.as_slice(), ',');
    let ghost all = pieces(list@, ',');
    let mut v: Vec<String> = Vec::new();
    let mut i: usize = 0;
    assert(views(v@) =~= names_among(all, 0));
    while i < parts.len()
        invariant
            i <= parts@.len(),
            all == slice_views(parts@),
            views(v@) == names_among(all, i as nat),
        decreases parts@.len() - i,
    {
        assert(all[i as int] == parts@[i as int]@);
        let t = trim_slice(parts[i]);
        if t.len() > 0 {
            let mut name: Vec<char> = Vec::new();
            append_slice(&mut name, t);
            assert(name@ =~= t@);
            let ghost before = v@;
            v.push(string_of(&name));
            assert(views(v@) =~= views(before).push(t@));
        }
        i += 1;
    }
    v
}

/// The panel of judges: one for each name of the comma-separated list, blank ones left out; where
/// there is no list, the generation model itself.
pub fn judge_panel(c: &CallSettings, judge_model: &Option<String>, model: &Option<String>) -> (v:
    Vec<Llm>)
    ensures
        model_names(v@) == judge_names(view_of(*judge_model), view_of(*model)),
        forall|i: int| 0 <= i < v@.len() ==> has_settings(#[trigger] v@[i], *c),
{
    let mut v: Vec<Llm> = Vec::new();
    match judge_model {
        Some(list) => {
            let names = names_in(list.as_str());
            let ghost want = judge_names(view_of(*judge_model), view_of(*model));
            let mut i: usize = 0;
            while i < names.len()
                invariant
                    i <= names@.len(),
                    v@.len() == i,
                    forall|k: int|
                        0 <= k < i ==> has_settings(#[trigger] v@[k], *c) && view_of(v@[k].model)
                            == Some(names@[k]@),
                decreases names@.len() - i,
            {
                v.push(build_llm(c, Some(names[i].clone())));
                i += 1;
            }
            assert forall|k: int| 0 <= k < v@.len() implies #[trigger] model_names(v@)[k]
                == want[k] by {
                assert(views(names@)[k] == names@[k]@);
                assert(view_of(v@[k].model) == Some(names@[k]@));
            }
            assert(model_names(v@) =~= want);
        },
        None => {
            v.push(build_llm(c, copy_option(model)));
            assert(model_names(v@) =~= seq![view_of(*model)]);
        },
    }
    v
}

/// The warning that a model scores its own drafts.
pub const SELF_SCORING: &'static str =
    "Warning: the generation model and scoring model are the same. Since there is a bias toward rating its own style favorably, \
it is better to specify a different model with --judge-model.";

/// The warning about self-scoring, where it is due: the run generates, and no judge is named.
pub fn self_scoring_warning(generates: bool, judge_model: &Option<String>) -> (r: Option<
    &'static str,
>)
    ensures
        match r {
            Some(s) => generates && judge_model is None && s@ == SELF_SCORING@,
            None => !generates || judge_model is Some,
        },
{
    if generates && judge_model.is_none() {
        Some(SELF_SCORING)
    } else {
        None
    }
}

/// The label of a draft, counted from zero.
pub fn candidate_label(i: usize) -> (s: String)
    requires
        i < usize::MAX,
    ensures
        s@ == "cand"@ + two_digits(i as nat + 1),
{
    let mut s = String::from_str("cand");
    s.append(two_digit_string((i + 1) as u64).as_str());
    s
}

/// The angle of the first draft of a loop: the given one, or the first of the contest.
pub fn first_angle(angle: &str, sp: &Spec) -> (s: String)
    ensures
        s@ == if angle@.len() == 0 {
            angle_pool(*sp)[0]
        } else {
            angle@
        },
{
    if angle.unicode_len() == 0 {
        let all = angles_for(sp, 1);
        assert(views(all@).len() == 1);
        assert(views(all@)[0] == all@[0]@);
        all[0].clone()
    } else {
        String::from_str(angle)
    }
}

/// How many items the next batch takes: as many as run at a time, at least one, and no more than
/// there are.
pub open spec fn batch_size(concurrency: nat, left: nat) -> nat {
    if left < concurrency {
        left
    } else if concurrency > 0 {
        concurrency
    } else if left > 0 {
        1
    } else {
        0
    }
}

/// How many items the next batch takes: as many as run at a time, at least one, and no more than
/// there are.
pub fn batch_len(concurrency: usize, left: usize) -> (n: usize)
    ensures
        n == batch_size(concurrency as nat, left as nat),
{
    if left < concurrency {
        left
    } else if concurrency > 0 {
        concurrency
    } else if left > 0 {
        1
    } else {
        0
    }
}

/// The values of the first `n` outcomes that succeeded, in order.
pub open spec fn successes<T, E>(outcomes: Seq<Result<T, E>>, n: nat) -> Seq<T>
    decreases n,
{
    if n == 0 {
        Seq::empty()
    } else {
        let before = successes(outcomes, (n - 1) as nat);
        match outcomes[n - 1] {
            Ok(v) => before.push(v),
            Err(_) => before,
        }
    }
}

/// The errors of the first `n` outcomes that failed, in order.
pub open spec fn failures<T, E>(outcomes: Seq<Result<T, E>>, n: nat) -> Seq<E>
    decreases n,
{
    if n == 0 {
        Seq::empty()
    } else {
        let before = failures(outcomes, (n - 1) as nat);
        match outcomes[n - 1] {
            Ok(_) => before,
            Err(e) => before.push(e),
        }
    }
}

/// A list cut into batches, each as long as the number of items that run at a time allows.
pub open spec fn batches<T>(items: Seq<T>, concurrency: nat) -> Seq<Seq<T>>
    decreases items.len(),
{
    if items.len() == 0 {
        Seq::empty()
    } else {
        let n = batch_size(concurrency, items.len());
        seq![items.take(n as int)] + batches(items.skip(n as int), concurrency)
    }
}

/// The values that came of some batches, one batch after the other.
pub open spec fn batch_successes<T, E>(all: Seq<Seq<Result<T, E>>>) -> Seq<T>
    decreases all.len(),
{
    if all.len() == 0 {
        Seq::empty()
    } else {
        successes(all[0], all[0].len()) + batch_successes(all.drop_first())
    }
}

/// The errors that came of some batches, one batch after the other.
pub open spec fn batch_failures<T, E>(all: Seq<Seq<Result<T, E>>>) -> Seq<E>
    decreases all.len(),
{
    if all.len() == 0 {
        Seq::empty()
    } else {
        failures(all[0], all[0].len()) + batch_failures(all.drop_first())
    }
}

proof fn lemma_outcomes_concat<T, E>(a: Seq<Result<T, E>>, b: Seq<Result<T, E>>, n: nat)
    requires
        n <= b.len(),
    ensures
        successes(a + b, a.len() + n) == successes(a, a.len()) + successes(b, n),
        failures(a + b, a.len() + n) == failures(a, a.len()) + failures(b, n),
    decreases n,
{
    if n == 0 {
        lemma_outcomes_prefix(a, b, a.len());
        assert(successes(a, a.len()) + successes(b, 0) =~= successes(a, a.len()));
        assert(failures(a, a.len()) + failures(b, 0) =~= failures(a, a.len()));
    } else {
        lemma_outcomes_concat(a, b, (n - 1) as nat);
        assert((a + b)[a.len() + n - 1] == b[n - 1]);
        assert(a.len() + n - 1 == a.len() + (n - 1) as nat);
        assert(successes(a + b, a.len() + n) =~= successes(a, a.len()) + successes(b, n));
        assert(failures(a + b, a.len() + n) =~= failures(a, a.len()) + failures(b, n));
    }
}

proof fn lemma_outcomes_prefix<T, E>(a: Seq<Result<T, E>>, b: Seq<Result<T, E>>, n: nat)
    requires
        n <= a.len(),
    ensures
        successes(a + b, n) == successes(a, n),
        failures(a + b, n) == failures(a, n),
    decreases n,
{
    if n > 0 {
        lemma_outcomes_prefix(a, b, (n - 1) as nat);
        assert((a + b)[n - 1] == a[n - 1]);
    }
}

/// However many items run at a time, the batches together give the values and the errors of the
/// whole list, in the order of the list.
pub proof fn law_batches_make_no_difference<T, E>(outcomes: Seq<Result<T, E>>, concurrency: nat)
    ensures
        batch_successes(batches(outcomes, concurrency)) == successes(outcomes, outcomes.len()),
        batch_failures(batches(outcomes, concurrency)) == failures(outcomes, outcomes.len()),
    decreases outcomes.len(),
{
    if outcomes.len() > 0 {
        let n = batch_size(concurrency, outcomes.len());
        let a = outcomes.take(n as int);
        let b = outcomes.skip(n as int);
        law_batches_make_no_difference(b, concurrency);
        let all = batches(outcomes, concurrency);
        assert(all.drop_first() =~= batches(b, concurrency));
        assert(outcomes =~= a + b);
        lemma_outcomes_concat(a, b, b.len());
    }
}

/// The batches hold each item once, in order, and no batch holds more items than run at a time, or
/// none.
pub proof fn law_batches_hold_each_item_once<T>(items: Seq<T>, concurrency: nat)
    ensures
        batches(items, concurrency).flatten() == items,
        forall|k: int|
            0 <= k < batches(items, concurrency).len() ==> 0 < (#[trigger] batches(
                items,
                concurrency,
            )[k]).len() <= if concurrency == 0 {
                1
            } else {
                concurrency
            },
    decreases items.len(),
{
    let all = batches(items, concurrency);
    if items.len() == 0 {
        assert(all.flatten() =~= items);
    } else {
        let n = batch_size(concurrency, items.len());
        let rest = batches(items.skip(n as int), concurrency);
        law_batches_hold_each_item_once(items.skip(n as int), concurrency);
        assert(all.drop_first() =~= rest);
        assert(all.first() == items.take(n as int));
        assert(all.flatten() =~= all.first() + rest.flatten());
        assert(items =~= items.take(n as int) + items.skip(n as int));
        assert forall|k: int| 0 <= k < all.len() implies 0 < (#[trigger] all[k]).len()
            <= if concurrency == 0 {
            1
        } else {
            concurrency
        } by {
            if k > 0 {
                assert(all[k] == rest[k - 1]);
            }
        }
    }
}

/// Every outcome is a success or a failure.
pub proof fn law_outcomes_add_up<T, E>(outcomes: Seq<Result<T, E>>, n: nat)
    requires
        n <= outcomes.len(),
    ensures
        successes(outcomes, n).len() + failures(outcomes, n).len() == n,
    decreases n,
{
    if n > 0 {
        law_outcomes_add_up(outcomes, (n - 1) as nat);
    }
}

/// Parts the outcomes of a batch: the values that came of it and the errors, each in order. A
/// failure does not affect the other items.
pub fn part_outcomes<T, E>(outcomes: Vec<Result<T, E>>) -> (r: (Vec<T>, Vec<E>))
    ensures
        r.0@ == successes(outcomes@, outcomes@.len()),
        r.1@ == failures(outcomes@, outcomes@.len()),
        r.0@.len() + r.1@.len() == outcomes@.len(),
{
    let ghost all = outcomes@;
    let mut rest = outcomes;
    let mut done: Vec<T> = Vec::new();
    let mut failed: Vec<E> = Vec::new();
    let ghost mut n: nat = 0;
    while rest.len() > 0
        invariant
            n <= all.len(),
            rest@ == all.skip(n as int),
            done@ == successes(all, n),
            failed@ == failures(all, n),
            done@.len() + failed@.len() == n,
        decreases rest@.len(),
    {
        let first = rest.remove(0);
        assert(first == all[n as int]);
        assert(rest@ =~= all.skip(n as int + 1));
        match first {
            Ok(v) => done.push(v),
            Err(e) => failed.push(e),
        }
        proof {
            n = n + 1;
        }
    }
    (done, failed)
}

/// The warning about the items that failed.
pub open spec fn failed_text(
    failed: nat,
    what: Seq<char>,
    succeeded: nat,
    requested: nat,
) -> Seq<char> {
    "Warning: "@ + decimal(failed) + what + " ("@ + decimal(succeeded) + " of "@ + decimal(
        requested,
    ) + " requested succeeded)"@
}

/// The warning about the items that failed, where some did.
pub fn failed_note(failed: usize, what: &str, succeeded: usize, requested: usize) -> (r: Option<
    String,
>)
    ensures
        match r {
            Some(s) => failed > 0 && s@ == failed_text(
                failed as nat,
                what@,
                succeeded as nat,
                requested as nat,
            ),
            None => failed == 0,
        },
{
    if failed == 0 {
        return None;
    }
    let mut s = String::from_str("Warning: ");
    s.append(decimal_string(failed as u64).as_str());
    s.append(what);
    s.append(" (");
    s.append(decimal_string(succeeded as u64).as_str());
    s.append(" of ");
    s.append(decimal_string(requested as u64).as_str());
    s.append(" requested succeeded)");
    Some(s)
}

/// The totals of a list of documents.
pub open spec fn totals_of(scored: Seq<Scored>) -> Seq<Binary64> {
    scored.map_values(|s: Scored| s.total)
}

/// The documents from the highest to the lowest total, equal ones in the order of the list.
pub open spec fn ranking(scored: Seq<Scored>) -> Seq<usize> {
    order(totals_of(scored), scored.len(), true)
}

/// The ranking lists each document once. Where all totals are numbers, none stands behind one with
/// a lower total, and of two with the same total the one that stands first in the list comes first.
pub proof fn law_ranking(scored: Seq<Scored>, a: int, b: int)
    requires
        scored.len() <= usize::MAX,
        0 <= a < b < scored.len(),
    ensures
        ranking(scored).len() == scored.len(),
        ranking(scored)[a] < scored.len(),
        ranking(scored)[b] < scored.len(),
        ranking(scored)[a] != ranking(scored)[b],
        all_numbers(totals_of(scored), scored.len()) ==> rank_key(
            scored[ranking(scored)[a] as int].total,
        ) >= rank_key(scored[ranking(scored)[b] as int].total),
        all_numbers(totals_of(scored), scored.len()) && rank_key(
            scored[ranking(scored)[a] as int].total,
        ) == rank_key(scored[ranking(scored)[b] as int].total) ==> ranking(scored)[a] < ranking(
            scored,
        )[b],
{
    let v = totals_of(scored);
    let all = ranking(scored);
    law_order(v, scored.len(), true);
    if all_numbers(v, scored.len()) {
        assert(!not_a_number(v[all[a] as int]) && !not_a_number(v[all[b] as int]));
    }
}

/// Ranks documents: the positions from the highest to the lowest total, equal ones in the order of
/// the list.
pub fn rank(scored: &Vec<Scored>) -> (r: Vec<usize>)
    ensures
        r@ == ranking(scored@),
        r@.len() == scored@.len(),
        forall|a: int| 0 <= a < r@.len() ==> r@[a] < scored@.len(),
{
    let mut totals: Vec<Binary64> = Vec::new();
    let mut i: usize = 0;
    while i < scored.len()
        invariant
            i <= scored@.len(),
            totals@ == totals_of(scored@).take(i as int),
        decreases scored@.len() - i,
    {
        totals.push(scored[i].total);
        assert(totals@ =~= totals_of(scored@).take(i + 1));
        i += 1;
    }
    assert(totals@ =~= totals_of(scored@));
    order_by(&totals, true)
}

/// The line of a document in the ranking. Places are counted from zero.
pub open spec fn ranking_text(place: nat, s: Scored) -> Seq<char> {
    "  "@ + decimal(place + 1) + ". "@ + s.label@ + " — "@ + fixed(s.total, 1) + "/100"@
}

/// The line of a document in the ranking. Places are counted from zero.
pub fn ranking_line(place: usize, s: &Scored) -> (r: String)
    requires
        place < usize::MAX,
    ensures
        r@ == ranking_text(place as nat, *s),
{
    let mut r = String::from_str("  ");
    r.append(decimal_string((place + 1) as u64).as_str());
    r.append(". ");
    r.append(s.label.as_str());
    r.append(" — ");
    r.append(fixed_string(s.total, 1).as_str());
    r.append("/100");
    r
}

} // verus!
