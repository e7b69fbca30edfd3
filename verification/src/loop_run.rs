//! The self-improvement loop: when it goes on, why it stops, and what comes out of it.
//!
//! A round scores a draft. `LoopRun::record` takes the scored draft and answers with what to do
//! next; `LoopRun::finish` sums up the rounds.

use crate::binary64::{
    difference, fraction, is_below, not_a_number, product, quotient, rank_key, reaches, unsigned,
    Binary64,
};
use crate::contest::Spec;
use crate::render::{fixed, fixed_string};
use crate::score::{feedback, feedback_text, same_scored, weak_points, weak_text, Scored};
use crate::text::{decimal, decimal_string, two_digit_string, two_digits, views};
use vstd::prelude::*;
use vstd::string::*;

verus! {

/// The settings of a loop.
#[derive(Debug, Clone, Copy)]
pub struct LoopCfg {
    /// The total at which the loop stops, if the draft has no format issues.
    pub target: Binary64,
    pub max_iter: usize,
    /// The number of scoring rounds per draft.
    pub rounds: usize,
    /// A gain over the best total so far that is less than this is none.
    pub min_delta: Binary64,
    /// The number of rounds in a row without a gain at which the loop stops.
    pub patience: usize,
}

/// Why a loop stopped.
#[derive(Debug, Clone, Copy, PartialEq, Eq, Structural)]
pub enum StopReason {
    MaxIterations(usize),
    Target(Binary64),
    Stalled { patience: usize, min_delta: Binary64 },
}

impl StopReason {
    /// The reason in words.
    pub open spec fn text(self) -> Seq<char> {
        match self {
            StopReason::MaxIterations(n) => "Reached max iterations ("@ + decimal(n as nat) + ")"@,
            StopReason::Target(t) => "Reached target ("@ + fixed(t, 0) + " points)"@,
            StopReason::Stalled { patience, min_delta } => "Improvement stalled ("@ + decimal(
                patience as nat,
            ) + " consecutive rounds under +"@ + fixed(min_delta, 1) + " points)"@,
        }
    }

    /// The reason in words.
    pub fn message(&self) -> (s: String)
        ensures
            s@ == self.text(),
    {
        match self {
            StopReason::MaxIterations(n) => {
                let mut s = String::from_str("Reached max iterations (");
                s.append(decimal_string(*n as u64).as_str());
                s.append(")");
                s
            },
            StopReason::Target(t) => {
                let mut s = String::from_str("Reached target (");
                s.append(fixed_string(*t, 0).as_str());
                s.append(" points)");
                s
            },
            StopReason::Stalled { patience, min_delta } => {
                let mut s = String::from_str("Improvement stalled (");
                s.append(decimal_string(*patience as u64).as_str());
                s.append(" consecutive rounds under +");
                s.append(fixed_string(*min_delta, 1).as_str());
                s.append(" points)");
                s
            },
        }
    }
}

/// What follows a round: the loop stops, or the draft is revised.
#[derive(Debug, Clone)]
pub enum Next {
    Stop(StopReason),
    Revise { feedback: String, weak: String },
}

/// What comes out of a loop.
#[derive(Debug, Clone)]
pub struct LoopOutcome {
    pub best_label: String,
    pub best_doc: String,
    pub best_score: Scored,
    pub first_doc: String,
    pub history: Vec<Scored>,
    pub stop_reason: String,
    /// Signs that the gain may not be a real one.
    pub warnings: Vec<String>,
}

/// The rounds of a loop so far.
#[derive(Debug, Clone)]
pub struct LoopRun {
    pub docs: Vec<String>,
    pub history: Vec<Scored>,
    /// The round with the best total.
    pub best: usize,
    /// The number of rounds in a row without a gain.
    pub stall: usize,
}

/// How many rounds there are at most. One is always made.
pub open spec fn limit(max_iter: usize) -> nat {
    if max_iter == 0 {
        1
    } else {
        max_iter as nat
    }
}

/// How many rounds there are at most.
pub fn round_limit(max_iter: usize) -> (n: usize)
    ensures
        n == limit(max_iter),
{
    if max_iter == 0 {
        1
    } else {
        max_iter
    }
}

/// The label of a round, counted from zero.
pub open spec fn label_text(round: nat) -> Seq<char> {
    "iter"@ + two_digits(round + 1)
}

/// The label of a round, counted from zero.
pub fn iteration_label(round: usize) -> (s: String)
    requires
        round < usize::MAX,
    ensures
        s@ == label_text(round as nat),
{
    let mut s = String::from_str("iter");
    s.append(two_digit_string((round + 1) as u64).as_str());
    s
}

/// The totals of the rounds.
pub open spec fn totals(history: Seq<Scored>) -> Seq<Binary64> {
    history.map_values(|s: Scored| s.total)
}

/// The round with the best total; of equal ones, the first.
pub open spec fn best_round(t: Seq<Binary64>) -> int
    decreases t.len(),
{
    if t.len() <= 1 {
        0
    } else if is_below(t[best_round(t.drop_last())], t.last()) {
        t.len() - 1
    } else {
        best_round(t.drop_last())
    }
}

/// Whether the last round gained on the best total before it, by `min_delta` or more. The first
/// round always did.
pub open spec fn gained(t: Seq<Binary64>, min_delta: Binary64) -> bool {
    if t.len() <= 1 {
        true
    } else {
        let before = t[best_round(t.drop_last())];
        is_below(before, t.last()) && !is_below(
            difference(unsigned(t.last()), unsigned(before)),
            min_delta,
        )
    }
}

/// The number of rounds in a row, up to the last, that did not gain.
pub open spec fn stalls(t: Seq<Binary64>, min_delta: Binary64) -> nat
    decreases t.len(),
{
    if t.len() == 0 || gained(t, min_delta) {
        0
    } else {
        stalls(t.drop_last(), min_delta) + 1
    }
}

/// Why the loop stops after the rounds with the given totals, if it does. `clean` says whether the
/// last draft has no format issues.
pub open spec fn stop_after(t: Seq<Binary64>, clean: bool, cfg: LoopCfg) -> Option<StopReason> {
    if clean && reaches(t.last(), cfg.target) {
        Some(StopReason::Target(cfg.target))
    } else if t.len() > 1 && stalls(t, cfg.min_delta) >= cfg.patience {
        Some(StopReason::Stalled { patience: cfg.patience, min_delta: cfg.min_delta })
    } else if t.len() >= limit(cfg.max_iter) {
        Some(StopReason::MaxIterations(limit(cfg.max_iter) as usize))
    } else {
        None
    }
}

/// Whether the totals are not below zero.
pub open spec fn usable_totals(t: Seq<Binary64>) -> bool {
    forall|i: int| 0 <= i < t.len() ==> (#[trigger] t[i]).not_negative()
}

/// The growth of a draft from one length to another, as a share of the first.
pub open spec fn growth(first: nat, best: nat) -> Binary64 {
    quotient(difference(fraction(best, 1), fraction(first, 1)), fraction(first, 1))
}

/// What the total gained from one draft to another that is not below it.
pub open spec fn gain(first: Scored, best: Scored) -> Binary64 {
    difference(unsigned(best.total), unsigned(first.total))
}

/// Whether a draft grew by a quarter or more while its total gained less than five points.
pub open spec fn is_padded(first: Scored, best: Scored) -> bool {
    &&& first.metrics.chars > 0
    &&& fraction(first.metrics.chars as nat, 1).bits <= fraction(best.metrics.chars as nat, 1).bits
    &&& reaches(growth(first.metrics.chars as nat, best.metrics.chars as nat), fraction(1, 4))
    &&& is_below(gain(first, best), fraction(5, 1))
}

/// The warning about a draft that grew more than it gained.
pub open spec fn padding_text(first: Scored, best: Scored) -> Seq<char> {
    "Length canary: length +"@ + fixed(
        product(growth(first.metrics.chars as nat, best.metrics.chars as nat), fraction(100, 1)),
        0,
    ) + "% but score only +"@ + fixed(gain(first, best), 1)
        + " points → may be padding rather than substantive improvement"@
}

/// The warning that the last round is not the best.
pub open spec fn not_last_text(last: Binary64, best: nat) -> Seq<char> {
    "Last round ("@ + fixed(last, 1) + " points) is not the best score → best.md is "@ + label_text(
        best,
    )
}

/// The warnings about the rounds of a loop.
pub open spec fn warnings_of(history: Seq<Scored>, best: int) -> Seq<Seq<char>> {
    let padded = if is_padded(history[0], history[best]) {
        seq![padding_text(history[0], history[best])]
    } else {
        Seq::empty()
    };
    if best + 1 < history.len() {
        padded.push(not_last_text(history.last().total, best as nat))
    } else {
        padded
    }
}

/// The line that reports a round.
pub open spec fn progress_text(s: Scored) -> Seq<char> {
    let start = "  ["@ + s.label@ + "] "@ + fixed(s.total, 1) + "/100  ("@ + decimal(
        s.metrics.chars as nat,
    ) + " chars"@;
    if s.format_issues@.len() == 0 {
        start + ")"@
    } else {
        start + ", "@ + decimal(s.format_issues@.len()) + " format issues)"@
    }
}

/// The line that reports a round.
pub fn progress_line(s: &Scored) -> (r: String)
    ensures
        r@ == progress_text(*s),
{
    let mut r = String::from_str("  [");
    r.append(s.label.as_str());
    r.append("] ");
    r.append(fixed_string(s.total, 1).as_str());
    r.append("/100  (");
    r.append(decimal_string(s.metrics.chars as u64).as_str());
    r.append(" chars");
    if s.format_issues.len() == 0 {
        r.append(")");
    } else {
        r.append(", ");
        r.append(decimal_string(s.format_issues.len() as u64).as_str());
        r.append(" format issues)");
    }
    r
}

pub(crate) proof fn lemma_best_round(t: Seq<Binary64>)
    ensures
        0 <= best_round(t),
        t.len() > 0 ==> best_round(t) < t.len(),
        t.len() > 0 ==> rank_key(t[0]) <= rank_key(t[best_round(t)]),
    decreases t.len(),
{
    if t.len() > 1 {
        let s = t.drop_last();
        lemma_best_round(s);
        assert(s[0] == t[0]);
        assert(s[best_round(s)] == t[best_round(s)]);
    }
}

proof fn lemma_stalls(t: Seq<Binary64>, min_delta: Binary64)
    ensures
        stalls(t, min_delta) <= t.len(),
    decreases t.len(),
{
    if t.len() > 0 {
        lemma_stalls(t.drop_last(), min_delta);
    }
}

/// No round has a better total than the best one, and no earlier one has as good a total.
pub proof fn law_best(t: Seq<Binary64>)
    requires
        t.len() > 0,
        usable_totals(t),
        forall|i: int| 0 <= i < t.len() ==> !not_a_number(#[trigger] t[i]),
    ensures
        0 <= best_round(t) < t.len(),
        forall|k: int| 0 <= k < t.len() ==> !is_below(t[best_round(t)], #[trigger] t[k]),
        forall|k: int| 0 <= k < best_round(t) ==> is_below(#[trigger] t[k], t[best_round(t)]),
    decreases t.len(),
{
    if t.len() > 1 {
        let s = t.drop_last();
        assert forall|i: int| 0 <= i < s.len() implies (#[trigger] s[i]).not_negative()
            && !not_a_number(s[i]) by {
            assert(s[i] == t[i]);
        }
        law_best(s);
        let b = best_round(s);
        assert(s[b] == t[b]);
        assert(t[b].not_negative() && !not_a_number(t[b]));
        assert(t.last() == t[t.len() - 1]);
        assert(t.last().not_negative() && !not_a_number(t.last()));
        assert forall|k: int| 0 <= k < t.len() implies !is_below(
            t[best_round(t)],
            #[trigger] t[k],
        ) by {
            if k < s.len() {
                assert(s[k] == t[k]);
            }
        }
        assert forall|k: int| 0 <= k < best_round(t) implies is_below(
            #[trigger] t[k],
            t[best_round(t)],
        ) by {
            assert(s[k] == t[k]);
            assert(t[k].not_negative() && !not_a_number(t[k]));
            assert(!is_below(s[b], s[k]));
        }
    }
}

/// The loop goes on only while it has made fewer rounds than the limit.
pub proof fn law_limit(t: Seq<Binary64>, clean: bool, cfg: LoopCfg)
    requires
        stop_after(t, clean, cfg) is None,
    ensures
        t.len() < limit(cfg.max_iter),
{
}

/// The loop never stops for want of gains after its first round, whatever the patience.
pub proof fn law_first_round(t: Seq<Binary64>, clean: bool, cfg: LoopCfg)
    requires
        t.len() == 1,
    ensures
        !(stop_after(t, clean, cfg) matches Some(StopReason::Stalled { .. })),
{
}

/// A draft with format issues never reaches the target.
pub proof fn law_target_needs_clean(t: Seq<Binary64>, cfg: LoopCfg)
    ensures
        !(stop_after(t, false, cfg) matches Some(StopReason::Target(_))),
{
}

/// The loop stops for want of gains only where the last `patience` rounds gained less than
/// `min_delta` each.
pub proof fn law_stalled(t: Seq<Binary64>, clean: bool, cfg: LoopCfg, k: int)
    requires
        stop_after(t, clean, cfg) matches Some(StopReason::Stalled { .. }),
        t.len() - cfg.patience <= k < t.len(),
    ensures
        0 < k,
        !gained(t.take(k + 1), cfg.min_delta),
{
    lemma_stalled(t, cfg.min_delta, k);
}

proof fn lemma_stalled(t: Seq<Binary64>, min_delta: Binary64, k: int)
    requires
        t.len() - stalls(t, min_delta) <= k < t.len(),
    ensures
        0 < k,
        !gained(t.take(k + 1), min_delta),
    decreases t.len(),
{
    if k == t.len() - 1 {
        assert(t.take(k + 1) =~= t);
    } else {
        lemma_stalled(t.drop_last(), min_delta, k);
        assert(t.drop_last().take(k + 1) =~= t.take(k + 1));
    }
}

impl LoopRun {
    /// Whether the record is sound: as many drafts as scores, the best round and the number of
    /// rounds without a gain as the totals give them.
    pub open spec fn wf(self, cfg: LoopCfg) -> bool {
        &&& self.docs@.len() == self.history@.len()
        &&& usable_totals(totals(self.history@))
        &&& self.best == best_round(totals(self.history@))
        &&& self.stall == stalls(totals(self.history@), cfg.min_delta)
    }

    /// A loop that has made no round yet.
    pub fn new(cfg: &LoopCfg) -> (r: LoopRun)
        ensures
            r.wf(*cfg),
            r.history@.len() == 0,
    {
        LoopRun { docs: Vec::new(), history: Vec::new(), best: 0, stall: 0 }
    }

    /// Takes the draft of a round with its score, and says what follows.
    pub fn record(&mut self, cfg: &LoopCfg, sp: &Spec, doc: String, s: Scored) -> (next: Next)
        requires
            old(self).wf(*cfg),
            old(self).history@.len() < usize::MAX,
            s.total.not_negative(),
        ensures
            final(self).wf(*cfg),
            final(self).docs@ == old(self).docs@.push(doc),
            final(self).history@ == old(self).history@.push(s),
            match next {
                Next::Stop(reason) => stop_after(
                    totals(final(self).history@),
                    s.format_issues@.len() == 0,
                    *cfg,
                ) == Some(reason),
                Next::Revise { feedback: f, weak: w } => stop_after(
                    totals(final(self).history@),
                    s.format_issues@.len() == 0,
                    *cfg,
                ) is None && f@ == feedback(s) && w@ == weak_text(sp.criteria@, s.per_criterion@),
            },
    {
        let ghost before = totals(self.history@);
        let ghost t = before.push(s.total);
        assert(t.drop_last() =~= before);
        proof {
            lemma_best_round(before);
            lemma_stalls(before, cfg.min_delta);
        }
        let n: usize = self.history.len();
        let gain: bool = if n == 0 {
            true
        } else {
            let b = self.history[self.best].total;
            assert(b == before[self.best as int]);
            assert(b.not_negative());
            if b.below(s.total) {
                self.best = n;
                !s.total.without_zero_sign().minus(b.without_zero_sign()).below(cfg.min_delta)
            } else {
                false
            }
        };
        assert(gain == gained(t, cfg.min_delta));
        if gain {
            self.stall = 0;
        } else {
            self.stall = self.stall + 1;
        }
        let clean = s.format_issues.len() == 0;
        let at_target = clean && s.total.at_least(cfg.target);
        let next = if at_target {
            Next::Stop(StopReason::Target(cfg.target))
        } else if n > 0 && self.stall >= cfg.patience {
            Next::Stop(StopReason::Stalled { patience: cfg.patience, min_delta: cfg.min_delta })
        } else if n + 1 >= round_limit(cfg.max_iter) {
            Next::Stop(StopReason::MaxIterations(round_limit(cfg.max_iter)))
        } else {
            Next::Revise { feedback: feedback_text(&s), weak: weak_points(sp, &s) }
        };
        self.history.push(s);
        self.docs.push(doc);
        assert(totals(self.history@) =~= t);
        next
    }

    /// Sums up the rounds: the best draft, not the last one, and what speaks against it.
    pub fn finish(self, cfg: &LoopCfg, reason: &StopReason) -> (r: LoopOutcome)
        requires
            self.wf(*cfg),
            self.history@.len() > 0,
        ensures
            r.history@ == self.history@,
            r.stop_reason@ == reason.text(),
            r.first_doc@ == self.docs@[0]@,
            ({
                let best = best_round(totals(self.history@));
                &&& r.best_doc@ == self.docs@[best]@
                &&& same_scored(r.best_score, self.history@[best])
                &&& r.best_label@ == self.history@[best].label@
                &&& views(r.warnings@) == warnings_of(self.history@, best)
            }),
    {
        let ghost t = totals(self.history@);
        proof {
            lemma_best_round(t);
        }
        let best: usize = self.best;
        let n: usize = self.history.len();
        let best_score = self.history[best].copy();
        let first = &self.history[0];
        assert(t[0] == first.total && t[best as int] == best_score.total);
        assert(t[0].not_negative() && t[best as int].not_negative());
        let mut warnings: Vec<String> = Vec::new();
        let d_score = best_score.total.without_zero_sign().minus(first.total.without_zero_sign());
        let before = Binary64::ratio(first.metrics.chars as u64, 1);
        let after = Binary64::ratio(best_score.metrics.chars as u64, 1);
        assert(best_score.metrics == self.history@[best as int].metrics);
        let mut padded = false;
        if first.metrics.chars > 0 && before.bits <= after.bits {
            let grown = after.minus(before).over(before);
            if grown.at_least(Binary64::ratio(1, 4)) && d_score.below(Binary64::ratio(5, 1)) {
                padded = true;
                let mut w = String::from_str("Length canary: length +");
                w.append(fixed_string(grown.times(Binary64::ratio(100, 1)), 0).as_str());
                w.append("% but score only +");
                w.append(fixed_string(d_score, 1).as_str());
                w.append(" points → may be padding rather than substantive improvement");
                warnings.push(w);
            }
        }
        assert(padded == is_padded(self.history@[0], self.history@[best as int]));
        let ghost so_far = warnings@;
        assert(views(so_far) =~= if padded {
            seq![padding_text(self.history@[0], self.history@[best as int])]
        } else {
            Seq::empty()
        });
        if best + 1 < n {
            let mut w = String::from_str("Last round (");
            w.append(fixed_string(self.history[n - 1].total, 1).as_str());
            w.append(" points) is not the best score → best.md is ");
            w.append(iteration_label(best).as_str());
            warnings.push(w);
            assert(views(warnings@) =~= views(so_far).push(w@));
        }
        LoopOutcome {
            best_label: best_score.label.clone(),
            best_doc: self.docs[best].clone(),
            first_doc: self.docs[0].clone(),
            best_score,
            history: self.history,
            stop_reason: reason.message(),
            warnings,
        }
    }
}

} // verus!
