//! What the messages, the labels and the lenses say.

use crate::cli::{failed_text, has_settings, ranking_text, BoundError, CallSettings};
use crate::llm::{code_text, Llm, LlmError};
use crate::loop_run::{label_text, progress_text, StopReason};
use crate::render::fixed;
use crate::report::{quoted, quoted_comments, quoted_lines};
use crate::score::{discarded_text, failure_text, lenses, ScoreError, Scored};
use crate::prompting::{lemma_all, lemma_left, lemma_right};
use crate::text::{contains, decimal, lines, trim, two_digits};
use vstd::prelude::*;
use vstd::string::*;

verus! {

/// The reason for which a loop stopped is told with its numbers.
pub proof fn law_stop_text(n: usize, patience: usize, x: crate::binary64::Binary64)
    ensures
        StopReason::MaxIterations(n).text() == "Reached max iterations ("@ + decimal(n as nat)
            + ")"@,
        StopReason::Target(x).text() == "Reached target ("@ + fixed(x, 0) + " points)"@,
        (StopReason::Stalled { patience, min_delta: x }).text() == "Improvement stalled ("@
            + decimal(patience as nat) + " consecutive rounds under +"@ + fixed(x, 1)
            + " points)"@,
{
}

/// A round of a loop is labelled by its number, counted from one, with two digits at least.
pub proof fn law_label(round: nat)
    ensures
        label_text(round) == "iter"@ + two_digits(round + 1),
{
}

/// The line that reports a round tells its label, its total, its length, and how many format issues
/// it has, where it has some.
pub proof fn law_progress(s: Scored)
    ensures
        s.format_issues@.len() == 0 ==> progress_text(s) == "  ["@ + s.label@ + "] "@ + fixed(
            s.total,
            1,
        ) + "/100  ("@ + decimal(s.metrics.chars as nat) + " chars"@ + ")"@,
        s.format_issues@.len() > 0 ==> progress_text(s) == "  ["@ + s.label@ + "] "@ + fixed(
            s.total,
            1,
        ) + "/100  ("@ + decimal(s.metrics.chars as nat) + " chars"@ + ", "@ + decimal(
            s.format_issues@.len(),
        ) + " format issues)"@,
{
}

/// The line of the ranking tells the place, counted from one, the label and the total.
pub proof fn law_ranking_line(place: nat, s: Scored)
    ensures
        ranking_text(place, s) == "  "@ + decimal(place + 1) + ". "@ + s.label@ + " — "@ + fixed(
            s.total,
            1,
        ) + "/100"@,
{
}

/// A refused number is told with its limit: twenty drafts, ten rounds per document, twenty rounds of
/// a loop.
pub proof fn law_bound_text(n: usize)
    ensures
        BoundError::NoCount.text() == "count (-n) must be at least 1 (got 0)"@,
        BoundError::Count(n).text() == "count (-n)"@ + " too large ("@ + decimal(n as nat)
            + ", max "@ + decimal(20) + ") — "@
            + "would trigger an unbounded number of paid LLM calls"@,
        BoundError::Rounds(n).text() == "rounds"@ + " too large ("@ + decimal(n as nat) + ", max "@
            + decimal(10) + ") — "@ + "each round is a paid LLM call per document"@,
        BoundError::MaxIter(n).text() == "max_iter"@ + " too large ("@ + decimal(n as nat)
            + ", max "@ + decimal(20) + ") — "@ + "each iteration is a paid LLM call"@,
{
}

/// The warning about failed items tells how many failed, how many succeeded, and how many were
/// asked for.
pub proof fn law_failed_text(failed: nat, what: Seq<char>, succeeded: nat, requested: nat)
    ensures
        failed_text(failed, what, succeeded, requested) == "Warning: "@ + decimal(failed) + what
            + " ("@ + decimal(succeeded) + " of "@ + decimal(requested) + " requested succeeded)"@,
{
}

/// The errors of the model program are told with what it said.
pub proof fn law_error_text(program: Seq<char>, e: LlmError)
    ensures
        e matches LlmError::Exit { code, stderr } ==> e.message_text(program) == program
            + " exited with code "@ + code_text(code) + ": "@ + stderr@,
        e matches LlmError::Timeout { secs } ==> e.message_text(program) == "Timeout exceeded "@
            + decimal(secs as nat) + " seconds"@,
        e matches LlmError::ErrorResponse { subtype, result } ==> e.message_text(program)
            == program + " error response (subtype="@ + subtype@ + "): "@ + result@,
        e matches LlmError::NoJsonFound { answer } ==> e.message_text(program)
            == "Failed to extract JSON: "@ + answer@,
        code_text(None) == "None"@,
        forall|c: i32|
            c >= 0 ==> #[trigger] code_text(Some(c)) == "Some("@ + decimal(c as nat) + ")"@,
        forall|c: i32|
            c < 0 ==> #[trigger] code_text(Some(c)) == "Some(-"@ + decimal((-c) as nat) + ")"@,
{
}

/// The failures of scoring are told with the label of the document and the number of the round,
/// counted from one, or the number of rounds.
pub proof fn law_scoring_text(label: Seq<char>, round: nat, model: Seq<char>, e: ScoreError)
    ensures
        failure_text(label, round) == "Scoring failed ("@ + label + ", round "@ + decimal(round + 1)
            + ")"@,
        discarded_text(label, round, model) == "Warning: judge round "@ + decimal(round + 1)
            + " ("@ + label + ", "@ + model + ") returned "@,
        e matches ScoreError::AllDiscarded { rounds, label: l } ==> e.text() == "All "@ + decimal(
            rounds as nat,
        ) + " scoring round(s) for "@ + l@
            + " were discarded (schema mismatch and/or malformed criteria ids)"@,
{
}

/// A model is called with the program, the limits and the context setting of the run.
pub proof fn law_settings(llm: Llm, c: CallSettings)
    requires
        has_settings(llm, c),
    ensures
        llm.bin@ == c.bin@,
        llm.retries == c.retries,
        llm.verbose == c.verbose,
        llm.timeout_secs == c.timeout_secs,
        llm.max_budget_usd is Some <==> c.max_budget_usd is Some,
        llm.max_budget_usd is Some ==> (llm.max_budget_usd->0)@ == (c.max_budget_usd->0)@,
        llm.load_context == c.load_context,
{
}

/// The judges look in turn at the whole, at the evidence, at the feasibility, at the first reading,
/// at the differences and at the rules.
pub proof fn law_lenses()
    ensures
        lenses() == seq![
            "Weighs overall completeness and alignment with the evaluation criteria in a balanced way."@,
            "Is especially strict about the verifiability of figures, sources, and evidence."@,
            "Is especially strict about feasibility and the specificity of the execution plan."@,
            "Evaluates persuasiveness and readability as experienced in the judge's first 3 minutes of reading."@,
            "Looks at differentiation from competing entries and overlap with existing projects."@,
            "Looks at rule compliance (format, length, meeting required items) and risk narrative."@,
        ],
{
}

proof fn lemma_quoted_line(all: Seq<Seq<char>>, n: nat, k: int)
    requires
        0 <= k < n <= all.len(),
    ensures
        contains(quoted_lines(all, n), "> "@ + all[k] + "\n"@),
    decreases n,
{
    let before = quoted_lines(all, (n - 1) as nat);
    let x = "> "@ + all[k] + "\n"@;
    let here = "> "@ + all[n - 1] + "\n"@;
    assert(quoted_lines(all, n) =~= before + here);
    if k == n - 1 {
        lemma_all(here);
        lemma_right(before, here, x);
    } else {
        lemma_quoted_line(all, (n - 1) as nat, k);
        lemma_left(before, here, x);
    }
}

/// How many characters some lines have, with three more for each.
pub open spec fn length_when_quoted(all: Seq<Seq<char>>) -> int {
    all.fold_left(0int, |t: int, l: Seq<char>| t + l.len() + 3)
}

proof fn lemma_quoted_length(all: Seq<Seq<char>>, n: nat)
    requires
        n <= all.len(),
    ensures
        quoted_lines(all, n).len() == length_when_quoted(all.take(n as int)),
    decreases n,
{
    reveal(Seq::fold_left);
    reveal_strlit("> ");
    reveal_strlit("\n");
    if n > 0 {
        lemma_quoted_length(all, (n - 1) as nat);
        assert(all.take(n as int).drop_last() =~= all.take(n - 1));
        assert(all.take(n as int).last() == all[n - 1]);
    }
}

/// Each line of a comment is quoted, and nothing else is.
pub proof fn law_quoted(s: Seq<char>, k: int)
    requires
        0 <= k < lines(trim(s)).len(),
    ensures
        contains(quoted(s), "> "@ + lines(trim(s))[k] + "\n"@),
        quoted(s).len() == length_when_quoted(lines(trim(s))),
{
    let all = lines(trim(s));
    lemma_quoted_line(all, all.len(), k);
    lemma_quoted_length(all, all.len());
    assert(all.take(all.len() as int) =~= all);
}

/// Each comment that says something is quoted.
pub proof fn law_comments_are_quoted(comments: Seq<Seq<char>>, n: nat, k: int)
    requires
        0 <= k < n <= comments.len(),
        trim(comments[k]).len() > 0,
    ensures
        contains(quoted_comments(comments, n), "\n"@ + quoted(comments[k])),
    decreases n,
{
    let before = quoted_comments(comments, (n - 1) as nat);
    let x = "\n"@ + quoted(comments[k]);
    let here = "\n"@ + quoted(comments[n - 1]);
    if k == n - 1 {
        lemma_all(here);
        assert(quoted_comments(comments, n) =~= before + here);
        lemma_right(before, here, x);
    } else {
        law_comments_are_quoted(comments, (n - 1) as nat, k);
        if trim(comments[n - 1]).len() > 0 {
            assert(quoted_comments(comments, n) =~= before + here);
            lemma_left(before, here, x);
        }
    }
}

} // verus!
