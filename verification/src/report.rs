//! The reports of a run, in markdown.

use crate::binary64::{difference, fraction, is_below, quotient, rank_key, unsigned, Binary64};
use crate::cli::{rank, ranking};
use crate::contest::{Criterion, Spec};
use crate::loop_run::LoopOutcome;
use crate::render::{fixed, fixed_string};
use crate::score::{
    begins_line, bullet_list, bullets, find_stats, stats_under, CriterionStats, Scored,
};
use crate::text::{
    append_slice, chars_of, decimal, decimal_string, law_lines_hold_no_newline, lines, lines_slice,
    slice_views, string_of, trim, trim_slice, views,
};
use vstd::prelude::*;
use vstd::string::*;

verus! {

/// The first `n` of some lines, each as a line of a block quote.
pub open spec fn quoted_lines(all: Seq<Seq<char>>, n: nat) -> Seq<char>
    decreases n,
{
    if n == 0 {
        Seq::empty()
    } else {
        quoted_lines(all, (n - 1) as nat) + "> "@ + all[n - 1] + "\n"@
    }
}

/// A text as a block quote, without the space around it.
pub open spec fn quoted(s: Seq<char>) -> Seq<char> {
    quoted_lines(lines(trim(s)), lines(trim(s)).len())
}

/// The first `n` comments as block quotes, set apart, without the blank ones.
pub open spec fn quoted_comments(comments: Seq<Seq<char>>, n: nat) -> Seq<char>
    decreases n,
{
    if n == 0 {
        Seq::empty()
    } else {
        let before = quoted_comments(comments, (n - 1) as nat);
        if trim(comments[n - 1]).len() > 0 {
            before + "\n"@ + quoted(comments[n - 1])
        } else {
            before
        }
    }
}

/// The head of a table of documents.
pub const TABLE_HEAD: &'static str =
    "| # | Document | Total | Chars | Format issues |\n|---|---|---|---|---|\n";

/// The row of a document. Places are counted from zero.
pub open spec fn row(place: nat, s: Scored) -> Seq<char> {
    "| "@ + decimal(place + 1) + " | "@ + s.label@ + " | "@ + fixed(s.total, 1) + " | "@ + decimal(
        s.metrics.chars as nat,
    ) + " | "@ + decimal(s.format_issues@.len()) + " |\n"@
}

/// The rows of the first `n` places.
pub open spec fn rows(scored: Seq<Scored>, places: Seq<usize>, n: nat) -> Seq<char>
    decreases n,
{
    if n == 0 {
        Seq::empty()
    } else {
        rows(scored, places, (n - 1) as nat) + row((n - 1) as nat, scored[places[n - 1] as int])
    }
}

/// The rows of the first `n` documents in the order of the list.
pub open spec fn rows_in_turn(scored: Seq<Scored>, n: nat) -> Seq<char>
    decreases n,
{
    if n == 0 {
        Seq::empty()
    } else {
        rows_in_turn(scored, (n - 1) as nat) + row((n - 1) as nat, scored[n - 1])
    }
}

/// The line of a criterion: its mean and how far the rounds lie apart.
pub open spec fn criterion_line(c: Criterion, stats: Seq<CriterionStats>) -> Seq<char> {
    match stats_under(stats, c.id@) {
        Some(t) => "- "@ + c.name@ + ": "@ + fixed(t.mean, 1) + " (±"@ + fixed(t.spread, 0)
            + ")\n"@,
        None => Seq::empty(),
    }
}

/// The lines of the first `n` criteria.
pub open spec fn criterion_lines(
    criteria: Seq<Criterion>,
    stats: Seq<CriterionStats>,
    n: nat,
) -> Seq<char>
    decreases n,
{
    if n == 0 {
        Seq::empty()
    } else {
        criterion_lines(criteria, stats, (n - 1) as nat) + criterion_line(criteria[n - 1], stats)
    }
}

/// A list under a title, where it is not empty.
pub open spec fn titled_list(title: Seq<char>, texts: Seq<Seq<char>>) -> Seq<char> {
    if texts.len() == 0 {
        Seq::empty()
    } else {
        title + bullets(texts, texts.len())
    }
}

/// What the report says of one document.
pub open spec fn detail(sp: Spec, place: nat, s: Scored) -> Seq<char> {
    "\n## "@ + decimal(place + 1) + ". "@ + s.label@ + " — "@ + fixed(s.total, 1) + "/100\n\n"@
        + criterion_lines(sp.criteria@, s.per_criterion@, sp.criteria@.len()) + titled_list(
        "\n### Format issues\n\n"@,
        views(s.format_issues@),
    ) + titled_list("\n### Improvement notes\n\n"@, views(s.improvements@)) + quoted_comments(
        views(s.comments@),
        s.comments@.len(),
    )
}

/// What the report says of the documents of the first `n` places.
pub open spec fn details(sp: Spec, scored: Seq<Scored>, places: Seq<usize>, n: nat) -> Seq<char>
    decreases n,
{
    if n == 0 {
        Seq::empty()
    } else {
        details(sp, scored, places, (n - 1) as nat) + detail(
            sp,
            (n - 1) as nat,
            scored[places[n - 1] as int],
        )
    }
}

/// The title of a report and where the scoring comes from.
pub open spec fn heading(title: Seq<char>, sp: Spec) -> Seq<char> {
    let start = title + sp.name@ + "\n\n"@;
    if sp.scoring_source@.len() == 0 {
        start
    } else {
        start + "Scoring source: "@ + sp.scoring_source@ + "\n\n"@
    }
}

/// The report on a list of documents: the ranking, and each document in detail.
pub open spec fn ranking_report(sp: Spec, scored: Seq<Scored>) -> Seq<char> {
    heading("# Scoring report — "@, sp) + TABLE_HEAD@ + rows(scored, ranking(scored), scored.len())
        + details(sp, scored, ranking(scored), scored.len())
}

/// Whether the total that a held-out judge gives rose less than a third of what the total of the
/// loop did.
pub open spec fn lags(
    first: Binary64,
    best: Binary64,
    held_out_first: Binary64,
    held_out_best: Binary64,
) -> bool {
    ||| is_below(held_out_best, held_out_first)
    ||| (rank_key(held_out_first) <= rank_key(held_out_best) && rank_key(first) <= rank_key(best)
        && is_below(
        difference(unsigned(held_out_best), unsigned(held_out_first)),
        quotient(difference(unsigned(best), unsigned(first)), fraction(3, 1)),
    ))
}

/// The warning about a rise that a held-out judge does not see.
pub const LAGS: &'static str =
    "\n⚠ The held-out improvement is less than a third of the loop's improvement → may be judge optimization rather than real improvement\n";

/// A row of the held-out check.
pub open spec fn check_row(name: Seq<char>, first: Binary64, best: Binary64) -> Seq<char> {
    "| "@ + name + " | "@ + fixed(first, 1) + " | "@ + fixed(best, 1) + " |\n"@
}

/// The head of the held-out check.
pub const CHECK_HEAD: &'static str =
    "\n## Held-out check\n\n| Judge | First draft | Best draft |\n|---|---|---|\n";

/// The held-out check.
pub open spec fn check_text(
    first: Binary64,
    best: Binary64,
    held_out_first: Binary64,
    held_out_best: Binary64,
) -> Seq<char> {
    let table = CHECK_HEAD@ + check_row("Loop"@, first, best) + check_row(
        "Held-out"@,
        held_out_first,
        held_out_best,
    );
    if lags(first, best, held_out_first, held_out_best) {
        table + LAGS@
    } else {
        table
    }
}

/// The report on a loop: why it stopped, its rounds, the held-out check where one was made, and the
/// warnings.
pub open spec fn rounds_report(sp: Spec, r: LoopOutcome, gate: Option<(Binary64, Binary64)>) -> Seq<
    char,
> {
    heading("# Improvement loop — "@, sp) + "Stopped: "@ + r.stop_reason@ + " · best: "@
        + r.best_label@ + "\n\n"@ + TABLE_HEAD@ + rows_in_turn(r.history@, r.history@.len()) + (
    match gate {
        Some((f, b)) => check_text(r.history@[0].total, r.best_score.total, f, b),
        None => Seq::empty(),
    }) + titled_list("\n## Warnings\n\n"@, views(r.warnings@))
}

/// Whether each line of a text is a line of a block quote.
pub open spec fn all_quoted(s: Seq<char>) -> bool {
    forall|i: int| #[trigger] begins_line(s, i) ==> i + 1 < s.len() && s[i] == '>' && s[i + 1] == ' '
}

proof fn lemma_quoted_append(before: Seq<char>, text: Seq<char>)
    requires
        all_quoted(before),
        before.len() == 0 || before.last() == '\n',
        !text.contains('\n'),
    ensures
        all_quoted(before + "> "@ + text + "\n"@),
        (before + "> "@ + text + "\n"@).last() == '\n',
{
    reveal_strlit("> ");
    reveal_strlit("\n");
    let line = "> "@ + text + "\n"@;
    let now = before + "> "@ + text + "\n"@;
    assert(now =~= before + line);
    let b = before.len();
    assert forall|i: int| #[trigger] begins_line(now, i) implies i + 1 < now.len() && now[i] == '>'
        && now[i + 1] == ' ' by {
        if i < b {
            assert(begins_line(before, i));
        } else if i > b {
            assert(now[i - 1] == line[i - 1 - b]);
            if i - 1 - b >= 2 {
                assert(line[i - 1 - b] == text[i - 3 - b]);
            }
        }
    }
}

proof fn lemma_quoted_lines(all: Seq<Seq<char>>, n: nat)
    requires
        n <= all.len(),
        forall|k: int| 0 <= k < all.len() ==> !(#[trigger] all[k]).contains('\n'),
    ensures
        all_quoted(quoted_lines(all, n)),
        n > 0 ==> quoted_lines(all, n).last() == '\n',
    decreases n,
{
    if n > 0 {
        lemma_quoted_lines(all, (n - 1) as nat);
        lemma_quoted_append(quoted_lines(all, (n - 1) as nat), all[n - 1]);
    }
}

/// A comment stays in its block quote, whatever line breaks it holds.
pub proof fn law_comment_stays_quoted(s: Seq<char>)
    ensures
        all_quoted(quoted(s)),
{
    let all = lines(trim(s));
    assert forall|k: int| 0 <= k < all.len() implies !(#[trigger] all[k]).contains('\n') by {
        law_lines_hold_no_newline(trim(s), k);
    }
    lemma_quoted_lines(all, all.len());
}

fn quote(s: &[char]) -> (r: String)
    ensures
        r@ == quoted(s@),
{
    let all = lines_slice(trim_slice(s));
    let ghost texts = lines(trim(s@));
    let mut r = String::new();
    let mut i: usize = 0;
    while i < all.len()
        invariant
            i <= all@.len(),
            texts == slice_views(all@),
            r@ == quoted_lines(texts, i as nat),
        decreases all@.len() - i,
    {
        assert(texts[i as int] == all@[i as int]@);
        let mut line: Vec<char> = Vec::new();
        append_slice(&mut line, all[i]);
        assert(line@ =~= all@[i as int]@);
        r.append("> ");
        r.append(string_of(&line).as_str());
        r.append("\n");
        i += 1;
    }
    r
}

fn quote_comments(comments: &Vec<String>) -> (r: String)
    ensures
        r@ == quoted_comments(views(comments@), comments@.len()),
{
    let mut r = String::new();
    let mut i: usize = 0;
    while i < comments.len()
        invariant
            i <= comments@.len(),
            r@ == quoted_comments(views(comments@), i as nat),
        decreases comments@.len() - i,
    {
        assert(views(comments@)[i as int] == comments@[i as int]@);
        let c = chars_of(comments[i].as_str());
        if trim_slice(c.as_slice()).len() > 0 {
            r.append("\n");
            r.append(quote(c.as_slice()).as_str());
        }
        i += 1;
    }
    r
}

fn row_string(place: usize, s: &Scored) -> (r: String)
    requires
        place < usize::MAX,
    ensures
        r@ == row(place as nat, *s),
{
    let mut r = String::from_str("| ");
    r.append(decimal_string((place + 1) as u64).as_str());
    r.append(" | ");
    r.append(s.label.as_str());
    r.append(" | ");
    r.append(fixed_string(s.total, 1).as_str());
    r.append(" | ");
    r.append(decimal_string(s.metrics.chars as u64).as_str());
    r.append(" | ");
    r.append(decimal_string(s.format_issues.len() as u64).as_str());
    r.append(" |\n");
    r
}

fn criterion_lines_string(sp: &Spec, stats: &Vec<CriterionStats>) -> (r: String)
    ensures
        r@ == criterion_lines(sp.criteria@, stats@, sp.criteria@.len()),
{
    let mut r = String::new();
    let mut i: usize = 0;
    while i < sp.criteria.len()
        invariant
            i <= sp.criteria@.len(),
            r@ == criterion_lines(sp.criteria@, stats@, i as nat),
        decreases sp.criteria@.len() - i,
    {
        let ghost before = r@;
        match find_stats(stats, &sp.criteria[i].id) {
            Some(t) => {
                r.append("- ");
                r.append(sp.criteria[i].name.as_str());
                r.append(": ");
                r.append(fixed_string(t.mean, 1).as_str());
                r.append(" (±");
                r.append(fixed_string(t.spread, 0).as_str());
                r.append(")\n");
            },
            None => {},
        }
        assert(r@ =~= before + criterion_line(sp.criteria@[i as int], stats@));
        i += 1;
    }
    r
}

fn titled_list_string(title: &str, texts: &Vec<String>) -> (r: String)
    ensures
        r@ == titled_list(title@, views(texts@)),
{
    if texts.len() == 0 {
        return String::new();
    }
    let mut r = String::from_str(title);
    r.append(bullet_list(texts).as_str());
    r
}

fn detail_string(sp: &Spec, place: usize, s: &Scored) -> (r: String)
    requires
        place < usize::MAX,
    ensures
        r@ == detail(*sp, place as nat, *s),
{
    let mut r = String::from_str("\n## ");
    r.append(decimal_string((place + 1) as u64).as_str());
    r.append(". ");
    r.append(s.label.as_str());
    r.append(" — ");
    r.append(fixed_string(s.total, 1).as_str());
    r.append("/100\n\n");
    r.append(criterion_lines_string(sp, &s.per_criterion).as_str());
    r.append(titled_list_string("\n### Format issues\n\n", &s.format_issues).as_str());
    r.append(titled_list_string("\n### Improvement notes\n\n", &s.improvements).as_str());
    r.append(quote_comments(&s.comments).as_str());
    r
}

fn heading_string(title: &str, sp: &Spec) -> (r: String)
    ensures
        r@ == heading(title@, *sp),
{
    let mut r = String::from_str(title);
    r.append(sp.name.as_str());
    r.append("\n\n");
    if sp.scoring_source.as_str().unicode_len() > 0 {
        r.append("Scoring source: ");
        r.append(sp.scoring_source.as_str());
        r.append("\n\n");
    }
    r
}

/// The report on a list of documents: the ranking, and each document in detail.
pub fn write_report(sp: &Spec, scored: &Vec<Scored>) -> (r: String)
    ensures
        r@ == ranking_report(*sp, scored@),
{
    let places = rank(scored);
    let mut r = heading_string("# Scoring report — ", sp);
    r.append(TABLE_HEAD);
    let mut table = String::new();
    let mut text = String::new();
    let mut i: usize = 0;
    while i < places.len()
        invariant
            i <= places@.len() == scored@.len(),
            places@ == ranking(scored@),
            forall|a: int| 0 <= a < places@.len() ==> places@[a] < scored@.len(),
            table@ == rows(scored@, places@, i as nat),
            text@ == details(*sp, scored@, places@, i as nat),
        decreases places@.len() - i,
    {
        let s = &scored[places[i]];
        table.append(row_string(i, s).as_str());
        text.append(detail_string(sp, i, s).as_str());
        i += 1;
    }
    r.append(table.as_str());
    r.append(text.as_str());
    r
}

fn check_row_string(name: &str, first: Binary64, best: Binary64) -> (r: String)
    ensures
        r@ == check_row(name@, first, best),
{
    let mut r = String::from_str("| ");
    r.append(name);
    r.append(" | ");
    r.append(fixed_string(first, 1).as_str());
    r.append(" | ");
    r.append(fixed_string(best, 1).as_str());
    r.append(" |\n");
    r
}

/// Whether the held-out total rose less than a third of what the total of the loop did.
pub fn held_out_lags(
    first: Binary64,
    best: Binary64,
    held_out_first: Binary64,
    held_out_best: Binary64,
) -> (r: bool)
    requires
        first.not_negative(),
        best.not_negative(),
        held_out_first.not_negative(),
        held_out_best.not_negative(),
    ensures
        r == lags(first, best, held_out_first, held_out_best),
{
    if held_out_best.below(held_out_first) {
        return true;
    }
    if held_out_first.key() <= held_out_best.key() && first.key() <= best.key() {
        let rise = held_out_best.without_zero_sign().minus(held_out_first.without_zero_sign());
        let gain = best.without_zero_sign().minus(first.without_zero_sign());
        rise.below(gain.over(Binary64::ratio(3, 1)))
    } else {
        false
    }
}

/// The report on a loop. `gate` holds the totals that a held-out judge gave the first and the best
/// draft, where one was asked.
pub fn write_loop_report(sp: &Spec, r: &LoopOutcome, gate: Option<(Binary64, Binary64)>) -> (s:
    String)
    requires
        r.history@.len() > 0,
        r.history@[0].total.not_negative(),
        r.best_score.total.not_negative(),
        gate matches Some((f, b)) ==> f.not_negative() && b.not_negative(),
    ensures
        s@ == rounds_report(*sp, *r, gate),
{
    let mut s = heading_string("# Improvement loop — ", sp);
    s.append("Stopped: ");
    s.append(r.stop_reason.as_str());
    s.append(" · best: ");
    s.append(r.best_label.as_str());
    s.append("\n\n");
    s.append(TABLE_HEAD);
    let mut table = String::new();
    let mut i: usize = 0;
    while i < r.history.len()
        invariant
            i <= r.history@.len(),
            table@ == rows_in_turn(r.history@, i as nat),
        decreases r.history@.len() - i,
    {
        table.append(row_string(i, &r.history[i]).as_str());
        i += 1;
    }
    s.append(table.as_str());
    let ghost before = s@;
    if let Some((f, b)) = gate {
        let first = r.history[0].total;
        let best = r.best_score.total;
        let mut check = String::from_str(CHECK_HEAD);
        check.append(check_row_string("Loop", first, best).as_str());
        check.append(check_row_string("Held-out", f, b).as_str());
        if held_out_lags(first, best, f, b) {
            check.append(LAGS);
        }
        s.append(check.as_str());
    }
    assert(s@ =~= before + (match gate {
        Some((f, b)) => check_text(r.history@[0].total, r.best_score.total, f, b),
        None => Seq::empty(),
    }));
    s.append(titled_list_string("\n## Warnings\n\n", &r.warnings).as_str());
    s
}

} // verus!
