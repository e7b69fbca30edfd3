//! What the reports tell, and what the model program is called with.

use crate::binary64::{difference, fraction, is_below, quotient, rank_key, unsigned, Binary64};
use crate::cli::ranking;
use crate::contest::{Criterion, Spec};
use crate::json::{Json, JsonNumber};
use crate::llm::{argument_texts, option_texts, view_of, Llm};
use crate::loop_run::LoopOutcome;
use crate::prompting::{lemma_all, lemma_left, lemma_right};
use crate::render::fixed;
use crate::report::{
    check_row, check_text, criterion_line, criterion_lines, detail, details, heading, lags,
    quoted_comments, ranking_report, rounds_report, row, rows, rows_in_turn, titled_list,
    CHECK_HEAD, LAGS, TABLE_HEAD,
};
use crate::answers::has_entry;
use crate::schema::{
    id_entries, jtext, number_entries, reply_entries, reply_properties, score_entries,
    score_properties, scores_entries,
};
use crate::score::{bullets, stats_under, CriterionStats, Scored};
use crate::text::{contains, decimal, views};
use vstd::prelude::*;
use vstd::string::*;

verus! {

/// What a table tells of a document: its place, its label, its total, its length and the number of
/// its format issues.
pub open spec fn table_row(place: nat, s: Scored) -> Seq<char> {
    "| "@ + decimal(place) + " | "@ + s.label@ + " | "@ + fixed(s.total, 1) + " | "@ + decimal(
        s.metrics.chars as nat,
    ) + " | "@ + decimal(s.format_issues@.len()) + " |\n"@
}

proof fn lemma_rows(scored: Seq<Scored>, places: Seq<usize>, n: nat, k: int)
    requires
        0 <= k < n,
    ensures
        contains(
            rows(scored, places, n),
            table_row((k + 1) as nat, scored[places[k] as int]),
        ),
    decreases n,
{
    let before = rows(scored, places, (n - 1) as nat);
    let r = row((n - 1) as nat, scored[places[n - 1] as int]);
    if k == n - 1 {
        lemma_all(r);
        lemma_right(before, r, r);
    } else {
        lemma_rows(scored, places, (n - 1) as nat, k);
        lemma_left(before, r, table_row((k + 1) as nat, scored[places[k] as int]));
    }
}

proof fn lemma_rows_in_turn(scored: Seq<Scored>, n: nat, k: int)
    requires
        0 <= k < n,
    ensures
        contains(rows_in_turn(scored, n), table_row((k + 1) as nat, scored[k])),
    decreases n,
{
    let before = rows_in_turn(scored, (n - 1) as nat);
    let r = row((n - 1) as nat, scored[n - 1]);
    if k == n - 1 {
        lemma_all(r);
        lemma_right(before, r, r);
    } else {
        lemma_rows_in_turn(scored, (n - 1) as nat, k);
        lemma_left(before, r, table_row((k + 1) as nat, scored[k]));
    }
}

proof fn lemma_details(sp: Spec, scored: Seq<Scored>, places: Seq<usize>, n: nat, k: int)
    requires
        0 <= k < n,
    ensures
        contains(
            details(sp, scored, places, n),
            detail(sp, k as nat, scored[places[k] as int]),
        ),
    decreases n,
{
    let before = details(sp, scored, places, (n - 1) as nat);
    let r = detail(sp, (n - 1) as nat, scored[places[n - 1] as int]);
    if k == n - 1 {
        lemma_all(r);
        lemma_right(before, r, r);
    } else {
        lemma_details(sp, scored, places, (n - 1) as nat, k);
        lemma_left(before, r, detail(sp, k as nat, scored[places[k] as int]));
    }
}

/// The report on some documents has a row for each, with its place in the ranking, and tells of each
/// in detail.
pub proof fn law_ranking_report(sp: Spec, scored: Seq<Scored>, k: int)
    requires
        0 <= k < scored.len(),
        scored.len() <= usize::MAX,
    ensures
        contains(
            ranking_report(sp, scored),
            table_row((k + 1) as nat, scored[ranking(scored)[k] as int]),
        ),
        contains(
            ranking_report(sp, scored),
            detail(sp, k as nat, scored[ranking(scored)[k] as int]),
        ),
{
    let places = ranking(scored);
    let x = table_row((k + 1) as nat, scored[places[k] as int]);
    let y = detail(sp, k as nat, scored[places[k] as int]);
    lemma_rows(scored, places, scored.len(), k);
    lemma_details(sp, scored, places, scored.len(), k);
    let h = heading("# Scoring report — "@, sp) + TABLE_HEAD@;
    let r = rows(scored, places, scored.len());
    let d = details(sp, scored, places, scored.len());
    lemma_right(h, r, x);
    lemma_left(h + r, d, x);
    lemma_right(h + r, d, y);
}

/// What the detail tells of a criterion: its name, its mean and its spread.
pub open spec fn criterion_told(c: Criterion, t: CriterionStats) -> Seq<char> {
    "- "@ + c.name@ + ": "@ + fixed(t.mean, 1) + " (±"@ + fixed(t.spread, 0) + ")\n"@
}

proof fn lemma_criterion_lines(criteria: Seq<Criterion>, stats: Seq<CriterionStats>, n: nat, i: int)
    requires
        0 <= i < n,
        stats_under(stats, criteria[i].id@) is Some,
    ensures
        contains(
            criterion_lines(criteria, stats, n),
            criterion_told(criteria[i], stats_under(stats, criteria[i].id@)->0),
        ),
    decreases n,
{
    let before = criterion_lines(criteria, stats, (n - 1) as nat);
    let here = criterion_line(criteria[n - 1], stats);
    let x = criterion_told(criteria[i], stats_under(stats, criteria[i].id@)->0);
    if i == n - 1 {
        lemma_all(here);
        lemma_right(before, here, x);
    } else {
        lemma_criterion_lines(criteria, stats, (n - 1) as nat, i);
        lemma_left(before, here, x);
    }
}

/// The detail of a document tells its label and total, each criterion, the format issues, the
/// instructions and the comments.
pub proof fn law_detail(sp: Spec, place: nat, s: Scored, i: int)
    requires
        0 <= i < sp.criteria@.len(),
        stats_under(s.per_criterion@, sp.criteria@[i].id@) is Some,
    ensures
        ({
            let d = detail(sp, place, s);
            &&& contains(
                d,
                "\n## "@ + decimal(place + 1) + ". "@ + s.label@ + " — "@ + fixed(s.total, 1)
                    + "/100\n\n"@,
            )
            &&& contains(
                d,
                criterion_told(
                    sp.criteria@[i],
                    stats_under(s.per_criterion@, sp.criteria@[i].id@)->0,
                ),
            )
            &&& s.format_issues@.len() > 0 ==> contains(
                d,
                "\n### Format issues\n\n"@ + bullets(
                    views(s.format_issues@),
                    s.format_issues@.len(),
                ),
            )
            &&& s.improvements@.len() > 0 ==> contains(
                d,
                "\n### Improvement notes\n\n"@ + bullets(
                    views(s.improvements@),
                    s.improvements@.len(),
                ),
            )
            &&& contains(d, quoted_comments(views(s.comments@), s.comments@.len()))
        }),
{
    let a = "\n## "@ + decimal(place + 1) + ". "@ + s.label@ + " — "@ + fixed(s.total, 1)
        + "/100\n\n"@;
    let b = criterion_lines(sp.criteria@, s.per_criterion@, sp.criteria@.len());
    let c = titled_list("\n### Format issues\n\n"@, views(s.format_issues@));
    let d = titled_list("\n### Improvement notes\n\n"@, views(s.improvements@));
    let e = quoted_comments(views(s.comments@), s.comments@.len());
    let x = criterion_told(sp.criteria@[i], stats_under(s.per_criterion@, sp.criteria@[i].id@)->0);
    lemma_criterion_lines(sp.criteria@, s.per_criterion@, sp.criteria@.len(), i);
    lemma_all(a);
    lemma_all(c);
    lemma_all(d);
    lemma_all(e);
    lemma_left(a, b, a);
    lemma_left(a + b, c, a);
    lemma_left(a + b + c, d, a);
    lemma_left(a + b + c + d, e, a);
    lemma_right(a, b, x);
    lemma_left(a + b, c, x);
    lemma_left(a + b + c, d, x);
    lemma_left(a + b + c + d, e, x);
    lemma_right(a + b, c, c);
    lemma_left(a + b + c, d, c);
    lemma_left(a + b + c + d, e, c);
    lemma_right(a + b + c, d, d);
    lemma_left(a + b + c + d, e, d);
    lemma_right(a + b + c + d, e, e);
    assert(views(s.format_issues@).len() == s.format_issues@.len());
    assert(views(s.improvements@).len() == s.improvements@.len());
}

/// The report on a loop tells why it stopped and which draft is best, has a row for each round in
/// order, the held-out check where one was made, and the warnings.
pub proof fn law_loop_report(
    sp: Spec,
    r: LoopOutcome,
    gate: Option<(Binary64, Binary64)>,
    k: int,
)
    requires
        0 <= k < r.history@.len(),
    ensures
        ({
            let p = rounds_report(sp, r, gate);
            &&& contains(
                p,
                "Stopped: "@ + r.stop_reason@ + " · best: "@ + r.best_label@ + "\n\n"@,
            )
            &&& contains(p, table_row((k + 1) as nat, r.history@[k]))
            &&& gate matches Some((f, b)) ==> contains(
                p,
                check_text(r.history@[0].total, r.best_score.total, f, b),
            )
            &&& r.warnings@.len() > 0 ==> contains(
                p,
                "\n## Warnings\n\n"@ + bullets(views(r.warnings@), r.warnings@.len()),
            )
        }),
{
    let h = heading("# Improvement loop — "@, sp);
    let s = "Stopped: "@ + r.stop_reason@ + " · best: "@ + r.best_label@ + "\n\n"@;
    let head = h + "Stopped: "@ + r.stop_reason@ + " · best: "@ + r.best_label@ + "\n\n"@;
    assert(head =~= h + s);
    let t = TABLE_HEAD@;
    let rs = rows_in_turn(r.history@, r.history@.len());
    let g = match gate {
        Some((f, b)) => check_text(r.history@[0].total, r.best_score.total, f, b),
        None => Seq::empty(),
    };
    let w = titled_list("\n## Warnings\n\n"@, views(r.warnings@));
    let x = table_row((k + 1) as nat, r.history@[k]);
    lemma_rows_in_turn(r.history@, r.history@.len(), k);
    lemma_all(s);
    lemma_all(g);
    lemma_all(w);
    lemma_right(h, s, s);
    lemma_left(head, t, s);
    lemma_left(head + t, rs, s);
    lemma_left(head + t + rs, g, s);
    lemma_left(head + t + rs + g, w, s);
    lemma_right(head + t, rs, x);
    lemma_left(head + t + rs, g, x);
    lemma_left(head + t + rs + g, w, x);
    lemma_right(head + t + rs, g, g);
    lemma_left(head + t + rs + g, w, g);
    lemma_right(head + t + rs + g, w, w);
    assert(views(r.warnings@).len() == r.warnings@.len());
}

/// The held-out check warns where the held-out total fell, and where it rose by less than a third of
/// what the total of the loop rose; and in no other case.
pub proof fn law_held_out_check(
    first: Binary64,
    best: Binary64,
    held_out_first: Binary64,
    held_out_best: Binary64,
)
    requires
        first.not_negative() && best.not_negative(),
        held_out_first.not_negative() && held_out_best.not_negative(),
    ensures
        is_below(held_out_best, held_out_first) ==> contains(
            check_text(first, best, held_out_first, held_out_best),
            LAGS@,
        ),
        rank_key(held_out_first) <= rank_key(held_out_best) && rank_key(first) <= rank_key(best)
            && is_below(
            difference(unsigned(held_out_best), unsigned(held_out_first)),
            quotient(difference(unsigned(best), unsigned(first)), fraction(3, 1)),
        ) ==> contains(check_text(first, best, held_out_first, held_out_best), LAGS@),
        lags(first, best, held_out_first, held_out_best) ==> is_below(
            held_out_best,
            held_out_first,
        ) || is_below(
            difference(unsigned(held_out_best), unsigned(held_out_first)),
            quotient(difference(unsigned(best), unsigned(first)), fraction(3, 1)),
        ),
{
    let table = CHECK_HEAD@ + check_row("Loop"@, first, best) + check_row(
        "Held-out"@,
        held_out_first,
        held_out_best,
    );
    lemma_all(LAGS@);
    lemma_right(table, LAGS@, LAGS@);
}

/// Whether an option is followed by its value among some arguments.
pub open spec fn has_option(args: Seq<Seq<char>>, name: Seq<char>, value: Seq<char>) -> bool {
    exists|i: int| 0 <= i < args.len() - 1 && #[trigger] args[i] == name && args[i + 1] == value
}

/// The model program is asked for one answer in JSON, without tools and without a session; without
/// the context of the directory unless that is wanted; and with the model, the cost cap, the system
/// prompt and the schema, where they are given.
pub proof fn law_arguments(llm: Llm, system: Option<Seq<char>>, schema: Option<Seq<char>>)
    ensures
        ({
            let args = argument_texts(llm, system, schema);
            &&& args.take(3) == seq!["-p"@, "--output-format"@, "json"@]
            &&& !llm.load_context ==> args[3] == "--safe-mode"@
            &&& args.contains("--no-session-persistence"@)
            &&& has_option(args, "--tools"@, ""@)
            &&& llm.model matches Some(m) ==> has_option(args, "--model"@, m@)
            &&& llm.max_budget_usd matches Some(b) ==> has_option(args, "--max-budget-usd"@, b@)
            &&& system matches Some(s) ==> has_option(args, "--append-system-prompt"@, s)
            &&& schema matches Some(s) ==> has_option(args, "--json-schema"@, s)
            &&& args.len() == 6 + (if llm.load_context {
                0int
            } else {
                1
            }) + (if llm.model is Some {
                2int
            } else {
                0
            }) + (if llm.max_budget_usd is Some {
                2int
            } else {
                0
            }) + (if system is Some {
                2int
            } else {
                0
            }) + (if schema is Some {
                2int
            } else {
                0
            })
        }),
{
    let args = argument_texts(llm, system, schema);
    let c: int = if llm.load_context {
        3
    } else {
        4
    };
    let m: int = c + 3 + option_texts("--model"@, view_of(llm.model)).len();
    let b: int = m + option_texts("--max-budget-usd"@, view_of(llm.max_budget_usd)).len();
    let s: int = b + option_texts("--append-system-prompt"@, system).len();
    assert(args.take(3) =~= seq!["-p"@, "--output-format"@, "json"@]);
    assert(args[c] == "--no-session-persistence"@);
    assert(args[c + 1] == "--tools"@ && args[c + 2] == ""@);
    if llm.model is Some {
        assert(args[c + 3] == "--model"@ && args[c + 4] == (llm.model->0)@);
    }
    if llm.max_budget_usd is Some {
        assert(args[m] == "--max-budget-usd"@ && args[m + 1] == (llm.max_budget_usd->0)@);
    }
    if system is Some {
        assert(args[b] == "--append-system-prompt"@ && args[b + 1] == system->0);
    }
    if schema is Some {
        assert(args[s] == "--json-schema"@ && args[s + 1] == schema->0);
    }
}

/// The schema of a reply asks for at least as many scores as there are criteria, each with one of
/// their ids and an integer from zero to one hundred.
pub proof fn law_schema(ids: Seq<Seq<char>>)
    ensures
        ({
            let p = reply_properties(ids);
            let c = scores_entries(ids);
            let s = score_entries(ids);
            let q = score_properties(ids);
            let x = id_entries(ids);
            let n = number_entries();
            &&& has_entry(reply_entries(ids), "properties"@, Json::Object(p))
            &&& has_entry(p, "criteria"@, Json::Object(c))
            &&& has_entry(c, "minItems"@, Json::Number(JsonNumber::Natural(ids.len())))
            &&& has_entry(c, "items"@, Json::Object(s))
            &&& has_entry(s, "properties"@, Json::Object(q))
            &&& has_entry(q, "id"@, Json::Object(x))
            &&& has_entry(
                x,
                "enum"@,
                Json::List(Seq::new(ids.len(), |i: int| Json::Text(ids[i]))),
            )
            &&& has_entry(q, "score"@, Json::Object(n))
            &&& has_entry(n, "type"@, Json::Text("integer"@))
            &&& has_entry(n, "minimum"@, Json::Number(JsonNumber::Natural(0)))
            &&& has_entry(n, "maximum"@, Json::Number(JsonNumber::Natural(100)))
        }),
{
    let p = reply_properties(ids);
    let c = scores_entries(ids);
    let s = score_entries(ids);
    let q = score_properties(ids);
    let x = id_entries(ids);
    let n = number_entries();
    assert(reply_entries(ids)[1] == ("properties"@, Json::Object(p)));
    assert(p[1] == ("criteria"@, Json::Object(c)));
    assert(c[1] == ("minItems"@, Json::Number(JsonNumber::Natural(ids.len()))));
    assert(c[2] == ("items"@, Json::Object(s)));
    assert(s[1] == ("properties"@, Json::Object(q)));
    assert(q[0] == ("id"@, Json::Object(x)));
    let l = Seq::new(ids.len(), |i: int| Json::Text(ids[i]));
    assert(ids.map_values(|s: Seq<char>| jtext(s)) =~= l);
    assert(x[1] == ("enum"@, Json::List(l)));
    assert(q[3] == ("score"@, Json::Object(n)));
    assert(n[0] == ("type"@, Json::Text("integer"@)));
    assert(n[1] == ("minimum"@, Json::Number(JsonNumber::Natural(0))));
    assert(n[2] == ("maximum"@, Json::Number(JsonNumber::Natural(100))));
}

} // verus!
