use bizplan::binary64::Binary64;
use bizplan::checks::Metrics;
use bizplan::contest::{Criterion, Section, Spec};
use bizplan::loop_run::{
    iteration_label, progress_line, round_limit, LoopCfg, LoopOutcome, LoopRun, Next, StopReason,
};
use bizplan::report::{held_out_lags, write_loop_report, write_report};
use bizplan::score::{CriterionStats, Scored};

fn number(x: f64) -> Binary64 {
    Binary64 { bits: x.to_bits() }
}

fn contest() -> Spec {
    Spec {
        name: "Grant".to_string(),
        context: String::new(),
        scoring_source: "Notice 12".to_string(),
        total_chars: 0,
        min_citations: 0,
        require_table: false,
        angles: vec![],
        bands: vec![],
        sections: vec![Section {
            id: "s".to_string(),
            title: "S".to_string(),
            guide: String::new(),
            chars: 0,
            required: false,
        }],
        criteria: vec![Criterion {
            id: "c".to_string(),
            name: "C".to_string(),
            weight: number(1.0),
            guide: String::new(),
        }],
    }
}

fn scored(round: usize, total: f64, chars: usize, issues: usize) -> Scored {
    Scored {
        label: iteration_label(round),
        total: number(total),
        per_criterion: vec![CriterionStats {
            id: "c".to_string(),
            mean: number(total),
            raw: vec![number(total)],
            spread: number(4.0),
        }],
        missing_sections: vec![],
        format_issues: (0..issues).map(|i| format!("issue {i}")).collect(),
        metrics: Metrics { chars, tables: 0, citations: 0, years: 0 },
        improvements: vec!["do it".to_string()],
        comments: vec!["first\nsecond".to_string()],
        rounds: 1,
        models: vec!["m".to_string()],
    }
}

fn cfg(target: f64, max_iter: usize, min_delta: f64, patience: usize) -> LoopCfg {
    LoopCfg { target: number(target), max_iter, rounds: 2, min_delta: number(min_delta), patience }
}

/// Plays the given totals; returns the number of rounds made and what came out.
fn play(cfg: LoopCfg, rounds: &[(f64, usize, usize)]) -> (usize, LoopOutcome) {
    let sp = contest();
    let mut run = LoopRun::new(&cfg);
    for (i, (total, chars, issues)) in rounds.iter().enumerate() {
        let s = scored(i, *total, *chars, *issues);
        match run.record(&cfg, &sp, format!("draft {i}"), s) {
            Next::Stop(reason) => return (i + 1, run.finish(&cfg, &reason)),
            Next::Revise { feedback, weak } => {
                assert!(feedback.contains("- do it\n- ") || feedback.contains("- do it\n"));
                assert!(feedback.contains("- first second\n"));
                assert_eq!(weak, format!("- C : {:.0}/100", total));
            }
        }
    }
    panic!("the loop did not stop");
}

fn totals(v: &[f64]) -> Vec<(f64, usize, usize)> {
    v.iter().map(|t| (*t, 100, 0)).collect()
}

#[test]
fn the_loop_stops_at_the_target() {
    let (n, r) = play(cfg(85.0, 4, 2.0, 2), &totals(&[70.0, 85.0, 99.0]));
    assert_eq!(n, 2);
    assert_eq!(r.stop_reason, "Reached target (85 points)");
    assert_eq!(r.best_label, "iter02");
    assert_eq!(r.best_doc, "draft 1");
    assert_eq!(r.first_doc, "draft 0");
    assert!(r.warnings.is_empty());
}

#[test]
fn format_issues_keep_the_loop_from_the_target() {
    let (n, r) = play(cfg(85.0, 3, 2.0, 2), &[(90.0, 100, 1), (93.0, 100, 0), (99.0, 100, 0)]);
    assert_eq!(n, 2);
    assert_eq!(r.stop_reason, "Reached target (85 points)");
}

#[test]
fn the_loop_stops_when_gains_stall() {
    let (n, r) = play(cfg(99.0, 9, 2.0, 2), &totals(&[70.0, 71.0, 72.0, 90.0]));
    // both gains are under two points
    assert_eq!(n, 3);
    assert_eq!(r.stop_reason, "Improvement stalled (2 consecutive rounds under +2.0 points)");
    assert_eq!(r.best_label, "iter03");
    let (n, _) = play(cfg(99.0, 4, 2.0, 2), &totals(&[70.0, 71.0, 74.0, 73.0]));
    assert_eq!(n, 4);
}

#[test]
fn a_gain_is_measured_as_the_machine_subtracts() {
    // 64.1 - 62.1 is less than two in binary64
    assert!(64.1f64 - 62.1f64 < 2.0);
    let (n, _) = play(cfg(99.0, 9, 2.0, 1), &totals(&[62.1, 64.1, 90.0]));
    assert_eq!(n, 2);
}

#[test]
fn no_patience_does_not_stop_the_first_round() {
    let (n, r) = play(cfg(99.0, 5, 2.0, 0), &totals(&[70.0, 80.0, 90.0]));
    assert_eq!(n, 2);
    assert_eq!(r.stop_reason, "Improvement stalled (0 consecutive rounds under +2.0 points)");
}

#[test]
fn the_loop_makes_at_most_the_allowed_rounds() {
    assert_eq!(round_limit(0), 1);
    assert_eq!(round_limit(7), 7);
    let (n, r) = play(cfg(99.0, 0, 2.0, 2), &totals(&[70.0, 80.0]));
    assert_eq!(n, 1);
    assert_eq!(r.stop_reason, "Reached max iterations (1)");
    let (n, r) = play(cfg(99.0, 3, 2.0, 2), &totals(&[50.0, 60.0, 70.0, 80.0]));
    assert_eq!(n, 3);
    assert_eq!(r.stop_reason, "Reached max iterations (3)");
    assert_eq!(r.history.len(), 3);
}

#[test]
fn the_best_round_comes_out_not_the_last() {
    let (_, r) = play(cfg(99.0, 4, 2.0, 9), &totals(&[60.0, 75.5, 75.5, 61.0]));
    assert_eq!(r.best_label, "iter02");
    assert_eq!(r.best_doc, "draft 1");
    assert_eq!(r.best_score.total, number(75.5));
    assert_eq!(r.best_score.improvements, vec!["do it".to_string()]);
    assert_eq!(
        r.warnings,
        vec!["Last round (61.0 points) is not the best score → best.md is iter02".to_string()]
    );
}

#[test]
fn growth_without_gain_is_reported_as_padding() {
    let canary = |first: usize, best: usize, gain: f64| -> Vec<String> {
        play(cfg(99.0, 2, 2.0, 9), &[(70.0, first, 0), (70.0 + gain, best, 0)]).1.warnings
    };
    assert_eq!(
        canary(1000, 1333, 4.5),
        vec![
            "Length canary: length +33% but score only +4.5 points → may be padding rather than substantive improvement"
                .to_string()
        ]
    );
    assert_eq!(canary(1000, 1250, 4.5).len(), 1);
    assert!(canary(1000, 1249, 4.5).is_empty());
    assert!(canary(1000, 1333, 5.0).is_empty());
    assert!(canary(1000, 800, 1.0).is_empty());
    assert!(canary(0, 800, 1.0).is_empty());
}

#[test]
fn negative_and_odd_settings_are_taken_as_they_are() {
    // any total reaches a target below zero
    let (n, r) = play(cfg(-5.0, 4, 2.0, 2), &totals(&[0.0]));
    assert_eq!(n, 1);
    assert_eq!(r.stop_reason, "Reached target (-5 points)");
    // nothing reaches a target that is not a number, and no gain is under a negative bound
    let (n, _) = play(cfg(f64::NAN, 3, -1.0, 1), &totals(&[1.0, 1.1, 1.2]));
    assert_eq!(n, 3);
    assert_eq!(
        StopReason::Stalled { patience: 1, min_delta: number(-0.25) }.message(),
        "Improvement stalled (1 consecutive rounds under +-0.2 points)"
    );
}

#[test]
fn progress_names_length_and_issues() {
    assert_eq!(progress_line(&scored(0, 70.25, 1200, 0)), "  [iter01] 70.2/100  (1200 chars)");
    assert_eq!(
        progress_line(&scored(11, 70.0, 1200, 2)),
        "  [iter12] 70.0/100  (1200 chars, 2 format issues)"
    );
}

#[test]
fn the_held_out_total_must_rise_by_a_third_of_the_gain() {
    let lags = |f: f64, b: f64, hf: f64, hb: f64| {
        held_out_lags(number(f), number(b), number(hf), number(hb))
    };
    assert!(!lags(60.0, 90.0, 50.0, 60.0));
    assert!(lags(60.0, 90.0, 50.0, 59.0));
    assert!(lags(60.0, 90.0, 50.0, 45.0));
    assert!(!lags(60.0, 60.0, 50.0, 50.0));
}

#[test]
fn reports_rank_documents_and_quote_comments() {
    let sp = contest();
    let all = vec![scored(0, 60.0, 10, 0), scored(1, 70.5, 20, 1)];
    assert_eq!(
        write_report(&sp, &all),
        "# Scoring report — Grant\n\nScoring source: Notice 12\n\n\
| # | Document | Total | Chars | Format issues |\n|---|---|---|---|---|\n\
| 1 | iter02 | 70.5 | 20 | 1 |\n| 2 | iter01 | 60.0 | 10 | 0 |\n\
\n## 1. iter02 — 70.5/100\n\n- C: 70.5 (±4)\n\n### Format issues\n\n- issue 0\n\n### Improvement notes\n\n- do it\n\n> first\n> second\n\
\n## 2. iter01 — 60.0/100\n\n- C: 60.0 (±4)\n\n### Improvement notes\n\n- do it\n\n> first\n> second\n"
    );
}

#[test]
fn loop_reports_show_rounds_check_and_warnings() {
    let sp = contest();
    let (_, r) = play(cfg(99.0, 2, 2.0, 9), &[(60.0, 10, 0), (59.0, 10, 1)]);
    assert_eq!(
        write_loop_report(&sp, &r, Some((number(50.0), number(49.0)))),
        "# Improvement loop — Grant\n\nScoring source: Notice 12\n\nStopped: Reached max iterations (2) · best: iter01\n\n\
| # | Document | Total | Chars | Format issues |\n|---|---|---|---|---|\n\
| 1 | iter01 | 60.0 | 10 | 0 |\n| 2 | iter02 | 59.0 | 10 | 1 |\n\
\n## Held-out check\n\n| Judge | First draft | Best draft |\n|---|---|---|\n| Loop | 60.0 | 60.0 |\n| Held-out | 50.0 | 49.0 |\n\
\n⚠ The held-out improvement is less than a third of the loop's improvement → may be judge optimization rather than real improvement\n\
\n## Warnings\n\n- Last round (59.0 points) is not the best score → best.md is iter01\n"
    );
    let plain = write_loop_report(&sp, &r, None);
    assert!(!plain.contains("Held-out"));
}
