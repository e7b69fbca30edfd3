use bizplan::binary64::Binary64;
use bizplan::cli::{
    batch_len, build_llm, candidate_label, failed_note, first_angle, is_document, judge_panel,
    part_outcomes, rank, ranking_line, self_scoring_warning, validate_call_bounds,
    validate_generation, validate_input_size, BoundError, CallSettings, MAX_COUNT,
    MAX_INPUT_BYTES, MAX_ITER, MAX_ROUNDS,
};
use bizplan::checks::Metrics;
use bizplan::contest::{Criterion, Section, Spec};
use bizplan::score::Scored;

fn scored(label: &str, total: f64) -> Scored {
    Scored {
        label: label.to_string(),
        total: Binary64 { bits: total.to_bits() },
        per_criterion: vec![],
        missing_sections: vec![],
        format_issues: vec![],
        metrics: Metrics::default(),
        improvements: vec![],
        comments: vec![],
        rounds: 1,
        models: vec![],
    }
}

#[test]
fn validate_call_bounds_rejects_count_over_the_cap() {
    let err = validate_call_bounds(Some(MAX_COUNT + 1), None, None)
        .expect_err("count over MAX_COUNT must be rejected");
    assert!(err.message().contains("count"), "unexpected error: {err:#?}");
    assert_eq!(
        err.message(),
        "count (-n) too large (21, max 20) — would trigger an unbounded number of paid LLM calls"
    );
}

#[test]
fn validate_call_bounds_accepts_count_at_the_cap() {
    assert!(validate_call_bounds(Some(MAX_COUNT), None, None).is_ok());
}

#[test]
fn validate_call_bounds_rejects_rounds_over_the_cap() {
    let err = validate_call_bounds(None, Some(200), None)
        .expect_err("rounds over MAX_ROUNDS must be rejected");
    assert!(err.message().contains("rounds"), "unexpected error: {err:#?}");
    assert_eq!(
        err.message(),
        "rounds too large (200, max 10) — each round is a paid LLM call per document"
    );
}

#[test]
fn validate_call_bounds_accepts_rounds_at_the_cap() {
    assert!(validate_call_bounds(None, Some(MAX_ROUNDS), None).is_ok());
}

#[test]
fn validate_call_bounds_rejects_max_iter_over_the_cap() {
    let err = validate_call_bounds(None, None, Some(MAX_ITER + 1))
        .expect_err("max_iter over MAX_ITER must be rejected");
    assert!(err.message().contains("max_iter"), "unexpected error: {err:#?}");
    assert_eq!(
        err.message(),
        "max_iter too large (21, max 20) — each iteration is a paid LLM call"
    );
}

#[test]
fn validate_call_bounds_accepts_max_iter_at_the_cap() {
    assert!(validate_call_bounds(None, None, Some(MAX_ITER)).is_ok());
}

#[test]
fn validate_call_bounds_ignores_absent_arguments() {
    assert!(validate_call_bounds(None, None, None).is_ok());
}

#[test]
fn the_first_exceeded_bound_is_reported() {
    assert_eq!(
        validate_call_bounds(Some(99), Some(99), Some(99)),
        Err(BoundError::Count(99))
    );
    assert_eq!(validate_call_bounds(Some(1), Some(99), Some(99)), Err(BoundError::Rounds(99)));
}

#[test]
fn a_run_generates_at_least_one_draft() {
    assert_eq!(validate_generation(0, 2), Err(BoundError::NoCount));
    assert_eq!(
        BoundError::NoCount.message(),
        "count (-n) must be at least 1 (got 0)"
    );
    assert_eq!(validate_generation(1, 2), Ok(()));
    assert_eq!(validate_generation(21, 2), Err(BoundError::Count(21)));
    assert_eq!(validate_generation(3, 11), Err(BoundError::Rounds(11)));
}

#[test]
fn input_files_up_to_the_limit_are_read() {
    assert_eq!(MAX_INPUT_BYTES, 8 * 1024 * 1024);
    assert!(validate_input_size("idea.md", 0).is_ok());
    assert!(validate_input_size("idea.md", MAX_INPUT_BYTES).is_ok());
    let err = validate_input_size("idea.md", MAX_INPUT_BYTES + 1).unwrap_err();
    assert_eq!(
        err.message(),
        "File too large: idea.md (8388609 bytes, limit 8388608 bytes) — check that the path is correct"
    );
}

#[test]
fn documents_are_markdown_and_text_files_but_the_report() {
    assert!(is_document(Some("a.md"), Some("md")));
    assert!(is_document(Some("a.txt"), Some("txt")));
    assert!(is_document(None, Some("md")));
    assert!(!is_document(Some("report.md"), Some("md")));
    assert!(is_document(Some("report.txt"), Some("txt")));
    assert!(!is_document(Some("notes.json"), Some("json")));
    assert!(!is_document(Some("md"), None));
    assert!(!is_document(Some("a.MD"), Some("MD")));
}

fn settings() -> CallSettings {
    CallSettings {
        bin: "prog".to_string(),
        retries: 4,
        verbose: true,
        timeout_secs: 9,
        max_budget_usd: Some("0.5".to_string()),
        load_context: true,
    }
}

#[test]
fn models_are_called_with_the_settings_of_the_run() {
    let l = build_llm(&settings(), Some("m".to_string()));
    assert_eq!(l.bin, "prog");
    assert_eq!(l.model, Some("m".to_string()));
    assert_eq!(l.retries, 4);
    assert!(l.verbose);
    assert_eq!(l.timeout_secs, 9);
    assert_eq!(l.max_budget_usd, Some("0.5".to_string()));
    assert!(l.load_context);
}

#[test]
fn the_panel_takes_the_listed_judges() {
    let names = |list: Option<&str>| -> Vec<Option<String>> {
        judge_panel(&settings(), &list.map(|s| s.to_string()), &Some("gen".to_string()))
            .iter()
            .map(|l| l.model.clone())
            .collect()
    };
    assert_eq!(names(None), vec![Some("gen".to_string())]);
    assert_eq!(
        names(Some(" sonnet, ,haiku,")),
        vec![Some("sonnet".to_string()), Some("haiku".to_string())]
    );
    assert_eq!(names(Some("")), Vec::<Option<String>>::new());
}

#[test]
fn self_scoring_is_warned_about_only_where_drafts_are_generated() {
    let named = Some("haiku".to_string());
    assert!(self_scoring_warning(true, &None).unwrap().contains("--judge-model"));
    assert!(self_scoring_warning(true, &named).is_none());
    assert!(self_scoring_warning(false, &None).is_none());
}

#[test]
fn drafts_are_labelled_from_one() {
    assert_eq!(candidate_label(0), "cand01");
    assert_eq!(candidate_label(9), "cand10");
    assert_eq!(candidate_label(99), "cand100");
}

#[test]
fn the_first_angle_is_the_given_one_or_that_of_the_contest() {
    let mut sp = Spec {
        name: "n".to_string(),
        context: String::new(),
        scoring_source: String::new(),
        total_chars: 0,
        min_citations: 0,
        require_table: false,
        angles: vec!["first".to_string(), "second".to_string()],
        bands: vec![],
        sections: vec![Section {
            id: "s".to_string(),
            title: "S".to_string(),
            guide: String::new(),
            chars: 0,
            required: true,
        }],
        criteria: vec![Criterion {
            id: "c".to_string(),
            name: "C".to_string(),
            weight: Binary64 { bits: 1.0f64.to_bits() },
            guide: String::new(),
        }],
    };
    assert_eq!(first_angle("", &sp), "first");
    assert_eq!(first_angle("mine", &sp), "mine");
    sp.angles = vec![];
    assert!(first_angle("", &sp).starts_with("Puts technical implementation difficulty"));
}

#[test]
fn batches_take_what_runs_at_a_time() {
    assert_eq!(batch_len(3, 7), 3);
    assert_eq!(batch_len(3, 2), 2);
    assert_eq!(batch_len(3, 3), 3);
    assert_eq!(batch_len(0, 7), 1);
    assert_eq!(batch_len(0, 0), 0);
    assert_eq!(batch_len(5, 0), 0);
}

#[test]
fn failures_do_not_affect_other_items() {
    let outcomes: Vec<Result<u32, String>> =
        vec![Ok(1), Err("a".to_string()), Ok(2), Err("b".to_string()), Ok(3)];
    let (done, failed) = part_outcomes(outcomes);
    assert_eq!(done, vec![1, 2, 3]);
    assert_eq!(failed, vec!["a".to_string(), "b".to_string()]);
    assert_eq!(failed_note(0, " generation(s) failed", 3, 3), None);
    assert_eq!(
        failed_note(2, " generation(s) failed", 3, 5),
        Some("Warning: 2 generation(s) failed (3 of 5 requested succeeded)".to_string())
    );
}

#[test]
fn the_size_of_the_batches_makes_no_difference() {
    let outcomes = |from: usize, to: usize| -> Vec<Result<usize, usize>> {
        (from..to).map(|i| if i % 3 == 0 { Err(i) } else { Ok(i) }).collect()
    };
    let whole = part_outcomes(outcomes(0, 10));
    for concurrency in [0, 1, 3, 4, 10, 99] {
        let mut done: Vec<usize> = Vec::new();
        let mut failed: Vec<usize> = Vec::new();
        let mut at = 0;
        while at < 10 {
            let n = batch_len(concurrency, 10 - at);
            let (d, f) = part_outcomes(outcomes(at, at + n));
            done.extend(d);
            failed.extend(f);
            at += n;
        }
        assert_eq!((done, failed), whole.clone());
    }
}

#[test]
fn ranking_goes_from_the_highest_total_and_keeps_ties_in_order() {
    let all = vec![scored("a", 70.0), scored("b", 88.5), scored("c", 70.0), scored("d", 9.9)];
    assert_eq!(rank(&all), vec![1, 0, 2, 3]);
    assert_eq!(ranking_line(0, &all[1]), "  1. b — 88.5/100");
    // numbers are ranked, not patterns
    let all = vec![scored("a", -1.0), scored("b", 1.0), scored("c", -0.0), scored("d", 0.0)];
    assert_eq!(rank(&all), vec![1, 2, 3, 0]);
    // what is not a number stays in place
    let all = vec![scored("a", 1.0), scored("b", f64::NAN), scored("c", 2.0), scored("d", 3.0)];
    assert_eq!(rank(&all), vec![0, 1, 3, 2]);
}
