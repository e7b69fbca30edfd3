use bizplan::binary64::Binary64;
use bizplan::checks::{format_issues, match_headings, metrics, missing_sections, norm, split_sections};
use bizplan::contest::{Criterion, Section, Spec};

fn number(x: f64) -> Binary64 {
    Binary64 { bits: x.to_bits() }
}

fn section(title: &str, chars: usize, required: bool) -> Section {
    Section {
        id: "s".to_string(),
        title: title.to_string(),
        guide: String::new(),
        chars,
        required,
    }
}

fn spec_of(sections: Vec<Section>) -> Spec {
    Spec {
        name: "probe".to_string(),
        context: String::new(),
        scoring_source: String::new(),
        total_chars: 0,
        min_citations: 0,
        require_table: false,
        angles: vec![],
        bands: vec![],
        sections,
        criteria: vec![Criterion {
            id: "c".to_string(),
            name: "c".to_string(),
            weight: number(1.0),
            guide: String::new(),
        }],
    }
}

fn spec_with_sections(titles: &[&str]) -> Spec {
    spec_of(titles.iter().map(|t| section(t, 0, true)).collect())
}

#[test]
fn missing_sections_does_not_let_one_heading_satisfy_two_declared_sections() {
    let spec = spec_with_sections(&["Team", "Team Timeline"]);
    let doc = "## Team Timeline\nsome body\n";
    let missing = missing_sections(&spec, doc);
    assert_eq!(missing, vec!["Team".to_string()]);

    let doc_both = "## Team\nintro\n## Team Timeline\nschedule\n";
    assert!(missing_sections(&spec, doc_both).is_empty());
}

#[test]
fn split_sections_ignores_hash_lines_inside_code_fences() {
    let doc = "\
# Overview
This is the overview body.
```python
# not a heading, just a Python comment
x = 1
```
Still part of the overview body after the fence.

# Next Section
Body of the next section.
";
    let secs = split_sections(doc);
    assert_eq!(secs.len(), 2);
    assert_eq!(secs[0].0, "Overview");
    assert!(secs[0].1.contains("not a heading"));
    assert!(secs[0].1.contains("Still part of the overview body"));
    assert_eq!(secs[1].0, "Next Section");
    assert!(secs[1].1.contains("Body of the next section"));
}

#[test]
fn split_sections_recovers_after_an_unterminated_code_fence() {
    let doc = "\
# Section A
Intro.
```
unterminated fence, never closed

# Section B
Body of B.
";
    let secs = split_sections(doc);
    assert_eq!(secs.len(), 2);
    assert_eq!(secs[0].0, "Section A");
    assert_eq!(secs[1].0, "Section B");
    assert!(secs[1].1.contains("Body of B"));
}

#[test]
fn sections_keep_text_and_order() {
    assert_eq!(split_sections(""), vec![]);
    assert_eq!(split_sections("\n  \n"), vec![]);
    assert_eq!(
        split_sections("intro\r\n##  Title  \nbody"),
        vec![
            (String::new(), "intro\n".to_string()),
            ("Title".to_string(), "body\n".to_string()),
        ]
    );
    // a heading without text, with an empty body, leaves no section
    assert_eq!(split_sections("#\n# A\n"), vec![("A".to_string(), String::new())]);
    // an indented marker opens a block as well
    assert_eq!(split_sections("# A\n  ```\n# x\n  ```\n").len(), 1);
}

#[test]
fn metrics_count_tables_citations_and_years() {
    let m = metrics("| a | b |\n|---|---|\n「x」「y」「\n1999, 2024 12024 20245 19995 2000");
    assert_eq!(m.tables, 1);
    assert_eq!(m.citations, 2);
    assert_eq!(m.years, 3);
    assert_eq!(m.chars, 61);
    let none = metrics("");
    assert_eq!((none.chars, none.tables, none.citations, none.years), (0, 0, 0, 0));
    // characters are counted, not bytes
    assert_eq!(metrics("사업").chars, 2);
    // a rule is a line that begins with a bar
    assert_eq!(metrics("---|---\n").tables, 0);
}

#[test]
fn titles_are_compared_without_whitespace() {
    assert_eq!(norm(" 1.  Back\tground\u{3000}x "), "1.Backgroundx");
    let spec = spec_with_sections(&["1. Background"]);
    assert!(missing_sections(&spec, "## 1.Background and needs\n").is_empty());
    assert!(missing_sections(&spec, "# Background\n").is_empty());
    assert_eq!(missing_sections(&spec, "# Budget\n"), vec!["1. Background".to_string()]);
}

#[test]
fn an_exact_title_wins_over_closer_positions() {
    let wants: Vec<String> = ["TeamTimeline", "Team", "Te"].iter().map(|s| s.to_string()).collect();
    let heads: Vec<String> =
        ["Team", "TeamTimeline", "", "Budget", "Tea"].iter().map(|s| s.to_string()).collect();
    assert_eq!(
        match_headings(&heads, &wants),
        vec![Some(1), Some(0), None, None, Some(1)]
    );
}

#[test]
fn a_heading_supplies_its_own_section_alone() {
    let spec = spec_with_sections(&["Team", "Team Timeline", "# Budget"]);
    for doc in ["", "text", "text\r", "# Team\n", "```\nopen block\n", "```\n# Team\n```"] {
        let before = missing_sections(&spec, doc);
        for title in ["Team", "Team Timeline", "# Budget"] {
            let mut expected = before.clone();
            expected.retain(|t| t != title);
            let after = missing_sections(&spec, &format!("{doc}\n## {title}\n"));
            assert_eq!(after, expected, "{doc:?} with {title}");
        }
    }
}

#[test]
fn optional_sections_are_never_missing() {
    let spec = spec_of(vec![section("A", 0, false), section("B", 0, true)]);
    assert_eq!(missing_sections(&spec, "no headings"), vec!["B".to_string()]);
    assert_eq!(
        format_issues(&spec, "no headings"),
        vec!["Missing required section 'B' → add it".to_string()]
    );
}

#[test]
fn section_lengths_are_held_to_their_bounds() {
    let spec = spec_of(vec![section("A", 10, true)]);
    // bounds: 6 and 18 characters, the newline included
    let issues = |n: usize| format_issues(&spec, &format!("# A\n{}\n", "x".repeat(n - 1)));
    assert_eq!(
        issues(5),
        vec![
            "'A' too short: 5 chars (recommended 10 chars) → reinforce with evidence/examples"
                .to_string()
        ]
    );
    assert!(issues(6).is_empty());
    assert!(issues(18).is_empty());
    assert_eq!(
        issues(19),
        vec!["'A' too long: 19 chars (recommended 10 chars) → condense".to_string()]
    );
}

#[test]
fn overall_length_citations_and_table_are_checked() {
    let mut spec = spec_of(vec![section("A", 0, false)]);
    spec.total_chars = 11000;
    // 11000 * 0.7 is 7699.99… in binary64
    assert!(format_issues(&spec, &"x".repeat(7699)).is_empty());
    assert_eq!(
        format_issues(&spec, &"x".repeat(7698)),
        vec!["Overall length too short: 7698 chars (target 11000 chars)".to_string()]
    );
    assert_eq!(
        format_issues(&spec, &"x".repeat(14301)),
        vec![
            "Overall length too long: 14301 chars (target 11000 chars, risk of violating submission rules)"
                .to_string()
        ]
    );
    spec.total_chars = 0;
    spec.min_citations = 2;
    spec.require_table = true;
    assert_eq!(
        format_issues(&spec, "「a」"),
        vec![
            "Citations (「source name」): 1 found → at least 2 required".to_string(),
            "No table present → present at least one of comparison/schedule/KPI as a table"
                .to_string(),
        ]
    );
    assert!(format_issues(&spec, "「a」「b」\n|---|\n").is_empty());
}
