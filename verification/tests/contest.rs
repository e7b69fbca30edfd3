use bizplan::binary64::Binary64;
use bizplan::contest::{default_true, Criterion, Section, Spec, SpecError};

fn section() -> Section {
    Section {
        id: "s".to_string(),
        title: "S".to_string(),
        guide: "g".to_string(),
        chars: 0,
        required: default_true(),
    }
}

fn criterion(id: &str, weight: f64) -> Criterion {
    Criterion {
        id: id.to_string(),
        name: format!("Name of {id}"),
        weight: Binary64 { bits: weight.to_bits() },
        guide: "guide".to_string(),
    }
}

fn spec(sections: Vec<Section>, criteria: Vec<Criterion>) -> Spec {
    Spec {
        name: "probe".to_string(),
        context: String::new(),
        scoring_source: String::new(),
        total_chars: 0,
        min_citations: 0,
        require_table: false,
        angles: vec![],
        bands: vec![],
        sections,
        criteria,
    }
}

#[test]
fn load_rejects_an_infinite_weight() {
    let err = Spec::load(spec(vec![section()], vec![criterion("c1", f64::INFINITY)]))
        .expect_err("an infinite weight must be rejected");
    assert!(err.message().contains("finite"), "unexpected error: {err:#?}");
}

#[test]
fn load_rejects_a_negative_infinite_weight() {
    let err = Spec::load(spec(vec![section()], vec![criterion("c1", f64::NEG_INFINITY)]))
        .expect_err("a negative-infinite weight must be rejected");
    assert!(err.message().contains("greater than 0"), "unexpected error: {err:#?}");
}

#[test]
fn load_accepts_a_normal_finite_weight() {
    let spec = Spec::load(spec(vec![section()], vec![criterion("c1", 1.5)]))
        .expect("a normal finite weight must be accepted");
    assert_eq!(f64::from_bits(spec.criteria[0].weight.bits), 1.5);
}

#[test]
fn unusable_contests_are_refused() {
    let refusal = |s: Vec<Section>, c: Vec<Criterion>| Spec::load(spec(s, c)).unwrap_err();
    assert_eq!(refusal(vec![], vec![]), SpecError::NoSections);
    assert_eq!(refusal(vec![section()], vec![]), SpecError::NoCriteria);
    for w in [0.0, -0.0, -1.0, f64::NAN, -f64::NAN] {
        assert_eq!(refusal(vec![section()], vec![criterion("c", w)]), SpecError::BadWeight);
    }
    assert_eq!(
        refusal(
            vec![section()],
            vec![criterion("a", 1.0), criterion("b", 1.0), criterion("a", 2.0)]
        ),
        SpecError::DuplicateCriterion
    );
    assert_eq!(SpecError::NoSections.message(), "sections is empty");
    assert_eq!(SpecError::NoCriteria.message(), "criteria is empty");
    assert_eq!(SpecError::DuplicateCriterion.message(), "duplicate criteria id");
    assert_eq!(
        SpecError::BadWeight.message(),
        "all criteria weights must be greater than 0 and finite"
    );
}

#[test]
fn the_smallest_and_the_largest_weights_are_usable() {
    for w in [5e-324, f64::MAX] {
        assert!(Spec::load(spec(vec![section()], vec![criterion("c", w)])).is_ok());
    }
}

#[test]
fn weights_are_summed_in_order() {
    let s = spec(
        vec![section()],
        vec![criterion("a", 0.1), criterion("b", 0.2), criterion("c", 0.3)],
    );
    assert_eq!(f64::from_bits(s.weight_sum().bits), 0.1 + 0.2 + 0.3);
}

#[test]
fn prompts_present_sections_criteria_and_bands() {
    let mut long = section();
    long.chars = 800;
    let mut optional = section();
    optional.title = "T".to_string();
    optional.required = false;
    let mut s = spec(
        vec![long, optional],
        vec![criterion("a", 30.0), criterion("b", 60.0), criterion("c", 5.0)],
    );
    assert_eq!(
        s.sections_prompt(),
        "## S\n- Writing guide: g\n- Recommended length: approx. 800 chars\n- Required section\n\n## T\n- Writing guide: g"
    );
    assert_eq!(
        s.rubric_prompt(),
        "- id=\"a\" | Name of a (weight 32%) : guide\n- id=\"b\" | Name of b (weight 63%) : guide\n- id=\"c\" | Name of c (weight 5%) : guide"
    );
    assert!(s.bands_prompt().starts_with("90-100: Actual award-winning level."));
    assert_eq!(s.bands_prompt().lines().count(), 5);
    s.bands = vec!["low".to_string(), "high".to_string()];
    assert_eq!(s.bands_prompt(), "low\nhigh");
}
