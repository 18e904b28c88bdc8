use convergent_core::models::{Evidence, IntentNode};
use convergent_core::stability::{StabilityScorer, StabilityWeights};

fn make_intent(evidence: Vec<Evidence>) -> IntentNode {
    IntentNode::new("test-agent", "test intent").with_evidence(evidence)
}

fn as_fraction(score: u64) -> f64 {
    score as f64 / 1_000_000.0
}

#[test]
fn test_base_stability() {
    let scorer = StabilityScorer::new();
    let intent = make_intent(vec![]);
    let score = as_fraction(scorer.compute(&intent));
    assert!((score - 0.3).abs() < f64::EPSILON);
}

#[test]
fn test_committed_code_increases_stability() {
    let scorer = StabilityScorer::new();
    let intent = make_intent(vec![Evidence::code_committed("initial commit")]);
    let score = as_fraction(scorer.compute(&intent));
    assert!((score - 0.5).abs() < f64::EPSILON);
}

#[test]
fn test_tests_passing_increases_stability() {
    let scorer = StabilityScorer::new();
    let intent = make_intent(vec![
        Evidence::test_pass("unit tests"),
        Evidence::test_pass("integration tests"),
        Evidence::test_pass("e2e tests"),
    ]);
    let score = as_fraction(scorer.compute(&intent));
    assert!((score - 0.45).abs() < f64::EPSILON);
}

#[test]
fn test_test_pass_cap() {
    let scorer = StabilityScorer::new();
    let evidence: Vec<Evidence> = (0..10)
        .map(|i| Evidence::test_pass(&format!("test {}", i)))
        .collect();
    let intent = make_intent(evidence);
    let score = as_fraction(scorer.compute(&intent));
    assert!((score - 0.6).abs() < f64::EPSILON);
}

#[test]
fn test_conflicts_decrease_stability() {
    let scorer = StabilityScorer::new();
    let intent = make_intent(vec![
        Evidence::code_committed("commit"),
        Evidence::conflict("schema mismatch"),
    ]);
    let score = as_fraction(scorer.compute(&intent));
    assert!((score - 0.35).abs() < f64::EPSILON);
}

#[test]
fn test_consumed_by_others_increases_stability() {
    let scorer = StabilityScorer::new();
    let intent = make_intent(vec![
        Evidence::code_committed("commit"),
        Evidence::consumed_by("agent-b"),
        Evidence::consumed_by("agent-c"),
    ]);
    let score = as_fraction(scorer.compute(&intent));
    assert!((score - 0.7).abs() < f64::EPSILON);
}

#[test]
fn test_high_stability_scenario() {
    let scorer = StabilityScorer::new();
    let intent = make_intent(vec![
        Evidence::code_committed("commit"),
        Evidence::test_pass("unit tests"),
        Evidence::test_pass("integration tests"),
        Evidence::consumed_by("agent-b"),
        Evidence::consumed_by("agent-c"),
    ]);
    let score = as_fraction(scorer.compute(&intent));
    assert!((score - 0.8).abs() < f64::EPSILON);
}

#[test]
fn test_stability_clamped_to_unit_range() {
    let scorer = StabilityScorer::new();
    let mut evidence = vec![Evidence::code_committed("commit")];
    for i in 0..20 {
        evidence.push(Evidence::test_pass(&format!("test {}", i)));
        evidence.push(Evidence::consumed_by(&format!("agent-{}", i)));
    }
    evidence.push(Evidence::manual_approval());
    let intent = make_intent(evidence);
    let score = as_fraction(scorer.compute(&intent));
    assert!(score <= 1.0);
    assert!(score >= 0.0);
}

#[test]
fn test_stability_floor_at_zero() {
    let scorer = StabilityScorer::new();
    let evidence: Vec<Evidence> = (0..10)
        .map(|i| Evidence::conflict(&format!("conflict {}", i)))
        .collect();
    let intent = make_intent(evidence);
    let score = as_fraction(scorer.compute(&intent));
    assert!((score - 0.0).abs() < f64::EPSILON);
}

#[test]
fn test_exact_scores() {
    let scorer = StabilityScorer::new();
    assert_eq!(scorer.compute(&make_intent(vec![])), 300_000);
    assert_eq!(
        scorer.compute(&make_intent(vec![Evidence::manual_approval()])),
        600_000
    );
    assert_eq!(
        scorer.compute(&make_intent(vec![
            Evidence::of_kind(convergent_core::models::EvidenceKind::TestFail, "red"),
        ])),
        150_000
    );
    let custom = StabilityScorer::with_weights(StabilityWeights {
        base: 2_000_000,
        test_pass: 0,
        test_pass_cap: 0,
        code_committed: 0,
        consumed_by_other: 0,
        consumed_cap: 0,
        conflict_penalty: 1_250_000,
        manual_approval: 0,
    });
    assert_eq!(custom.compute(&make_intent(vec![])), 1_000_000);
    assert_eq!(
        custom.compute(&make_intent(vec![Evidence::conflict("x")])),
        750_000
    );
}

#[test]
fn test_compute_batch_pairs_ids() {
    let scorer = StabilityScorer::new();
    let a = make_intent(vec![]);
    let b = make_intent(vec![Evidence::code_committed("c")]);
    let out = scorer.compute_batch(&[a.clone(), b.clone()]);
    assert_eq!(out, vec![(a.id.clone(), 300_000), (b.id.clone(), 500_000)]);
}

#[test]
fn test_fresh_identifier_form() {
    let a = IntentNode::new("agent", "x");
    let b = IntentNode::new("agent", "x");
    assert_ne!(a.id, b.id);
    let chars: Vec<char> = a.id.chars().collect();
    assert_eq!(chars.len(), 36);
    for (i, c) in chars.iter().enumerate() {
        if i == 8 || i == 13 || i == 18 || i == 23 {
            assert_eq!(*c, '-');
        } else {
            assert!(c.is_ascii_digit() || ('a'..='f').contains(c));
        }
    }
    assert_eq!(chars[14], '4');
    assert!(['8', '9', 'a', 'b'].contains(&chars[19]));
    assert!(a.timestamp.seconds > 1_600_000_000);
    assert!(a.timestamp.nanos < 1_000_000_000);
    assert_eq!(a.stability, 300_000);
    assert!(a.parent_id.is_none());
}
