use convergent_core::labels::{evidence_from_label, parse_evidence_kind, parse_interface_kind};
use convergent_core::matching::{
    names_overlap, normalize_constraint_target, normalize_name, normalize_type,
};
use convergent_core::models::{
    AdjustmentKind, Constraint, ConstraintSeverity, Evidence, EvidenceKind, IntentNode,
    InterfaceKind, InterfaceSpec, Timestamp,
};
use convergent_core::decimal::push_stability;
use convergent_core::resolve::arbitrate;

#[test]
fn test_unicode_names() {
    assert_eq!(normalize_name("\u{c9}coleModel"), "\u{e9}cole");
    assert_eq!(normalize_name("na\u{ef}ve\u{c9}tat"), "na\u{ef}ve \u{e9}tat");
    assert_eq!(normalize_name("\u{dc}berService"), "\u{fc}ber");
    assert!(names_overlap("\u{c9}cole", "\u{c9}coleProfile"));
}

#[test]
fn test_normalize_type_edges() {
    assert_eq!(normalize_type("  \t str \n"), "str");
    assert_eq!(normalize_type("\u{a0}Vec<\u{2003}f32\u{2003}>\u{a0}"), "list[float]");
    assert_eq!(normalize_type("Optional[ int ]"), " int ");
    assert_eq!(normalize_type("Optional[]"), "");
    assert_eq!(normalize_type("Optional["), "optional[");
    assert_eq!(normalize_type("None | int"), "int");
    assert_eq!(normalize_type("None | None"), "");
    assert_eq!(normalize_type("None"), "none");
    assert_eq!(normalize_type("list[UUID] | None"), "list[uuid]");
    assert_eq!(normalize_type("Vec< Vec<i32> >"), "list[list[int]]");
    assert_eq!(normalize_type("Vec<>"), "list[]");
    assert_eq!(normalize_type("Optional[Vec<u64> | None]"), "list[int]");
    assert_eq!(normalize_type("MyType"), "mytype");
    assert_eq!(normalize_type("a |  | b"), "a");
    assert_eq!(normalize_type(""), "");
}

#[test]
fn test_normalize_constraint_target_edges() {
    assert_eq!(normalize_constraint_target("  Billing__Service  "), "billing");
    assert_eq!(normalize_constraint_target("x service model"), "x");
    assert_eq!(normalize_constraint_target("x model service"), "x model");
    assert_eq!(normalize_constraint_target("model"), "model");
    assert_eq!(normalize_constraint_target("Data\t\tBase-\nModel"), "data base");
    assert_eq!(normalize_constraint_target("supermodel"), "supermodel");
    assert_eq!(normalize_constraint_target(" - _ "), "");
}

#[test]
fn test_structural_overlap_by_tags() {
    let a = InterfaceSpec::new("Alpha", InterfaceKind::Function, "").with_tags(vec!["x", "y", "z"]);
    let b = InterfaceSpec::new("Beta", InterfaceKind::Function, "").with_tags(vec!["y", "q", "x"]);
    let c = InterfaceSpec::new("Gamma", InterfaceKind::Function, "").with_tags(vec!["x"]);
    let twice = InterfaceSpec::new("Delta", InterfaceKind::Function, "").with_tags(vec!["x", "x"]);
    assert!(a.structurally_overlaps(&b));
    assert!(!a.structurally_overlaps(&c));
    assert!(!c.structurally_overlaps(&a));
    // Tags are counted on the left side, repetitions included.
    assert!(twice.structurally_overlaps(&c));
    assert!(!c.structurally_overlaps(&twice));
    let named = InterfaceSpec::new("AlphaService", InterfaceKind::Class, "").with_module("svc/alpha");
    assert!(a.structurally_overlaps(&named));
    assert_eq!(named.module, "svc/alpha");
    assert_eq!(named.kind, InterfaceKind::Class);
}

#[test]
fn test_signature_compatible_is_one_way() {
    let small = InterfaceSpec::new("A", InterfaceKind::Model, "id: UUID");
    let large = InterfaceSpec::new("A", InterfaceKind::Model, "id: uuid, id: int, name: str");
    assert!(small.signature_compatible(&large));
    assert!(!large.signature_compatible(&small));
    // The first field of a name decides.
    let shadowed = InterfaceSpec::new("A", InterfaceKind::Model, "id: int, id: UUID");
    assert!(!small.signature_compatible(&shadowed));
}

#[test]
fn test_constraint_rules() {
    let c = Constraint::new("User model", "email unique")
        .with_severity(ConstraintSeverity::Critical)
        .with_affects(vec!["user", "account"]);
    assert_eq!(c.severity, ConstraintSeverity::Critical);
    assert_eq!(Constraint::new("a", "b").severity, ConstraintSeverity::Required);
    assert!(c.conflicts_with(&Constraint::new("user", "email may repeat")));
    assert!(c.conflicts_with(&Constraint::new("USER-MODEL", "other")));
    assert!(!c.conflicts_with(&Constraint::new("user", "email unique")));
    assert!(!c.conflicts_with(&Constraint::new("users", "other")));

    let provides_tag = IntentNode::new("a", "x").with_provides(vec![InterfaceSpec::new(
        "P",
        InterfaceKind::Model,
        "",
    )
    .with_tags(vec!["misc", "account"])]);
    let requires_tag = IntentNode::new("a", "x").with_requires(vec![InterfaceSpec::new(
        "R",
        InterfaceKind::Model,
        "",
    )
    .with_tags(vec!["user"])]);
    let untagged = IntentNode::new("a", "x").with_provides(vec![InterfaceSpec::new(
        "user",
        InterfaceKind::Model,
        "",
    )
    .with_tags(vec!["users"])]);
    assert!(c.applies_to(&provides_tag));
    assert!(c.applies_to(&requires_tag));
    assert!(!c.applies_to(&untagged));
    assert!(!Constraint::new("a", "b").applies_to(&provides_tag));
}

#[test]
fn test_builders() {
    let node = IntentNode::new("agent", "text")
        .with_stability(2_000_000)
        .with_parent("p-1");
    assert_eq!(node.stability, 1_000_000);
    assert_eq!(node.parent_id.as_deref(), Some("p-1"));
    assert_eq!(node.agent_id, "agent");
    assert_eq!(node.intent, "text");
    assert_eq!(IntentNode::new("a", "b").with_stability(700_000).stability, 700_000);
    let copy = node.clone();
    assert_eq!(copy.id, node.id);
    assert_eq!(copy.timestamp, node.timestamp);
}

#[test]
fn test_evidence_constructors() {
    assert_eq!(Evidence::test_pass("ok").kind, EvidenceKind::TestPass);
    assert_eq!(Evidence::test_pass("ok").description, "ok");
    assert_eq!(Evidence::code_committed("c").kind, EvidenceKind::CodeCommitted);
    assert_eq!(Evidence::conflict("c").kind, EvidenceKind::Conflict);
    let consumed = Evidence::consumed_by("agent-b");
    assert_eq!(consumed.kind, EvidenceKind::ConsumedByOther);
    assert_eq!(consumed.description, "Consumed by agent agent-b");
    let approved = Evidence::manual_approval();
    assert_eq!(approved.kind, EvidenceKind::ManualApproval);
    assert_eq!(approved.description, "Manually approved");
}

#[test]
fn test_timestamp_order() {
    let a = Timestamp { seconds: 10, nanos: 999_999_999 };
    let b = Timestamp { seconds: 11, nanos: 0 };
    let c = Timestamp { seconds: -5, nanos: 7 };
    assert!(a.is_at_or_before(&b));
    assert!(!b.is_at_or_before(&a));
    assert!(a.is_at_or_before(&a));
    assert!(c.is_at_or_before(&a));
    assert!(Timestamp { seconds: 10, nanos: 1 }.is_at_or_before(&a));
}

#[test]
fn test_labels() {
    assert_eq!(parse_interface_kind("function"), Ok(InterfaceKind::Function));
    assert_eq!(parse_interface_kind("class"), Ok(InterfaceKind::Class));
    assert_eq!(parse_interface_kind("model"), Ok(InterfaceKind::Model));
    assert_eq!(parse_interface_kind("endpoint"), Ok(InterfaceKind::Endpoint));
    assert_eq!(parse_interface_kind("migration"), Ok(InterfaceKind::Migration));
    assert_eq!(parse_interface_kind("config"), Ok(InterfaceKind::Config));
    assert_eq!(
        parse_interface_kind("Model"),
        Err("Unknown InterfaceKind: 'Model'. Expected one of: function, class, model, endpoint, migration, config".to_string())
    );
    assert_eq!(parse_evidence_kind("test_pass"), Ok(EvidenceKind::TestPass));
    assert_eq!(parse_evidence_kind("test_fail"), Ok(EvidenceKind::TestFail));
    assert_eq!(parse_evidence_kind("code_committed"), Ok(EvidenceKind::CodeCommitted));
    assert_eq!(parse_evidence_kind("consumed_by"), Ok(EvidenceKind::ConsumedByOther));
    assert_eq!(parse_evidence_kind("conflict"), Ok(EvidenceKind::Conflict));
    assert_eq!(parse_evidence_kind("manual_approval"), Ok(EvidenceKind::ManualApproval));
    assert_eq!(
        parse_evidence_kind(""),
        Err("Unknown EvidenceKind: ''. Expected one of: test_pass, test_fail, code_committed, consumed_by, conflict, manual_approval".to_string())
    );
    let failed = evidence_from_label("test_fail", "red").unwrap();
    assert_eq!(failed.kind, EvidenceKind::TestFail);
    assert_eq!(failed.description, "red");
    let consumed = evidence_from_label("consumed_by", "agent-z").unwrap();
    assert_eq!(consumed.description, "Consumed by agent agent-z");
    let approved = evidence_from_label("manual_approval", "ignored").unwrap();
    assert_eq!(approved.description, "Manually approved");
    assert!(evidence_from_label("approved", "x").is_err());
}

#[test]
fn test_push_stability_rounds_to_hundredths() {
    let cases = [
        (0, "0.00"),
        (4_999, "0.00"),
        (5_000, "0.01"),
        (124_999, "0.12"),
        (125_000, "0.13"),
        (300_000, "0.30"),
        (995_000, "1.00"),
        (1_000_000, "1.00"),
        (12_345_678, "12.35"),
        (u64::MAX, "18446744073709.55"),
    ];
    for (value, text) in cases {
        let mut out = String::from("s=");
        push_stability(&mut out, value);
        assert_eq!(out, format!("s={}", text));
    }
}

#[test]
fn test_arbitrate_orders_findings() {
    let candidate = IntentNode::new("me", "mine")
        .with_provides(vec![
            InterfaceSpec::new("User", InterfaceKind::Model, "id: UUID"),
            InterfaceSpec::new("Order", InterfaceKind::Model, "id: UUID"),
        ])
        .with_requires(vec![InterfaceSpec::new("Invoice", InterfaceKind::Model, "total: int")]);
    let strong = IntentNode::new("them", "theirs")
        .with_provides(vec![
            InterfaceSpec::new("OrderService", InterfaceKind::Class, ""),
            InterfaceSpec::new("InvoiceModel", InterfaceKind::Model, "total: str"),
            InterfaceSpec::new("UserProfile", InterfaceKind::Model, ""),
        ])
        .with_evidence(vec![Evidence::code_committed("c")]);
    let weak = IntentNode::new("other", "weak").with_provides(vec![InterfaceSpec::new(
        "User",
        InterfaceKind::Model,
        "",
    )]);
    let applicable = vec![(Constraint::new("T", "R"), "source-1".to_string(), 420_000)];
    let result = arbitrate(&candidate, &vec![strong.clone(), weak.clone()], &applicable);
    let kinds: Vec<AdjustmentKind> = result.adjustments.iter().map(|a| a.kind).collect();
    assert_eq!(
        kinds,
        vec![
            AdjustmentKind::ConsumeInstead,
            AdjustmentKind::ConsumeInstead,
            AdjustmentKind::AdaptSignature,
            AdjustmentKind::AdoptConstraint,
        ]
    );
    assert_eq!(
        result.adjustments[0].description,
        "Drop 'User', consume 'UserProfile' from agent them (stability 0.50)"
    );
    assert_eq!(
        result.adjustments[1].description,
        "Drop 'Order', consume 'OrderService' from agent them (stability 0.50)"
    );
    assert_eq!(result.adjustments[2].source_intent_id, strong.id);
    assert_eq!(result.adjustments[3].source_intent_id, "source-1");
    assert_eq!(result.conflicts.len(), 1);
    assert_eq!(result.conflicts[0].their_intent_id, weak.id);
    assert_eq!(result.adopted_constraints.len(), 1);
    assert_eq!(result.original_intent, candidate.id);
}
