use convergent_core::graph::{IntentGraph, InterfaceRole, PublishError};
use convergent_core::models::{
    AdjustmentKind, Constraint, Evidence, IntentNode, InterfaceKind, InterfaceSpec, Timestamp,
};

fn make_graph() -> IntentGraph {
    IntentGraph::in_memory()
}

#[test]
fn test_publish_and_query() {
    let mut graph = make_graph();
    let intent = IntentNode::new("agent-a", "Build AuthService");
    graph.publish(&intent).unwrap();

    let all = graph.query_all(None);
    assert_eq!(all.len(), 1);
    assert_eq!(all[0].agent_id, "agent-a");
}

#[test]
fn test_query_by_agent() {
    let mut graph = make_graph();
    graph.publish(&IntentNode::new("agent-a", "Auth")).unwrap();
    graph
        .publish(&IntentNode::new("agent-b", "Recipes"))
        .unwrap();
    graph
        .publish(&IntentNode::new("agent-a", "Auth v2"))
        .unwrap();

    let a_intents = graph.query_by_agent("agent-a");
    assert_eq!(a_intents.len(), 2);
}

#[test]
fn test_stability_filter() {
    let mut graph = make_graph();

    let low = IntentNode::new("agent-a", "exploring");
    graph.publish(&low).unwrap();

    let high = IntentNode::new("agent-b", "committed").with_evidence(vec![
        Evidence::code_committed("initial"),
        Evidence::test_pass("tests"),
        Evidence::consumed_by("agent-c"),
    ]);
    graph.publish(&high).unwrap();

    let high_only = graph.query_all(Some(600_000));
    assert_eq!(high_only.len(), 1);
    assert_eq!(high_only[0].agent_id, "agent-b");
}

#[test]
fn test_find_overlapping() {
    let mut graph = make_graph();

    let a = IntentNode::new("agent-a", "Auth module").with_provides(vec![InterfaceSpec::new(
        "User",
        InterfaceKind::Model,
        "id: UUID, email: str",
    )
    .with_tags(vec!["user", "auth", "model"])]);
    graph.publish(&a).unwrap();

    let my_specs = vec![
        InterfaceSpec::new("UserRef", InterfaceKind::Model, "user_id: UUID")
            .with_tags(vec!["user", "recipe", "model"]),
    ];

    let overlapping = graph.find_overlapping(&my_specs, "agent-b", 0);
    assert_eq!(overlapping.len(), 1);
    assert_eq!(overlapping[0].agent_id, "agent-a");
}

#[test]
fn test_resolve_consume_instead() {
    let mut graph = make_graph();

    let a = IntentNode::new("agent-a", "Auth module")
        .with_provides(vec![InterfaceSpec::new(
            "User",
            InterfaceKind::Model,
            "id: UUID, email: str",
        )
        .with_tags(vec!["user", "auth", "model"])])
        .with_evidence(vec![
            Evidence::code_committed("committed"),
            Evidence::test_pass("passing"),
        ]);
    graph.publish(&a).unwrap();

    let c = IntentNode::new("agent-c", "Meal planning").with_provides(vec![InterfaceSpec::new(
        "User",
        InterfaceKind::Model,
        "id: UUID, name: str",
    )
    .with_tags(vec!["user", "meal", "model"])]);

    let result = graph.resolve(&c, 0);
    assert!(!result.adjustments.is_empty());
    assert_eq!(result.adjustments[0].kind, AdjustmentKind::ConsumeInstead);
    assert_eq!(
        result.adjustments[0].description,
        "Drop 'User', consume 'User' from agent agent-a (stability 0.55)"
    );
    assert_eq!(result.adjustments[0].source_intent_id, a.id);
    assert!(result.has_adjustments());
    assert!(result.is_clean());
    assert_eq!(result.original_intent, c.id);
}

#[test]
fn test_resolve_adopt_constraint() {
    let mut graph = make_graph();

    let a = IntentNode::new("agent-a", "Auth module")
        .with_provides(vec![InterfaceSpec::new(
            "User",
            InterfaceKind::Model,
            "id: UUID, email: str",
        )
        .with_tags(vec!["user", "auth"])])
        .with_constraints(vec![Constraint::new(
            "User model",
            "must have email: str as unique field",
        )
        .with_affects(vec!["user", "account"])])
        .with_evidence(vec![Evidence::code_committed("committed")]);
    graph.publish(&a).unwrap();

    let b = IntentNode::new("agent-b", "Recipe module").with_provides(vec![InterfaceSpec::new(
        "Recipe",
        InterfaceKind::Model,
        "id: UUID, author_id: UUID",
    )
    .with_tags(vec!["recipe", "user", "model"])]);

    let result = graph.resolve(&b, 0);
    assert!(!result.adopted_constraints.is_empty());
    assert_eq!(result.adopted_constraints.len(), 1);
    assert_eq!(result.adopted_constraints[0].target, "User model");
    assert_eq!(
        result.adopted_constraints[0].requirement,
        "must have email: str as unique field"
    );
    assert_eq!(result.adjustments.len(), 1);
    assert_eq!(result.adjustments[0].kind, AdjustmentKind::AdoptConstraint);
    assert_eq!(
        result.adjustments[0].description,
        "Adopt constraint: User model \u{2014} must have email: str as unique field"
    );
    assert_eq!(result.adjustments[0].source_intent_id, a.id);
}

#[test]
fn test_graph_summary() {
    let mut graph = make_graph();
    graph.publish(&IntentNode::new("agent-a", "Auth")).unwrap();
    graph
        .publish(&IntentNode::new("agent-b", "Recipes"))
        .unwrap();
    graph.publish(&IntentNode::new("agent-c", "Meals")).unwrap();

    let summary = graph.summary();
    assert_eq!(summary.total_intents, 3);
    assert_eq!(summary.agent_count, 3);
}

#[test]
fn test_no_self_overlap() {
    let mut graph = make_graph();

    let a = IntentNode::new("agent-a", "Auth module").with_provides(vec![InterfaceSpec::new(
        "User",
        InterfaceKind::Model,
        "id: UUID",
    )
    .with_tags(vec!["user", "model"])]);
    graph.publish(&a).unwrap();

    let overlapping = graph.find_overlapping(&a.provides, "agent-a", 0);
    assert!(overlapping.is_empty());
}

fn at(mut node: IntentNode, seconds: i64, nanos: u32) -> IntentNode {
    node.timestamp = Timestamp { seconds, nanos };
    node
}

#[test]
fn test_publish_returns_base_for_no_evidence() {
    let mut graph = make_graph();
    let stability = graph.publish(&IntentNode::new("agent-a", "x")).unwrap();
    assert_eq!(stability, 300_000);
    assert_eq!(graph.count(), 1);
}

#[test]
fn test_publish_refuses_duplicate_and_unknown_parent() {
    let mut graph = make_graph();
    let a = IntentNode::new("agent-a", "x");
    assert_eq!(graph.publish(&a), Ok(300_000));
    assert_eq!(graph.publish(&a), Err(PublishError::DuplicateId));
    let orphan = IntentNode::new("agent-b", "y").with_parent("no-such-intent");
    assert_eq!(graph.publish(&orphan), Err(PublishError::UnknownParent));
    assert_eq!(graph.count(), 1);
    let child = IntentNode::new("agent-b", "y").with_parent(&a.id);
    assert_eq!(graph.publish(&child), Ok(300_000));
    assert_eq!(graph.count(), 2);
    assert_eq!(graph.query_all(None)[1].parent_id, Some(a.id.clone()));
}

#[test]
fn test_queries_are_ordered_by_creation_time() {
    let mut graph = make_graph();
    let late = at(IntentNode::new("agent-a", "late"), 300, 0);
    let early = at(IntentNode::new("agent-b", "early"), 100, 5);
    let middle = at(IntentNode::new("agent-a", "middle"), 200, 0);
    let tie = at(IntentNode::new("agent-c", "tie"), 200, 0);
    for node in [&late, &early, &middle, &tie] {
        graph.publish(node).unwrap();
    }
    let all = graph.query_all(None);
    let order: Vec<&str> = all.iter().map(|n| n.intent.as_str()).collect();
    assert_eq!(order, vec!["early", "middle", "tie", "late"]);
    let of_a = graph.query_by_agent("agent-a");
    let order: Vec<&str> = of_a.iter().map(|n| n.intent.as_str()).collect();
    assert_eq!(order, vec!["middle", "late"]);
    let since = graph.query_since(Timestamp { seconds: 200, nanos: 0 }, None);
    let order: Vec<&str> = since.iter().map(|n| n.intent.as_str()).collect();
    assert_eq!(order, vec!["late"]);
    let since = graph.query_since(Timestamp { seconds: 100, nanos: 4 }, Some(300_000));
    assert_eq!(since.len(), 4);
    let since = graph.query_since(Timestamp { seconds: 100, nanos: 4 }, Some(300_001));
    assert!(since.is_empty());
}

#[test]
fn test_candidate_ids_are_a_loose_prefilter() {
    let mut graph = make_graph();
    let a = IntentNode::new("agent-a", "Auth").with_provides(vec![InterfaceSpec::new(
        "UserModel",
        InterfaceKind::Model,
        "id: UUID",
    )
    .with_tags(vec!["user", "auth"])]);
    let b = IntentNode::new("agent-b", "Billing")
        .with_requires(vec![InterfaceSpec::new("Invoice", InterfaceKind::Model, "id: UUID")
            .with_tags(vec!["authority", "billing"])]);
    graph.publish(&a).unwrap();
    graph.publish(&b).unwrap();

    let by_name = vec![InterfaceSpec::new("User", InterfaceKind::Model, "id: UUID")];
    assert_eq!(graph.candidate_ids(&by_name, "agent-z", 0), vec![a.id.clone()]);
    assert!(graph.candidate_ids(&by_name, "agent-a", 0).is_empty());
    assert!(graph.candidate_ids(&by_name, "agent-z", 300_001).is_empty());

    // One shared tag selects a candidate, "auth" even inside "authority",
    // but does not make an overlap.
    let by_tag = vec![InterfaceSpec::new("Ledger", InterfaceKind::Model, "id: UUID")
        .with_tags(vec!["auth", "ledger"])];
    assert_eq!(
        graph.candidate_ids(&by_tag, "agent-z", 0),
        vec![a.id.clone(), b.id.clone()]
    );
    assert!(graph.find_overlapping(&by_tag, "agent-z", 0).is_empty());
    assert!(graph.find_overlapping(&[], "agent-z", 0).is_empty());
    let found = graph.find_overlapping(&by_name, "agent-z", 0);
    assert_eq!(found.len(), 1);
    assert_eq!(found[0].id, a.id);
    assert_eq!(InterfaceRole::Provides, InterfaceRole::Provides);
}

#[test]
fn test_resolve_tie_is_a_conflict() {
    let mut graph = make_graph();
    let a = IntentNode::new("agent-a", "Auth").with_provides(vec![InterfaceSpec::new(
        "User",
        InterfaceKind::Model,
        "id: UUID",
    )]);
    graph.publish(&a).unwrap();
    let c = IntentNode::new("agent-c", "Meals").with_provides(vec![InterfaceSpec::new(
        "UserModel",
        InterfaceKind::Model,
        "id: UUID",
    )]);
    let result = graph.resolve(&c, 0);
    assert!(result.adjustments.is_empty());
    assert!(!result.is_clean());
    assert_eq!(result.conflicts.len(), 1);
    let conflict = &result.conflicts[0];
    assert_eq!(conflict.my_intent_id, c.id);
    assert_eq!(conflict.their_intent_id, a.id);
    assert_eq!(conflict.their_stability, 300_000);
    assert_eq!(
        conflict.description,
        "Both provide 'UserModel' \u{2014} my stability 0.30 vs their 0.30"
    );
    assert_eq!(
        conflict.resolution_suggestion,
        "Higher stability should provide; other should consume"
    );
}

#[test]
fn test_resolve_adapt_signature_only_toward_more_stable() {
    let mut graph = make_graph();
    let a = IntentNode::new("agent-a", "Auth")
        .with_provides(vec![InterfaceSpec::new(
            "User",
            InterfaceKind::Model,
            "id: UUID, email: str",
        )])
        .with_evidence(vec![Evidence::code_committed("done")]);
    graph.publish(&a).unwrap();
    let needs = vec![InterfaceSpec::new("User", InterfaceKind::Model, "id: int")];
    let weak = IntentNode::new("agent-c", "Meals").with_requires(needs.clone());
    let result = graph.resolve(&weak, 0);
    assert_eq!(result.adjustments.len(), 1);
    assert_eq!(result.adjustments[0].kind, AdjustmentKind::AdaptSignature);
    assert_eq!(
        result.adjustments[0].description,
        "Adapt 'User' signature to match 'User' from agent agent-a \u{2014} expected 'id: int', they provide 'id: UUID, email: str'"
    );
    assert!(result.is_clean());

    let strong = IntentNode::new("agent-c", "Meals")
        .with_requires(needs)
        .with_evidence(vec![Evidence::code_committed("done")]);
    let result = graph.resolve(&strong, 0);
    assert!(result.adjustments.is_empty());
    assert!(result.is_clean());

    let satisfied = IntentNode::new("agent-c", "Meals").with_requires(vec![InterfaceSpec::new(
        "User",
        InterfaceKind::Model,
        "email: String",
    )]);
    assert!(!graph.resolve(&satisfied, 0).has_adjustments());
}

#[test]
fn test_resolve_constraint_conflict() {
    let mut graph = make_graph();
    let a = IntentNode::new("agent-a", "Auth")
        .with_constraints(vec![
            Constraint::new("User model", "email is unique").with_affects(vec!["user"]),
            Constraint::new("billing-service", "uses cents").with_affects(vec!["user"]),
            Constraint::new("Audit", "log all").with_affects(vec!["other"]),
        ])
        .with_evidence(vec![Evidence::manual_approval()]);
    graph.publish(&a).unwrap();
    let b = IntentNode::new("agent-b", "Recipes")
        .with_requires(vec![InterfaceSpec::new("Recipe", InterfaceKind::Model, "id: UUID")
            .with_tags(vec!["user"])])
        .with_constraints(vec![
            Constraint::new("user", "email may repeat"),
            Constraint::new("Billing", "uses cents"),
        ]);
    let applicable = graph.find_applicable_constraints(&b, 0);
    assert_eq!(applicable.len(), 2);
    assert_eq!(applicable[0].1, a.id);
    assert_eq!(applicable[0].2, 600_000);
    assert!(graph.find_applicable_constraints(&b, 600_001).is_empty());

    let result = graph.resolve(&b, 0);
    assert_eq!(result.conflicts.len(), 1);
    assert_eq!(
        result.conflicts[0].description,
        "Constraint conflict on 'User model': my requirement vs their requirement"
    );
    assert_eq!(result.conflicts[0].their_stability, 600_000);
    assert_eq!(
        result.conflicts[0].resolution_suggestion,
        "Higher stability constraint should win"
    );
    assert_eq!(result.adopted_constraints.len(), 1);
    assert_eq!(result.adopted_constraints[0].target, "billing-service");
    assert_eq!(result.adjustments.len(), 1);
}

#[test]
fn test_summary_values() {
    let mut graph = make_graph();
    let empty = graph.summary();
    assert_eq!(empty.total_intents, 0);
    assert_eq!(empty.average_stability, 0);
    assert!(empty.agents.is_empty());

    graph.publish(&IntentNode::new("zed", "a")).unwrap();
    graph
        .publish(
            &IntentNode::new("amy", "b").with_evidence(vec![
                Evidence::code_committed("c"),
                Evidence::manual_approval(),
            ]),
        )
        .unwrap();
    graph.publish(&IntentNode::new("zed", "c")).unwrap();
    graph.publish(&IntentNode::new("Zed", "d")).unwrap();
    let s = graph.summary();
    assert_eq!(s.total_intents, 4);
    assert_eq!(s.agents, vec!["Zed", "amy", "zed"]);
    assert_eq!(s.agent_count, 3);
    assert_eq!(s.average_stability, (300_000 * 3 + 800_000) / 4);
    assert_eq!(s.high_stability_count, 1);
}
