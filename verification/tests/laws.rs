use convergent_core::graph::IntentGraph;
use convergent_core::matching::{
    normalize_name, normalize_type, parse_signature, signatures_compatible,
};
use convergent_core::models::{Evidence, EvidenceKind, IntentNode, InterfaceKind, InterfaceSpec};
use convergent_core::stability::StabilityScorer;

fn rejoin(fields: &[(String, String)]) -> String {
    let written: Vec<String> = fields.iter().map(|(f, t)| format!("{}: {}", f, t)).collect();
    written.join(", ")
}

#[test]
fn test_signature_round_trip() {
    for sig in [
        "id: UUID, email: str",
        "  id :UUID ,, name:  list[str] ,junk, when: a:b , last:",
        ": x",
        ":",
        "a: b,",
        "",
        "   ",
        "no colon at all",
        "caf\u{e9} : Optional[str | None]",
    ] {
        let fields = parse_signature(sig);
        let again = parse_signature(&rejoin(&fields));
        assert_eq!(again, fields);
    }
    assert_eq!(
        rejoin(&parse_signature(" id :UUID ,name:str")),
        "id: UUID, name: str"
    );
}

#[test]
fn test_blank_signature_is_satisfied_by_any() {
    for b in ["", "id: UUID", "nonsense", " , , "] {
        assert!(signatures_compatible("", b));
        assert!(signatures_compatible("   ", b));
        assert!(signatures_compatible("no fields here", b));
    }
}

#[test]
fn test_normalize_name_is_idempotent_on_ascii() {
    for name in [
        "UserModel",
        "MealPlanService",
        "HTTPServerHandler",
        "user_profile",
        "Model",
        "ModelModel",
        "A",
        "aB",
        "XMLHttpRequest",
        "already normal",
        "",
    ] {
        let once = normalize_name(name);
        assert_eq!(normalize_name(&once), once);
    }
    // Beyond ASCII an uppercase letter may have no lowercase form; it then
    // opens a new token again on the second pass.
    let once = normalize_name("\u{1D400}\u{1D400}b");
    assert_eq!(once, "\u{1D400} \u{1D400}b");
    assert_eq!(normalize_name(&once), "\u{1D400}  \u{1D400}b");
    assert_eq!(normalize_name("HTTPServerHandler"), "http server");
    assert_eq!(normalize_name("XMLHttpRequest"), "xml http request");
    assert_eq!(normalize_name("Model"), "model");
    assert_eq!(normalize_name("ModelModel"), "model");
}

#[test]
fn test_normalize_type_is_idempotent_on_lowercase() {
    for t in [
        "UUID",
        "String",
        "Vec<String>",
        " Optional[List[i64] | None] ",
        "None | Vec< f32 >",
        "Optional[bool]",
        "list[recipe] | None",
        "uuid",
        "string",
        "i64",
        "boolean",
        "list[string]",
        "list[ list[i32] ]",
        " str | none ",
        "dict[str, int]",
        "list[a | b]",
        "x |",
        "",
    ] {
        let once = normalize_type(t);
        assert_eq!(normalize_type(&once), once);
    }
    assert_eq!(normalize_type("list[ list[i32] ]"), "list[list[int]]");
    assert_eq!(normalize_type("list[a | b]"), "list[a");
    // Uppercase spellings outside the known ones are only lowercased, so a
    // second pass may still find a known scalar.
    assert_eq!(normalize_type("STRING"), "string");
    assert_eq!(normalize_type("string"), "str");
    // What `Optional` wraps is not trimmed before it is lowercased.
    assert_eq!(normalize_type("Optional[ x ]"), " x ");
    assert_eq!(normalize_type(" x "), "x");
}

#[test]
fn test_minimum_partitions_records() {
    let mut graph = IntentGraph::in_memory();
    let kinds = [
        vec![],
        vec![Evidence::code_committed("c")],
        vec![Evidence::conflict("x")],
        vec![Evidence::code_committed("c"), Evidence::manual_approval()],
        vec![Evidence::of_kind(EvidenceKind::TestFail, "red"), Evidence::test_pass("green")],
    ];
    for evidence in kinds {
        graph
            .publish(&IntentNode::new("agent", "x").with_evidence(evidence))
            .unwrap();
    }
    let scorer = StabilityScorer::new();
    let all = graph.query_all(None);
    assert_eq!(all.len(), 5);
    for min in [0, 150_000, 150_001, 200_000, 300_000, 300_001, 500_000, 800_000, 800_001] {
        let kept = graph.query_all(Some(min));
        let expected: Vec<&String> = all
            .iter()
            .filter(|n| scorer.compute(n) >= min)
            .map(|n| &n.id)
            .collect();
        let got: Vec<&String> = kept.iter().map(|n| &n.id).collect();
        assert_eq!(got, expected);
    }
    assert_eq!(graph.query_all(Some(300_001)).len(), 2);
    assert_eq!(graph.query_all(Some(800_001)).len(), 0);
}

#[test]
fn test_score_ignores_order_of_evidence() {
    let scorer = StabilityScorer::new();
    let forward = IntentNode::new("a", "x").with_evidence(vec![
        Evidence::test_pass("1"),
        Evidence::conflict("2"),
        Evidence::code_committed("3"),
        Evidence::consumed_by("b"),
    ]);
    let backward = IntentNode::new("a", "x").with_evidence(vec![
        Evidence::consumed_by("b"),
        Evidence::code_committed("3"),
        Evidence::conflict("2"),
        Evidence::test_pass("1"),
    ]);
    assert_eq!(scorer.compute(&forward), 500_000);
    assert_eq!(scorer.compute(&backward), 500_000);
}

#[test]
fn test_overlap_by_normalized_name() {
    let mut graph = IntentGraph::in_memory();
    let published = IntentNode::new("agent-a", "Auth").with_requires(vec![InterfaceSpec::new(
        "UserModel",
        InterfaceKind::Model,
        "id: UUID",
    )]);
    graph.publish(&published).unwrap();
    let asked = vec![InterfaceSpec::new("User", InterfaceKind::Class, "")];
    let found = graph.find_overlapping(&asked, "agent-b", 300_000);
    assert_eq!(found.len(), 1);
    assert_eq!(found[0].id, published.id);
    assert!(graph.find_overlapping(&asked, "agent-b", 300_001).is_empty());
    assert!(graph.find_overlapping(&asked, "agent-a", 0).is_empty());
}
