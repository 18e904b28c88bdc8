use convergent_core::matching::{
    names_overlap, normalize_constraint_target, normalize_name, normalize_type, parse_signature,
    signatures_compatible,
};

#[test]
fn test_normalize_name_strip_suffix() {
    assert_eq!(normalize_name("UserModel"), "user");
    assert_eq!(normalize_name("AuthService"), "auth");
    assert_eq!(normalize_name("RequestHandler"), "request");
    assert_eq!(normalize_name("UserController"), "user");
    assert_eq!(normalize_name("ApiSpec"), "api");
    assert_eq!(normalize_name("DatabaseInterface"), "database");
}

#[test]
fn test_normalize_name_camel_case() {
    assert_eq!(normalize_name("UserProfile"), "user profile");
    assert_eq!(normalize_name("MealPlanService"), "meal plan");
}

#[test]
fn test_normalize_name_simple() {
    assert_eq!(normalize_name("User"), "user");
    assert_eq!(normalize_name("user"), "user");
}

#[test]
fn test_normalize_name_empty() {
    assert_eq!(normalize_name(""), "");
}

#[test]
fn test_names_overlap_exact_after_suffix() {
    assert!(names_overlap("UserModel", "User"));
    assert!(names_overlap("AuthService", "Auth"));
}

#[test]
fn test_names_overlap_containment() {
    assert!(names_overlap("User", "UserProfile"));
}

#[test]
fn test_names_overlap_no_match() {
    assert!(!names_overlap("User", "Recipe"));
    assert!(!names_overlap("AuthService", "RecipeService"));
}

#[test]
fn test_names_overlap_empty() {
    assert!(!names_overlap("", "User"));
    assert!(!names_overlap("User", ""));
}

#[test]
fn test_normalize_type_aliases() {
    assert_eq!(normalize_type("UUID"), "uuid");
    assert_eq!(normalize_type("String"), "str");
    assert_eq!(normalize_type("i64"), "int");
    assert_eq!(normalize_type("f64"), "float");
    assert_eq!(normalize_type("boolean"), "bool");
}

#[test]
fn test_normalize_type_optional() {
    assert_eq!(normalize_type("Optional[str]"), "str");
    assert_eq!(normalize_type("str | None"), "str");
}

#[test]
fn test_normalize_type_containers() {
    assert_eq!(normalize_type("Vec<String>"), "list[str]");
    assert_eq!(normalize_type("List[str]"), "list[str]");
    assert_eq!(normalize_type("list[str]"), "list[str]");
}

#[test]
fn test_signatures_compatible_superset() {
    assert!(signatures_compatible(
        "id: UUID, email: str",
        "id: UUID, email: str, name: str"
    ));
}

#[test]
fn test_signatures_compatible_type_alias() {
    assert!(signatures_compatible(
        "id: UUID, name: String",
        "id: uuid, name: str"
    ));
}

#[test]
fn test_signatures_incompatible_missing_field() {
    assert!(!signatures_compatible("id: UUID, email: str", "id: UUID"));
}

#[test]
fn test_signatures_incompatible_type_mismatch() {
    assert!(!signatures_compatible("id: UUID", "id: int"));
}

#[test]
fn test_signatures_compatible_empty() {
    assert!(signatures_compatible("", "id: UUID"));
    assert!(signatures_compatible("", ""));
}

#[test]
fn test_normalize_constraint_target() {
    assert_eq!(normalize_constraint_target("User Model"), "user");
    assert_eq!(normalize_constraint_target("user_model"), "user");
    assert_eq!(normalize_constraint_target("User model"), "user");
    assert_eq!(normalize_constraint_target("user-service"), "user");
}

#[test]
fn test_normalize_constraint_target_no_suffix() {
    assert_eq!(
        normalize_constraint_target("authentication"),
        "authentication"
    );
    assert_eq!(normalize_constraint_target("User.id"), "user.id");
}

#[test]
fn test_normalize_constraint_target_empty() {
    assert_eq!(normalize_constraint_target(""), "");
}

#[test]
fn test_parse_signature_pairs() {
    let fields = parse_signature(" id : UUID ,name:list[str], broken , when: a:b ,");
    assert_eq!(
        fields,
        vec![
            ("id".to_string(), "UUID".to_string()),
            ("name".to_string(), "list[str]".to_string()),
            ("when".to_string(), "a:b".to_string()),
        ]
    );
    assert!(parse_signature("   ").is_empty());
    assert!(parse_signature("").is_empty());
}
