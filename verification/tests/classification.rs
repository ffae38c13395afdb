use dowsing_core::classification::{
    choose_classification, classification_label, classification_reason, member_traits, MemberTraits,
    SimilarityEvidence,
};
use dowsing_core::types::{FunctionInfo, FunctionKind, Language, RefactoringClassification};

fn function(parameters: usize, ast_node_count: usize, complexity: usize, calls: &[&str]) -> FunctionInfo {
    FunctionInfo {
        language: Language::Python,
        file: "a.py".to_string(),
        module: "a".to_string(),
        qualified_name: "f".to_string(),
        class_name: None,
        function_name: "f".to_string(),
        kind: FunctionKind::Function,
        start_line: 1,
        end_line: 2,
        source_bytes: 10,
        ast_node_count,
        complexity,
        decorators: vec![],
        parameters: (0..parameters).map(|i| format!("p{i}")).collect(),
        return_annotation: None,
        called_functions: calls.iter().map(|c| c.to_string()).collect(),
        is_public: true,
        is_dunder: false,
        is_test: false,
        is_property: false,
        is_classmethod: false,
        is_staticmethod: false,
        is_async: false,
        parser_recovered: false,
    }
}

fn none() -> SimilarityEvidence {
    SimilarityEvidence {
        near_identical: false,
        copy_pasted: false,
        shared_flow_different_calls: false,
        shared_shape_different_calls: false,
        similar_guards: false,
        similar_error_flow: false,
        average_at_least_76: false,
        average_at_least_78: false,
        average_at_least_80: false,
        similar_template: false,
    }
}

fn traits(count: usize) -> MemberTraits {
    MemberTraits {
        member_count: count,
        all_few_parameters: false,
        all_guard_sized: false,
        any_serialization_call: false,
        all_error_handling_calls: false,
        all_construction_calls: false,
        all_utility_sized: false,
    }
}

#[test]
fn labels() {
    assert_eq!(classification_label(&RefactoringClassification::CommonValidation), "Validation candidate");
    assert_eq!(classification_label(&RefactoringClassification::GenericAbstractionCandidate), "Abstraction candidate");
    assert_eq!(classification_label(&RefactoringClassification::NearDuplicate), "Near duplicate");
}

#[test]
fn member_order_does_not_change_traits() {
    let a = function(2, 12, 3, &["json.dumps", "logger.error"]);
    let b = function(5, 30, 9, &["create_user", "handle_error"]);
    let c = function(1, 8, 1, &["new_session"]);
    let forward = member_traits(&[&a, &b, &c]);
    let backward = member_traits(&[&c, &b, &a]);
    assert_eq!(forward, backward);
    assert_eq!(member_traits(&[&a, &a, &c]), member_traits(&[&c, &a, &a]));
}

#[test]
fn member_traits_read_names_and_sizes() {
    let a = function(2, 12, 3, &["json.dumps", "logger.error"]);
    let b = function(5, 30, 9, &["create_user", "handle_error"]);
    let t = member_traits(&[&a, &b]);
    assert_eq!(t.member_count, 2);
    assert!(!t.all_few_parameters);
    assert!(!t.all_guard_sized);
    assert!(t.any_serialization_call);
    assert!(t.all_error_handling_calls);
    assert!(!t.all_construction_calls);
    assert!(!t.all_utility_sized);
    let c = function(1, 8, 1, &["new_session"]);
    let d = function(0, 20, 4, &["Widget.__init__"]);
    let t = member_traits(&[&c, &d]);
    assert!(t.all_few_parameters && t.all_utility_sized && t.all_construction_calls);
    assert!(!t.all_guard_sized && !t.any_serialization_call && !t.all_error_handling_calls);
    let empty = member_traits(&[]);
    assert_eq!(empty.member_count, 0);
    assert!(empty.all_few_parameters && !empty.any_serialization_call);
}

#[test]
fn decisions_follow_the_order_of_the_patterns() {
    let mut e = none();
    e.near_identical = true;
    e.copy_pasted = true;
    assert_eq!(choose_classification(&traits(2), &e), RefactoringClassification::NearDuplicate);
    assert_eq!(choose_classification(&traits(0), &e), RefactoringClassification::GenericAbstractionCandidate);

    let mut e = none();
    e.shared_flow_different_calls = true;
    assert_eq!(choose_classification(&traits(3), &e), RefactoringClassification::StrategyCandidate);
    // strategies need three members
    assert_eq!(choose_classification(&traits(2), &e), RefactoringClassification::GenericAbstractionCandidate);

    let mut t = traits(2);
    t.all_few_parameters = true;
    let mut e = none();
    e.shared_shape_different_calls = true;
    assert_eq!(choose_classification(&t, &e), RefactoringClassification::AdapterCandidate);

    let mut t = traits(2);
    t.all_construction_calls = true;
    t.all_utility_sized = true;
    let mut e = none();
    e.average_at_least_76 = true;
    e.average_at_least_78 = true;
    e.average_at_least_80 = true;
    assert_eq!(choose_classification(&t, &e), RefactoringClassification::FactoryCandidate);
    t.all_construction_calls = false;
    assert_eq!(choose_classification(&t, &e), RefactoringClassification::UtilityCandidate);
    t.all_utility_sized = false;
    assert_eq!(choose_classification(&t, &e), RefactoringClassification::HelperCandidate);

    let mut e = none();
    e.similar_template = true;
    assert_eq!(choose_classification(&traits(2), &e), RefactoringClassification::TemplateMethodCandidate);
    assert_eq!(choose_classification(&traits(1), &e), RefactoringClassification::GenericAbstractionCandidate);
}

#[test]
fn reasons() {
    assert_eq!(
        classification_reason(&RefactoringClassification::CommonSerialization),
        Some("Similar serialization/deserialization patterns.")
    );
    assert_eq!(classification_reason(&RefactoringClassification::StrategyCandidate), None);
    assert_eq!(classification_reason(&RefactoringClassification::GenericAbstractionCandidate), None);
}
