use dowsing_core::types::{
    parse_normalization_level, FunctionInfo, FunctionKind, Language, NormalizationLevel, ParseError,
    RefactoringClassification, StructuralToken,
};

fn function(file: &str, name: &str, source_bytes: usize) -> FunctionInfo {
    FunctionInfo {
        language: Language::Python,
        file: file.to_string(),
        module: "m".to_string(),
        qualified_name: name.to_string(),
        class_name: None,
        function_name: name.to_string(),
        kind: FunctionKind::Method,
        start_line: 12,
        end_line: 30,
        source_bytes,
        ast_node_count: 10,
        complexity: 2,
        decorators: vec![],
        parameters: vec![],
        return_annotation: None,
        called_functions: vec![],
        is_public: true,
        is_dunder: false,
        is_test: false,
        is_property: false,
        is_classmethod: false,
        is_staticmethod: false,
        is_async: false,
        parser_recovered: false,
    }
}

#[test]
fn normalization_levels_parse_case_insensitively() {
    assert_eq!(parse_normalization_level("strict"), Ok(NormalizationLevel::Strict));
    assert_eq!(parse_normalization_level("Balanced"), Ok(NormalizationLevel::Balanced));
    assert_eq!(parse_normalization_level("AGGRESSIVE"), Ok(NormalizationLevel::Aggressive));
    assert_eq!("strict".parse::<NormalizationLevel>(), Ok(NormalizationLevel::Strict));
    assert_eq!(
        parse_normalization_level("loose"),
        Err("unknown normalization level: loose".to_string())
    );
    assert_eq!(parse_normalization_level(""), Err("unknown normalization level: ".to_string()));
}

#[test]
fn normalization_names_read_back() {
    for level in [NormalizationLevel::Strict, NormalizationLevel::Balanced, NormalizationLevel::Aggressive] {
        assert_eq!(parse_normalization_level(level.as_str()), Ok(level));
    }
    assert_eq!(NormalizationLevel::default(), NormalizationLevel::Balanced);
    assert_eq!(NormalizationLevel::Balanced.as_str(), "balanced");
}

#[test]
fn parse_errors_describe_their_position() {
    let e = ParseError { file: "a/b.py".to_string(), line: Some(4), column: Some(9), message: "oops".to_string() };
    assert_eq!(e.describe(), "a/b.py:4:9: oops");
    let e = ParseError { file: "a/b.py".to_string(), line: Some(4), column: None, message: "oops".to_string() };
    assert_eq!(e.describe(), "a/b.py:4: oops");
    let e = ParseError { file: "a/b.py".to_string(), line: None, column: None, message: "oops".to_string() };
    assert_eq!(e.describe(), "a/b.py: oops");
}

#[test]
fn locations() {
    let f = function("/repo/src/app/models.py", "save", 100);
    assert_eq!(f.short_location(), "models.py:save:12-30");
    assert_eq!(f.display_location("/repo"), "src/app/models.py:save:12-30");
    assert_eq!(f.display_location("/other"), "/repo/src/app/models.py:save:12-30");
    let g = function("..", "up", 1);
    assert_eq!(g.short_location(), "..:up:12-30");
}

#[test]
fn token_estimates_round_up() {
    assert_eq!(function("a.py", "f", 0).estimated_tokens(), 0);
    assert_eq!(function("a.py", "f", 1).estimated_tokens(), 1);
    assert_eq!(function("a.py", "f", 4).estimated_tokens(), 1);
    assert_eq!(function("a.py", "f", 5).estimated_tokens(), 2);
    assert_eq!(function("a.py", "f", 100).estimated_tokens(), 25);
    assert_eq!(function("a.py", "f", usize::MAX).estimated_tokens(), usize::MAX / 4 + 1);
}

#[test]
fn control_flow_tokens() {
    assert!(StructuralToken::If.is_control_flow());
    assert!(StructuralToken::Raise.is_control_flow());
    assert!(StructuralToken::Return.is_control_flow());
    assert!(StructuralToken::Case.is_control_flow());
    assert!(!StructuralToken::Assign.is_control_flow());
    assert!(!StructuralToken::Call("f".to_string()).is_control_flow());
    assert!(!StructuralToken::Yield.is_control_flow());
    assert!(!StructuralToken::BlockStart.is_control_flow());
}

#[test]
fn hdl_languages() {
    assert!(Language::Verilog.is_hdl());
    assert!(Language::SystemVerilog.is_hdl());
    assert!(Language::Vhdl.is_hdl());
    assert!(!Language::Cpp.is_hdl());
    assert!(!Language::Python.is_hdl());
}

#[test]
fn classification_names() {
    assert_eq!(RefactoringClassification::NearDuplicate.as_str(), "near_duplicate");
    assert_eq!(RefactoringClassification::TemplateMethodCandidate.as_str(), "template_method_candidate");
    assert_eq!(RefactoringClassification::GenericAbstractionCandidate.as_str(), "generic_abstraction_candidate");
}
