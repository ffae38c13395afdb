//! The data model: configuration enums, extracted function metadata, the
//! normalized token stream, fingerprints and repository statistics.
use vstd::prelude::*;
use std::collections::BTreeMap;
use crate::text::{
    all_lowercase_letters, decimal, lowercase, push_char, push_decimal, push_str, to_lowercase,
};

verus! {

// ─── Languages ───────────────────────────────────────────────────────────

/// Source language of an extracted unit.
#[derive(Debug, Clone, Copy, PartialEq, Eq, Hash)]
pub enum Language {
    Python,
    JavaScript,
    TypeScript,
    C,
    Cpp,
    CSharp,
    Verilog,
    SystemVerilog,
    Vhdl,
}

/// Hardware description languages: discovered, never clustered.
pub open spec fn is_hdl_language(l: Language) -> bool {
    l is Verilog || l is SystemVerilog || l is Vhdl
}

impl Language {
    /// Whether this is a hardware description language.
    pub fn is_hdl(&self) -> (r: bool)
        ensures
            r == is_hdl_language(*self),
    {
        match self {
            Language::Verilog | Language::SystemVerilog | Language::Vhdl => true,
            _ => false,
        }
    }
}

// ─── Configuration ───────────────────────────────────────────────────────

/// Normalization level controls how aggressively identifiers are canonicalized.
#[derive(Debug, Clone, Copy, PartialEq, Eq)]
pub enum NormalizationLevel {
    /// Normalize only whitespace, comments, docstrings. Preserve all names.
    Strict,
    /// Normalize local/parameter names to positional placeholders.
    /// Preserve external names, called functions, operators, attributes, literals.
    Balanced,
    /// Also normalize string literals and numeric constants.
    Aggressive,
}

/// The lowercase name of a level.
pub open spec fn normalization_name(l: NormalizationLevel) -> Seq<char> {
    match l {
        NormalizationLevel::Strict => "strict"@,
        NormalizationLevel::Balanced => "balanced"@,
        NormalizationLevel::Aggressive => "aggressive"@,
    }
}

impl NormalizationLevel {
    /// The lowercase name, as displayed.
    pub fn as_str(&self) -> (r: &'static str)
        ensures
            r@ == normalization_name(*self),
    {
        match self {
            NormalizationLevel::Strict => "strict",
            NormalizationLevel::Balanced => "balanced",
            NormalizationLevel::Aggressive => "aggressive",
        }
    }
}

impl Default for NormalizationLevel {
    fn default() -> (r: Self)
        ensures
            r == NormalizationLevel::Balanced,
    {
        NormalizationLevel::Balanced
    }
}

/// Parses a level name, ignoring case.
///
/// The name is compared after `str::to_lowercase`; anything else than the
/// three names is refused with a message that quotes the input.
pub fn parse_normalization_level(s: &str) -> (r: Result<NormalizationLevel, String>)
    ensures
        lowercase(s@) == "strict"@ ==> r == Ok::<NormalizationLevel, String>(NormalizationLevel::Strict),
        lowercase(s@) == "balanced"@ ==> r == Ok::<NormalizationLevel, String>(NormalizationLevel::Balanced),
        lowercase(s@) == "aggressive"@ ==> r == Ok::<NormalizationLevel, String>(NormalizationLevel::Aggressive),
        r is Err <==> (lowercase(s@) != "strict"@ && lowercase(s@) != "balanced"@ && lowercase(s@) != "aggressive"@),
        r matches Err(m) ==> m@ == "unknown normalization level: "@ + s@,
        // a displayed name reads back as its level
        forall|l: NormalizationLevel| all_lowercase_letters(s@) && s@ == normalization_name(l) ==> r == Ok::<NormalizationLevel, String>(l),
{
    proof {
        reveal_strlit("strict");
        reveal_strlit("balanced");
        reveal_strlit("aggressive");
        assert("strict"@.len() == 6 && "balanced"@.len() == 8 && "aggressive"@.len() == 10);
    }
    let low = to_lowercase(s);
    proof {
        assert forall|l: NormalizationLevel| all_lowercase_letters(s@) && s@ == normalization_name(l) implies low@ == normalization_name(l) by {}
    }
    let strict = "strict".to_owned();
    let balanced = "balanced".to_owned();
    let aggressive = "aggressive".to_owned();
    if low == strict {
        Ok(NormalizationLevel::Strict)
    } else if low == balanced {
        Ok(NormalizationLevel::Balanced)
    } else if low == aggressive {
        Ok(NormalizationLevel::Aggressive)
    } else {
        let mut message = "unknown normalization level: ".to_owned();
        push_str(&mut message, s);
        Err(message)
    }
}

impl core::str::FromStr for NormalizationLevel {
    type Err = String;

    /// Parses a level name, ignoring case (see `parse_normalization_level`).
    fn from_str(s: &str) -> (r: Result<Self, String>)
        ensures
            lowercase(s@) == "strict"@ ==> r == Ok::<NormalizationLevel, String>(NormalizationLevel::Strict),
            lowercase(s@) == "balanced"@ ==> r == Ok::<NormalizationLevel, String>(NormalizationLevel::Balanced),
            lowercase(s@) == "aggressive"@ ==> r == Ok::<NormalizationLevel, String>(NormalizationLevel::Aggressive),
            r is Err <==> (lowercase(s@) != "strict"@ && lowercase(s@) != "balanced"@ && lowercase(s@) != "aggressive"@),
            r matches Err(m) ==> m@ == "unknown normalization level: "@ + s@,
            // a displayed name reads back as its level
            forall|l: NormalizationLevel| all_lowercase_letters(s@) && s@ == normalization_name(l) ==> r == Ok::<NormalizationLevel, String>(l),
    {
        parse_normalization_level(s)
    }
}

// ─── Output format ────────────────────────────────────────────────────────

#[derive(Debug, Clone, Copy, PartialEq, Eq)]
pub enum OutputFormat {
    Human,
    Ai,
    Json,
    Jsonl,
}

// ─── Parse result ─────────────────────────────────────────────────────────

/// A parse error that does not terminate the scan.
#[derive(Debug, Clone)]
pub struct ParseError {
    /// The file, as its path text.
    pub file: String,
    pub line: Option<usize>,
    pub column: Option<usize>,
    pub message: String,
}

/// `file:line:column: message`; the column is shown only with a line.
pub open spec fn parse_error_text(
    file: Seq<char>,
    line: Option<usize>,
    column: Option<usize>,
    message: Seq<char>,
) -> Seq<char> {
    let position = match line {
        Some(l) => decimal(l as nat) + ":"@ + match column {
            Some(c) => decimal(c as nat) + ":"@,
            None => Seq::empty(),
        },
        None => Seq::empty(),
    };
    file + ":"@ + position + " "@ + message
}

impl ParseError {
    /// The displayed form: `file:line:column: message`.
    pub fn describe(&self) -> (r: String)
        ensures
            r@ == parse_error_text(self.file@, self.line, self.column, self.message@),
    {
        let mut out = self.file.clone();
        push_char(&mut out, ':');
        if let Some(line) = self.line {
            push_decimal(&mut out, line as u64);
            push_char(&mut out, ':');
            if let Some(col) = self.column {
                push_decimal(&mut out, col as u64);
                push_char(&mut out, ':');
            }
        }
        push_char(&mut out, ' ');
        push_str(&mut out, self.message.as_str());
        proof {
            reveal_strlit(":");
            reveal_strlit(" ");
            assert(out@ =~= parse_error_text(self.file@, self.line, self.column, self.message@));
        }
        out
    }
}

// ─── Function metadata ────────────────────────────────────────────────────

/// Classification of a function's kind.
#[derive(Debug, Clone, Copy, PartialEq, Eq)]
pub enum FunctionKind {
    Function,
    Method,
    AsyncFunction,
    AsyncMethod,
    NestedFunction,
    Lambda,
    Process,
    Task,
    Procedure,
}

/// Extracted information about a single function, method, or HDL procedural block.
#[derive(Debug, Clone)]
pub struct FunctionInfo {
    pub language: Language,
    /// The source file, as its path text.
    pub file: String,
    pub module: String,
    pub qualified_name: String,
    pub class_name: Option<String>,
    pub function_name: String,
    pub kind: FunctionKind,
    pub start_line: usize,
    pub end_line: usize,
    pub source_bytes: usize,
    pub ast_node_count: usize,
    pub complexity: usize,
    pub decorators: Vec<String>,
    pub parameters: Vec<String>,
    pub return_annotation: Option<String>,
    /// Names of the called functions. Only membership is read from it, so
    /// neither their order nor a repeated name changes any result.
    pub called_functions: Vec<String>,
    pub is_public: bool,
    pub is_dunder: bool,
    pub is_test: bool,
    pub is_property: bool,
    pub is_classmethod: bool,
    pub is_staticmethod: bool,
    pub is_async: bool,
    /// True when an HDL declaration was recovered after the embedded grammar
    /// could not represent valid source. Recovered units are never clustered.
    pub parser_recovered: bool,
}

/// Tokens estimated for a source length: one per four bytes, rounded up.
pub open spec fn estimated_tokens_for(source_bytes: nat) -> nat {
    (source_bytes + 3) / 4
}

/// `place:name:start-end`.
pub open spec fn location_text(place: Seq<char>, name: Seq<char>, start: nat, end: nat) -> Seq<char> {
    place + ":"@ + name + ":"@ + decimal(start) + "-"@ + decimal(end)
}

/// The last component of a path, as `Path::file_name` gives it, in text form.
pub uninterp spec fn path_file_name(path: Seq<char>) -> Option<Seq<char>>;

/// The rest of `path` after the leading components that form `base`, as
/// `Path::strip_prefix` gives it, in text form.
pub uninterp spec fn path_relative_to(path: Seq<char>, base: Seq<char>) -> Option<Seq<char>>;

/// Calls `Path::file_name` on the path `path`. The result is the name
/// `path_file_name` applied to the path text (the name taken lossily as text).
#[verifier::external_body]
fn file_name_of(path: &str) -> (r: Option<String>)
    ensures
        match r {
            Some(name) => path_file_name(path@) == Some(name@),
            None => path_file_name(path@) is None,
        },
{
    match std::path::Path::new(path).file_name() {
        Some(name) => Some(name.to_string_lossy().into_owned()),
        None => None,
    }
}

/// Calls `Path::strip_prefix` on the path `path` with the prefix `base`. The
/// result is the name `path_relative_to` applied to both path texts.
#[verifier::external_body]
fn relative_to(path: &str, base: &str) -> (r: Option<String>)
    ensures
        match r {
            Some(rel) => path_relative_to(path@, base@) == Some(rel@),
            None => path_relative_to(path@, base@) is None,
        },
{
    match std::path::Path::new(path).strip_prefix(base) {
        Ok(rel) => Some(rel.display().to_string()),
        Err(_) => None,
    }
}

fn push_location(out: &mut String, place: &str, name: &str, start: usize, end: usize)
    ensures
        final(out)@ == old(out)@ + location_text(place@, name@, start as nat, end as nat),
{
    push_str(out, place);
    push_char(out, ':');
    push_str(out, name);
    push_char(out, ':');
    push_decimal(out, start as u64);
    push_char(out, '-');
    push_decimal(out, end as u64);
    proof {
        reveal_strlit(":");
        reveal_strlit("-");
        assert(final(out)@ =~= old(out)@ + location_text(place@, name@, start as nat, end as nat));
    }
}

impl FunctionInfo {
    /// Short display location: `file:name:start-end`, with the file's last
    /// path component (the whole path when it has none).
    pub fn short_location(&self) -> (r: String)
        ensures
            r@ == location_text(
                match path_file_name(self.file@) {
                    Some(name) => name,
                    None => self.file@,
                },
                self.function_name@,
                self.start_line as nat,
                self.end_line as nat,
            ),
    {
        let file = match file_name_of(self.file.as_str()) {
            Some(name) => name,
            None => self.file.clone(),
        };
        let mut out = String::new();
        push_location(&mut out, file.as_str(), self.function_name.as_str(), self.start_line, self.end_line);
        out
    }

    /// Location relative to `base` with parent directories preserved; the full
    /// path when the file does not lie under `base`.
    pub fn display_location(&self, base: &str) -> (r: String)
        ensures
            r@ == location_text(
                match path_relative_to(self.file@, base@) {
                    Some(rel) => rel,
                    None => self.file@,
                },
                self.function_name@,
                self.start_line as nat,
                self.end_line as nat,
            ),
    {
        let rel = match relative_to(self.file.as_str(), base) {
            Some(rel) => rel,
            None => self.file.clone(),
        };
        let mut out = String::new();
        push_location(&mut out, rel.as_str(), self.function_name.as_str(), self.start_line, self.end_line);
        out
    }

    /// Estimated source token count (~4 chars per token).
    pub fn estimated_tokens(&self) -> (r: usize)
        ensures
            r == estimated_tokens_for(self.source_bytes as nat),
    {
        self.source_bytes / 4 + if self.source_bytes % 4 == 0 { 0 } else { 1 }
    }
}

// ─── Normalized representation ────────────────────────────────────────────

/// A structural token in the normalized representation.
/// Preserves semantically meaningful information while erasing superficial differences.
#[derive(Debug, Clone, PartialEq, Eq, Hash, PartialOrd, Ord)]
pub enum StructuralToken {
    // Statements
    Assign,
    AugAssign(String),
    Return,
    Delete,
    Assert,
    Raise,
    Pass,
    Break,
    Continue,
    Global,
    Nonlocal,
    Import(String),
    // Control flow
    If,
    Elif,
    Else,
    For,
    AsyncFor,
    While,
    Try,
    ExceptHandler,
    Finally,
    With,
    AsyncWith,
    Match,
    Case,
    // Expressions
    Call(String),
    Attribute(String),
    BinOp(String),
    UnaryOp(String),
    BoolOp(String),
    Compare(String),
    Subscript,
    Slice,
    Starred,
    // Comprehensions
    ListComp,
    SetComp,
    DictComp,
    GeneratorExp,
    // Literals (conditionally preserved)
    StringLiteral,
    NumericLiteral,
    BoolLiteral(bool),
    NoneLiteral,
    FStringLiteral,
    // Structural
    FunctionDef,
    AsyncFunctionDef,
    ClassDef,
    Decorator(String),
    Param,
    Lambda,
    Yield,
    YieldFrom,
    Await,
    // Name references
    ExternalName(String),
    LocalName,
    /// Native grammar node/keyword, preserving language-specific structure.
    Syntax(String),
    /// A scoped parameter/local identity; preserves data-flow relationships.
    LocalBinding(usize),
    /// Literal spelling retained in strict and balanced modes.
    Literal(String),
    // Block markers
    BlockStart,
    BlockEnd,
}

/// Tokens that shape control flow: branches, loops, exception handling,
/// pattern matching and the jumps out of a block.
pub open spec fn is_control_flow_token(t: StructuralToken) -> bool {
    ||| t is If
    ||| t is Elif
    ||| t is Else
    ||| t is For
    ||| t is AsyncFor
    ||| t is While
    ||| t is Try
    ||| t is ExceptHandler
    ||| t is Finally
    ||| t is With
    ||| t is AsyncWith
    ||| t is Match
    ||| t is Case
    ||| t is Return
    ||| t is Break
    ||| t is Continue
    ||| t is Raise
}

impl StructuralToken {
    /// Whether this token represents control flow.
    pub fn is_control_flow(&self) -> (r: bool)
        ensures
            r == is_control_flow_token(*self),
    {
        match self {
            StructuralToken::If
            | StructuralToken::Elif
            | StructuralToken::Else
            | StructuralToken::For
            | StructuralToken::AsyncFor
            | StructuralToken::While
            | StructuralToken::Try
            | StructuralToken::ExceptHandler
            | StructuralToken::Finally
            | StructuralToken::With
            | StructuralToken::AsyncWith
            | StructuralToken::Match
            | StructuralToken::Case
            | StructuralToken::Return
            | StructuralToken::Break
            | StructuralToken::Continue
            | StructuralToken::Raise => true,
            _ => false,
        }
    }
}

/// Normalized structural representation of a function.
#[derive(Debug, Clone)]
pub struct NormalizedFunction {
    pub function_id: usize,
    pub tokens: Vec<StructuralToken>,
}

// ─── Fingerprints ─────────────────────────────────────────────────────────

/// Multiple deterministic fingerprints for a function.
#[derive(Debug, Clone)]
pub struct Fingerprints {
    pub function_id: usize,
    /// Hex of the hash of the normalized token sequence.
    pub exact_hash: String,
    /// 64-bit SimHash of structural token bigrams.
    pub simhash: u64,
    /// Metadata hash: param count, decorators, complexity bucket.
    pub metadata_hash: u64,
    /// Structural token type frequency vector (for Jaccard).
    pub token_frequencies: BTreeMap<String, usize>,
}

// ─── Structural differences ───────────────────────────────────────────────

/// Differences between structurally similar functions.
#[derive(Debug, Clone)]
pub struct StructuralDiff {
    pub common_elements: Vec<String>,
    pub differences: Vec<String>,
}

// ─── Clustering ───────────────────────────────────────────────────────────

/// Refactoring pattern classification.
#[derive(Debug, Clone, Copy, PartialEq, Eq)]
pub enum RefactoringClassification {
    NearDuplicate,
    Duplicate,
    UtilityCandidate,
    HelperCandidate,
    CommonValidation,
    CommonSerialization,
    CommonErrorHandling,
    StrategyCandidate,
    AdapterCandidate,
    TemplateMethodCandidate,
    FactoryCandidate,
    RegistryCandidate,
    GenericAbstractionCandidate,
}

/// The snake_case name of a classification, as displayed and serialized.
pub open spec fn classification_name(c: RefactoringClassification) -> Seq<char> {
    match c {
        RefactoringClassification::NearDuplicate => "near_duplicate"@,
        RefactoringClassification::Duplicate => "duplicate"@,
        RefactoringClassification::UtilityCandidate => "utility_candidate"@,
        RefactoringClassification::HelperCandidate => "helper_candidate"@,
        RefactoringClassification::CommonValidation => "common_validation"@,
        RefactoringClassification::CommonSerialization => "common_serialization"@,
        RefactoringClassification::CommonErrorHandling => "common_error_handling"@,
        RefactoringClassification::StrategyCandidate => "strategy_candidate"@,
        RefactoringClassification::AdapterCandidate => "adapter_candidate"@,
        RefactoringClassification::TemplateMethodCandidate => "template_method_candidate"@,
        RefactoringClassification::FactoryCandidate => "factory_candidate"@,
        RefactoringClassification::RegistryCandidate => "registry_candidate"@,
        RefactoringClassification::GenericAbstractionCandidate => "generic_abstraction_candidate"@,
    }
}

impl RefactoringClassification {
    /// The snake_case name, as displayed.
    pub fn as_str(&self) -> (r: &'static str)
        ensures
            r@ == classification_name(*self),
    {
        match self {
            RefactoringClassification::NearDuplicate => "near_duplicate",
            RefactoringClassification::Duplicate => "duplicate",
            RefactoringClassification::UtilityCandidate => "utility_candidate",
            RefactoringClassification::HelperCandidate => "helper_candidate",
            RefactoringClassification::CommonValidation => "common_validation",
            RefactoringClassification::CommonSerialization => "common_serialization",
            RefactoringClassification::CommonErrorHandling => "common_error_handling",
            RefactoringClassification::StrategyCandidate => "strategy_candidate",
            RefactoringClassification::AdapterCandidate => "adapter_candidate",
            RefactoringClassification::TemplateMethodCandidate => "template_method_candidate",
            RefactoringClassification::FactoryCandidate => "factory_candidate",
            RefactoringClassification::RegistryCandidate => "registry_candidate",
            RefactoringClassification::GenericAbstractionCandidate => "generic_abstraction_candidate",
        }
    }
}

// ─── Top-level scan result ────────────────────────────────────────────────

/// Statistics about the scanned repository.
#[derive(Debug, Clone)]
pub struct RepositoryStats {
    pub files_scanned: usize,
    pub files_with_errors: usize,
    pub functions_found: usize,
    pub total_source_bytes: usize,
    pub estimated_source_tokens: usize,
    pub candidate_pairs_generated: usize,
    pub clusters_found: usize,
    pub high_value_clusters: usize,
    pub scan_duration_ms: u64,
    pub cache_hits: usize,
    pub cache_misses: usize,
}

/// Basic info about the scanned repository.
#[derive(Debug, Clone)]
pub struct RepositoryInfo {
    /// The scanned path, as text.
    pub path: String,
    pub files: usize,
    pub functions: usize,
    pub estimated_tokens: usize,
}

// ─── Cache types ──────────────────────────────────────────────────────────

/// Cached analysis result for a single file.
#[derive(Debug, Clone)]
pub struct CachedFileResult {
    pub content_hash: String,
    pub tool_version: String,
    pub normalization: NormalizationLevel,
    pub functions: Vec<FunctionInfo>,
    pub normalized: Vec<NormalizedFunction>,
    pub fingerprints: Vec<Fingerprints>,
}

} // verus!
