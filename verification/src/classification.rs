//! Classification of clusters into refactoring patterns.
//!
//! The decision reads two kinds of evidence: what the member functions look
//! like (parameter counts, size, complexity, called names) and how similar
//! they are. Similarities are scores; the thresholds they are held against
//! arrive here as the outcome of each comparison (`SimilarityEvidence`).
use vstd::prelude::*;
use crate::text::{contains_text, has_prefix, has_substring, starts_with_text};
use crate::text::occurs_at;
use crate::types::{classification_name, FunctionInfo, RefactoringClassification};

verus! {

/// Return a human-readable label for a classification.
pub fn classification_label(c: &RefactoringClassification) -> (r: &'static str)
    ensures
        r@ == classification_label_text(*c),
{
    match c {
        RefactoringClassification::NearDuplicate => "Near duplicate",
        RefactoringClassification::Duplicate => "Duplicate",
        RefactoringClassification::UtilityCandidate => "Utility candidate",
        RefactoringClassification::HelperCandidate => "Helper candidate",
        RefactoringClassification::CommonValidation => "Validation candidate",
        RefactoringClassification::CommonSerialization => "Serialization candidate",
        RefactoringClassification::CommonErrorHandling => "Error handling candidate",
        RefactoringClassification::StrategyCandidate => "Strategy candidate",
        RefactoringClassification::AdapterCandidate => "Adapter candidate",
        RefactoringClassification::TemplateMethodCandidate => "Template method candidate",
        RefactoringClassification::FactoryCandidate => "Factory candidate",
        RefactoringClassification::RegistryCandidate => "Registry candidate",
        RefactoringClassification::GenericAbstractionCandidate => "Abstraction candidate",
    }
}

/// The human-readable label of each classification.
pub open spec fn classification_label_text(c: RefactoringClassification) -> Seq<char> {
    match c {
        RefactoringClassification::NearDuplicate => "Near duplicate"@,
        RefactoringClassification::Duplicate => "Duplicate"@,
        RefactoringClassification::UtilityCandidate => "Utility candidate"@,
        RefactoringClassification::HelperCandidate => "Helper candidate"@,
        RefactoringClassification::CommonValidation => "Validation candidate"@,
        RefactoringClassification::CommonSerialization => "Serialization candidate"@,
        RefactoringClassification::CommonErrorHandling => "Error handling candidate"@,
        RefactoringClassification::StrategyCandidate => "Strategy candidate"@,
        RefactoringClassification::AdapterCandidate => "Adapter candidate"@,
        RefactoringClassification::TemplateMethodCandidate => "Template method candidate"@,
        RefactoringClassification::FactoryCandidate => "Factory candidate"@,
        RefactoringClassification::RegistryCandidate => "Registry candidate"@,
        RefactoringClassification::GenericAbstractionCandidate => "Abstraction candidate"@,
    }
}

/// `s` with the letters A to Z made lowercase.
pub open spec fn lower_ascii(s: Seq<char>) -> Seq<char> {
    s.map_values(|ch: char| if 'A' <= ch <= 'Z' { (ch as int + 32) as char } else { ch })
}

/// The label's first `k` characters are whole words: `k` ends the label or
/// falls on a space.
pub open spec fn ends_a_word(label: Seq<char>, k: int) -> bool {
    0 < k <= label.len() && (k == label.len() || label[k] == ' ')
}

/// Each label names its classification: its leading word or words, in
/// lowercase, occur in the classification's snake_case name (so the
/// strategy label says "strategy", the validation label "validation").
pub proof fn lemma_label_names_classification(c: RefactoringClassification)
    ensures
        exists|k: int|
            ends_a_word(classification_label_text(c), k) && has_substring(
                classification_name(c),
                lower_ascii(#[trigger] classification_label_text(c).take(k)),
            ),
{
    let label = classification_label_text(c);
    let name = classification_name(c);
    let (k, at): (int, int) = match c {
        RefactoringClassification::NearDuplicate => {
            reveal_strlit("Near duplicate");
            reveal_strlit("near_duplicate");
            (4, 0)
        },
        RefactoringClassification::Duplicate => {
            reveal_strlit("Duplicate");
            reveal_strlit("duplicate");
            (9, 0)
        },
        RefactoringClassification::UtilityCandidate => {
            reveal_strlit("Utility candidate");
            reveal_strlit("utility_candidate");
            (7, 0)
        },
        RefactoringClassification::HelperCandidate => {
            reveal_strlit("Helper candidate");
            reveal_strlit("helper_candidate");
            (6, 0)
        },
        RefactoringClassification::CommonValidation => {
            reveal_strlit("Validation candidate");
            reveal_strlit("common_validation");
            (10, 7)
        },
        RefactoringClassification::CommonSerialization => {
            reveal_strlit("Serialization candidate");
            reveal_strlit("common_serialization");
            (13, 7)
        },
        RefactoringClassification::CommonErrorHandling => {
            reveal_strlit("Error handling candidate");
            reveal_strlit("common_error_handling");
            (5, 7)
        },
        RefactoringClassification::StrategyCandidate => {
            reveal_strlit("Strategy candidate");
            reveal_strlit("strategy_candidate");
            (8, 0)
        },
        RefactoringClassification::AdapterCandidate => {
            reveal_strlit("Adapter candidate");
            reveal_strlit("adapter_candidate");
            (7, 0)
        },
        RefactoringClassification::TemplateMethodCandidate => {
            reveal_strlit("Template method candidate");
            reveal_strlit("template_method_candidate");
            (8, 0)
        },
        RefactoringClassification::FactoryCandidate => {
            reveal_strlit("Factory candidate");
            reveal_strlit("factory_candidate");
            (7, 0)
        },
        RefactoringClassification::RegistryCandidate => {
            reveal_strlit("Registry candidate");
            reveal_strlit("registry_candidate");
            (8, 0)
        },
        RefactoringClassification::GenericAbstractionCandidate => {
            reveal_strlit("Abstraction candidate");
            reveal_strlit("generic_abstraction_candidate");
            (11, 8)
        },
    };
    let word = lower_ascii(label.take(k));
    assert(ends_a_word(label, k));
    assert(name.subrange(at, at + word.len()) =~= word);
    assert(occurs_at(name, word, at));
    assert(has_substring(name, lower_ascii(label.take(k))));
}

// ─── Called-name patterns ────────────────────────────────────────────────

/// Names that suggest (de)serialization.
pub open spec fn serialization_patterns() -> Seq<Seq<char>> {
    seq![
        "serialize"@, "deserialize"@, "to_dict"@, "to_json"@, "from_dict"@, "from_json"@, "encode"@,
        "decode"@, "marshal"@, "unmarshal"@, "dump"@, "load"@, "dumps"@, "loads"@,
    ]
}

/// Names that suggest error handling.
pub open spec fn error_patterns() -> Seq<Seq<char>> {
    seq!["raise"@, "except"@, "log"@, "logger"@, "error"@, "exception"@, "handle"@]
}

/// Names that suggest object construction.
pub open spec fn construction_patterns() -> Seq<Seq<char>> {
    seq!["new"@, "create"@, "build"@, "make"@, "construct"@, "__init__"@, "from_"@]
}

pub open spec fn texts(v: Seq<&str>) -> Seq<Seq<char>> {
    v.map_values(|s: &str| s@)
}

fn serialization_calls() -> (r: Vec<&'static str>)
    ensures
        texts(r@) == serialization_patterns(),
{
    let r = vec![
        "serialize",
        "deserialize",
        "to_dict",
        "to_json",
        "from_dict",
        "from_json",
        "encode",
        "decode",
        "marshal",
        "unmarshal",
        "dump",
        "load",
        "dumps",
        "loads",
    ];
    assert(texts(r@) =~= serialization_patterns());
    r
}

fn error_calls() -> (r: Vec<&'static str>)
    ensures
        texts(r@) == error_patterns(),
{
    let r = vec!["raise", "except", "log", "logger", "error", "exception", "handle"];
    assert(texts(r@) =~= error_patterns());
    r
}

fn construction_calls() -> (r: Vec<&'static str>)
    ensures
        texts(r@) == construction_patterns(),
{
    let r = vec!["new", "create", "build", "make", "construct", "__init__", "from_"];
    assert(texts(r@) =~= construction_patterns());
    r
}

/// Some called name of `f` contains one of the patterns.
pub open spec fn calls_containing(f: FunctionInfo, patterns: Seq<Seq<char>>) -> bool {
    exists|c: int, p: int|
        0 <= c < f.called_functions@.len() && 0 <= p < patterns.len() && has_substring(
            #[trigger] f.called_functions@[c]@,
            #[trigger] patterns[p],
        )
}

/// Some called name of `f` starts with or contains one of the patterns.
pub open spec fn calls_starting_with_or_containing(f: FunctionInfo, patterns: Seq<Seq<char>>) -> bool {
    exists|c: int, p: int|
        0 <= c < f.called_functions@.len() && 0 <= p < patterns.len() && (has_prefix(
            #[trigger] f.called_functions@[c]@,
            #[trigger] patterns[p],
        ) || has_substring(f.called_functions@[c]@, patterns[p]))
}

/// `name` matches one of the patterns: contains it, or (with `with_prefix`)
/// starts with it.
fn matches_any(name: &str, patterns: &Vec<&'static str>, with_prefix: bool) -> (r: bool)
    ensures
        r == exists|p: int| 0 <= p < patterns@.len() && ((with_prefix && has_prefix(name@, #[trigger] texts(patterns@)[p]))
            || has_substring(name@, texts(patterns@)[p])),
{
    let mut p: usize = 0;
    while p < patterns.len()
        invariant
            p <= patterns@.len(),
            forall|q: int| 0 <= q < p ==> !((with_prefix && has_prefix(name@, #[trigger] texts(patterns@)[q]))
                || has_substring(name@, texts(patterns@)[q])),
        decreases patterns@.len() - p,
    {
        if (with_prefix && starts_with_text(name, patterns[p])) || contains_text(name, patterns[p]) {
            assert(texts(patterns@)[p as int] == patterns@[p as int]@);
            return true;
        }
        assert(texts(patterns@)[p as int] == patterns@[p as int]@);
        p += 1;
    }
    false
}

/// Whether some called name of `f` matches one of the patterns.
fn any_call_matches(f: &FunctionInfo, patterns: &Vec<&'static str>, with_prefix: bool) -> (r: bool)
    ensures
        !with_prefix ==> r == calls_containing(*f, texts(patterns@)),
        with_prefix ==> r == calls_starting_with_or_containing(*f, texts(patterns@)),
{
    let ghost pats = texts(patterns@);
    let calls = &f.called_functions;
    let mut c: usize = 0;
    while c < calls.len()
        invariant
            pats == texts(patterns@),
            pats.len() == patterns@.len(),
            calls@ == f.called_functions@,
            c <= calls@.len(),
            forall|d: int, p: int| 0 <= d < c && 0 <= p < pats.len() ==> !((with_prefix && has_prefix(
                #[trigger] calls@[d]@,
                #[trigger] pats[p],
            )) || has_substring(calls@[d]@, pats[p])),
        decreases calls@.len() - c,
    {
        if matches_any(calls[c].as_str(), patterns, with_prefix) {
            return true;
        }
        c += 1;
    }
    false
}

// ─── What the members look like ──────────────────────────────────────────

/// What the classification reads from the member functions.
#[derive(Debug, Clone, Copy, PartialEq, Eq)]
pub struct MemberTraits {
    pub member_count: usize,
    /// Every member takes at most four parameters.
    pub all_few_parameters: bool,
    /// Every member is guard-sized: at most 15 AST nodes, complexity at most 4.
    pub all_guard_sized: bool,
    /// Some member calls a serialization-like name.
    pub any_serialization_call: bool,
    /// Every member calls an error-handling-like name.
    pub all_error_handling_calls: bool,
    /// Every member calls a construction-like name.
    pub all_construction_calls: bool,
    /// Every member is utility-sized: at most 20 AST nodes.
    pub all_utility_sized: bool,
}

/// The traits of a member list, as the classification defines them.
pub open spec fn traits_of(members: Seq<&FunctionInfo>) -> MemberTraits {
    MemberTraits {
        member_count: members.len() as usize,
        all_few_parameters: forall|i: int| 0 <= i < members.len() ==> (#[trigger] members[i]).parameters@.len() <= 4,
        all_guard_sized: forall|i: int|
            0 <= i < members.len() ==> (#[trigger] members[i]).ast_node_count <= 15 && members[i].complexity <= 4,
        any_serialization_call: exists|i: int|
            0 <= i < members.len() && calls_containing(*#[trigger] members[i], serialization_patterns()),
        all_error_handling_calls: forall|i: int|
            0 <= i < members.len() ==> calls_containing(*#[trigger] members[i], error_patterns()),
        all_construction_calls: forall|i: int|
            0 <= i < members.len() ==> calls_starting_with_or_containing(*#[trigger] members[i], construction_patterns()),
        all_utility_sized: forall|i: int| 0 <= i < members.len() ==> (#[trigger] members[i]).ast_node_count <= 20,
    }
}

/// The traits of the members of a cluster.
pub fn member_traits(members: &[&FunctionInfo]) -> (t: MemberTraits)
    ensures
        t == traits_of(members@),
{
    let serialization = serialization_calls();
    let errors = error_calls();
    let construction = construction_calls();
    let mut few_parameters = true;
    let mut guard_sized = true;
    let mut any_serialization = false;
    let mut all_errors = true;
    let mut all_construction = true;
    let mut utility_sized = true;
    let mut i: usize = 0;
    while i < members.len()
        invariant
            texts(serialization@) == serialization_patterns(),
            texts(errors@) == error_patterns(),
            texts(construction@) == construction_patterns(),
            i <= members@.len(),
            few_parameters == forall|k: int| 0 <= k < i ==> (#[trigger] members@[k]).parameters@.len() <= 4,
            guard_sized == forall|k: int| 0 <= k < i ==> (#[trigger] members@[k]).ast_node_count <= 15 && members@[k].complexity <= 4,
            any_serialization == exists|k: int| 0 <= k < i && calls_containing(*#[trigger] members@[k], serialization_patterns()),
            all_errors == forall|k: int| 0 <= k < i ==> calls_containing(*#[trigger] members@[k], error_patterns()),
            all_construction == forall|k: int| 0 <= k < i ==> calls_starting_with_or_containing(*#[trigger] members@[k], construction_patterns()),
            utility_sized == forall|k: int| 0 <= k < i ==> (#[trigger] members@[k]).ast_node_count <= 20,
        decreases members@.len() - i,
    {
        let f = members[i];
        few_parameters = few_parameters && f.parameters.len() <= 4;
        guard_sized = guard_sized && f.ast_node_count <= 15 && f.complexity <= 4;
        let s = any_call_matches(f, &serialization, false);
        any_serialization = any_serialization || s;
        let e = any_call_matches(f, &errors, false);
        all_errors = all_errors && e;
        let c = any_call_matches(f, &construction, true);
        all_construction = all_construction && c;
        utility_sized = utility_sized && f.ast_node_count <= 20;
        proof {
            assert(members@[i as int] == f);
        }
        i += 1;
    }
    MemberTraits {
        member_count: members.len(),
        all_few_parameters: few_parameters,
        all_guard_sized: guard_sized,
        any_serialization_call: any_serialization,
        all_error_handling_calls: all_errors,
        all_construction_calls: all_construction,
        all_utility_sized: utility_sized,
    }
}

proof fn lemma_same_members(a: Seq<&FunctionInfo>, b: Seq<&FunctionInfo>)
    requires
        a.to_multiset() == b.to_multiset(),
    ensures
        a.len() == b.len(),
        forall|f: &FunctionInfo| a.contains(f) <==> b.contains(f),
{
    a.to_multiset_ensures();
    b.to_multiset_ensures();
    assert forall|f: &FunctionInfo| a.contains(f) <==> b.contains(f) by {
        assert(a.contains(f) <==> a.to_multiset().count(f) > 0);
        assert(b.contains(f) <==> b.to_multiset().count(f) > 0);
    }
}

proof fn lemma_all_same(a: Seq<&FunctionInfo>, b: Seq<&FunctionInfo>, p: spec_fn(&FunctionInfo) -> bool)
    requires
        forall|f: &FunctionInfo| a.contains(f) <==> b.contains(f),
    ensures
        (forall|i: int| 0 <= i < a.len() ==> p(#[trigger] a[i])) <==> (forall|i: int| 0 <= i < b.len() ==> p(#[trigger] b[i])),
        (exists|i: int| 0 <= i < a.len() && p(#[trigger] a[i])) <==> (exists|i: int| 0 <= i < b.len() && p(#[trigger] b[i])),
{
    if forall|i: int| 0 <= i < a.len() ==> p(#[trigger] a[i]) {
        assert forall|j: int| 0 <= j < b.len() implies p(#[trigger] b[j]) by {
            assert(b.contains(b[j]));
            let i = choose|i: int| 0 <= i < a.len() && a[i] == b[j];
            assert(p(a[i]));
        }
    }
    if forall|i: int| 0 <= i < b.len() ==> p(#[trigger] b[i]) {
        assert forall|j: int| 0 <= j < a.len() implies p(#[trigger] a[j]) by {
            assert(a.contains(a[j]));
            let i = choose|i: int| 0 <= i < b.len() && b[i] == a[j];
            assert(p(b[i]));
        }
    }
    if exists|i: int| 0 <= i < a.len() && p(#[trigger] a[i]) {
        let j = choose|j: int| 0 <= j < a.len() && p(#[trigger] a[j]);
        assert(a.contains(a[j]));
        let i = choose|i: int| 0 <= i < b.len() && b[i] == a[j];
        assert(p(b[i]));
    }
    if exists|i: int| 0 <= i < b.len() && p(#[trigger] b[i]) {
        let j = choose|j: int| 0 <= j < b.len() && p(#[trigger] b[j]);
        assert(b.contains(b[j]));
        let i = choose|i: int| 0 <= i < a.len() && a[i] == b[j];
        assert(p(a[i]));
    }
}

/// The order of a cluster's members does not matter: members that are a
/// rearrangement of one another have the same traits, and so the same
/// classification for any similarity evidence.
pub proof fn lemma_traits_permutation_invariant(a: Seq<&FunctionInfo>, b: Seq<&FunctionInfo>)
    requires
        a.to_multiset() == b.to_multiset(),
    ensures
        traits_of(a) == traits_of(b),
        forall|e: SimilarityEvidence| classification_for(traits_of(a), e) == classification_for(traits_of(b), e),
{
    lemma_same_members(a, b);
    lemma_all_same(a, b, |f: &FunctionInfo| f.parameters@.len() <= 4);
    lemma_all_same(a, b, |f: &FunctionInfo| f.ast_node_count <= 15 && f.complexity <= 4);
    lemma_all_same(a, b, |f: &FunctionInfo| calls_containing(*f, serialization_patterns()));
    lemma_all_same(a, b, |f: &FunctionInfo| calls_containing(*f, error_patterns()));
    lemma_all_same(a, b, |f: &FunctionInfo| calls_starting_with_or_containing(*f, construction_patterns()));
    lemma_all_same(a, b, |f: &FunctionInfo| f.ast_node_count <= 20);
}

proof fn lemma_all_concat(a: Seq<&FunctionInfo>, b: Seq<&FunctionInfo>, p: spec_fn(&FunctionInfo) -> bool)
    ensures
        (forall|i: int| 0 <= i < (a + b).len() ==> p(#[trigger] (a + b)[i])) <==> ((forall|i: int| 0 <= i < a.len() ==> p(#[trigger] a[i]))
            && (forall|i: int| 0 <= i < b.len() ==> p(#[trigger] b[i]))),
        (exists|i: int| 0 <= i < (a + b).len() && p(#[trigger] (a + b)[i])) <==> ((exists|i: int| 0 <= i < a.len() && p(#[trigger] a[i]))
            || (exists|i: int| 0 <= i < b.len() && p(#[trigger] b[i]))),
{
    let ab = a + b;
    if forall|i: int| 0 <= i < ab.len() ==> p(#[trigger] ab[i]) {
        assert forall|i: int| 0 <= i < a.len() implies p(#[trigger] a[i]) by {
            assert(ab[i] == a[i]);
        }
        assert forall|i: int| 0 <= i < b.len() implies p(#[trigger] b[i]) by {
            assert(ab[a.len() + i] == b[i]);
        }
    }
    if (forall|i: int| 0 <= i < a.len() ==> p(#[trigger] a[i])) && (forall|i: int| 0 <= i < b.len() ==> p(#[trigger] b[i])) {
        assert forall|i: int| 0 <= i < ab.len() implies p(#[trigger] ab[i]) by {
            if i < a.len() {
                assert(ab[i] == a[i]);
            } else {
                assert(ab[i] == b[i - a.len()]);
            }
        }
    }
    if exists|i: int| 0 <= i < ab.len() && p(#[trigger] ab[i]) {
        let i = choose|i: int| 0 <= i < ab.len() && p(#[trigger] ab[i]);
        if i < a.len() {
            assert(ab[i] == a[i]);
        } else {
            assert(ab[i] == b[i - a.len()]);
        }
    }
    if exists|i: int| 0 <= i < a.len() && p(#[trigger] a[i]) {
        let i = choose|i: int| 0 <= i < a.len() && p(#[trigger] a[i]);
        assert(ab[i] == a[i]);
    }
    if exists|i: int| 0 <= i < b.len() && p(#[trigger] b[i]) {
        let i = choose|i: int| 0 <= i < b.len() && p(#[trigger] b[i]);
        assert(ab[a.len() + i] == b[i]);
    }
}

/// The traits of one member: it counts once, and each trait is what that
/// member shows.
pub proof fn lemma_traits_of_one_member(f: &FunctionInfo)
    ensures
        traits_of(seq![f]).member_count == 1,
        traits_of(seq![f]).all_few_parameters == (f.parameters@.len() <= 4),
        traits_of(seq![f]).all_guard_sized == (f.ast_node_count <= 15 && f.complexity <= 4),
        traits_of(seq![f]).any_serialization_call == calls_containing(*f, serialization_patterns()),
        traits_of(seq![f]).all_error_handling_calls == calls_containing(*f, error_patterns()),
        traits_of(seq![f]).all_construction_calls == calls_starting_with_or_containing(*f, construction_patterns()),
        traits_of(seq![f]).all_utility_sized == (f.ast_node_count <= 20),
{
    let m = seq![f];
    assert(m[0] == f);
    if calls_containing(*f, serialization_patterns()) {
        assert(calls_containing(*m[0], serialization_patterns()));
    }
}

/// Joining two member lists: the counts add up, an "every member" trait
/// holds only if it holds on both sides, and the serialization trait holds
/// as soon as it holds on one side.
pub proof fn lemma_traits_of_joined(a: Seq<&FunctionInfo>, b: Seq<&FunctionInfo>)
    ensures
        traits_of(a + b).member_count as int == ((a.len() + b.len()) as usize) as int,
        traits_of(a + b).all_few_parameters == (traits_of(a).all_few_parameters && traits_of(b).all_few_parameters),
        traits_of(a + b).all_guard_sized == (traits_of(a).all_guard_sized && traits_of(b).all_guard_sized),
        traits_of(a + b).any_serialization_call == (traits_of(a).any_serialization_call || traits_of(b).any_serialization_call),
        traits_of(a + b).all_error_handling_calls == (traits_of(a).all_error_handling_calls && traits_of(b).all_error_handling_calls),
        traits_of(a + b).all_construction_calls == (traits_of(a).all_construction_calls && traits_of(b).all_construction_calls),
        traits_of(a + b).all_utility_sized == (traits_of(a).all_utility_sized && traits_of(b).all_utility_sized),
{
    lemma_all_concat(a, b, |f: &FunctionInfo| f.parameters@.len() <= 4);
    lemma_all_concat(a, b, |f: &FunctionInfo| f.ast_node_count <= 15 && f.complexity <= 4);
    lemma_all_concat(a, b, |f: &FunctionInfo| calls_containing(*f, serialization_patterns()));
    lemma_all_concat(a, b, |f: &FunctionInfo| calls_containing(*f, error_patterns()));
    lemma_all_concat(a, b, |f: &FunctionInfo| calls_starting_with_or_containing(*f, construction_patterns()));
    lemma_all_concat(a, b, |f: &FunctionInfo| f.ast_node_count <= 20);
}

/// What each classification demands of the members and of the similarity
/// evidence. Only clusters whose members are all small guards (at most 15
/// AST nodes, complexity at most 4) are validation candidates; only those
/// whose members all call an error-handling name are error-handling
/// candidates; and so on for every pattern. No cluster is ever called a
/// registry candidate, and a cluster without members is a generic candidate.
pub proof fn lemma_classification_demands(m: Seq<&FunctionInfo>, e: SimilarityEvidence)
    ensures
        m.len() == 0 ==> classification_for(traits_of(m), e) == RefactoringClassification::GenericAbstractionCandidate,
        0 < m.len() <= usize::MAX && e.near_identical ==> classification_for(traits_of(m), e) == RefactoringClassification::NearDuplicate,
        classification_for(traits_of(m), e) == RefactoringClassification::NearDuplicate ==> m.len() > 0 && e.near_identical,
        classification_for(traits_of(m), e) == RefactoringClassification::Duplicate ==> m.len() > 0 && e.copy_pasted
            && !e.near_identical,
        classification_for(traits_of(m), e) == RefactoringClassification::StrategyCandidate ==> m.len() >= 3
            && e.shared_flow_different_calls,
        classification_for(traits_of(m), e) == RefactoringClassification::AdapterCandidate ==> m.len() >= 2
            && e.shared_shape_different_calls && forall|i: int| 0 <= i < m.len() ==> (#[trigger] m[i]).parameters@.len() <= 4,
        classification_for(traits_of(m), e) == RefactoringClassification::CommonValidation ==> m.len() > 0 && e.similar_guards
            && forall|i: int| 0 <= i < m.len() ==> (#[trigger] m[i]).ast_node_count <= 15 && m[i].complexity <= 4,
        classification_for(traits_of(m), e) == RefactoringClassification::CommonSerialization ==> e.average_at_least_78
            && exists|i: int| 0 <= i < m.len() && calls_containing(*#[trigger] m[i], serialization_patterns()),
        classification_for(traits_of(m), e) == RefactoringClassification::CommonErrorHandling ==> m.len() > 0
            && e.similar_error_flow && forall|i: int| 0 <= i < m.len() ==> calls_containing(*#[trigger] m[i], error_patterns()),
        classification_for(traits_of(m), e) == RefactoringClassification::FactoryCandidate ==> m.len() > 0
            && e.average_at_least_76 && forall|i: int|
            0 <= i < m.len() ==> calls_starting_with_or_containing(*#[trigger] m[i], construction_patterns()),
        classification_for(traits_of(m), e) == RefactoringClassification::UtilityCandidate ==> m.len() >= 2
            && e.average_at_least_80 && forall|i: int| 0 <= i < m.len() ==> (#[trigger] m[i]).ast_node_count <= 20,
        classification_for(traits_of(m), e) == RefactoringClassification::HelperCandidate ==> m.len() >= 2
            && e.average_at_least_78,
        classification_for(traits_of(m), e) == RefactoringClassification::TemplateMethodCandidate ==> m.len() >= 2
            && e.similar_template,
        classification_for(traits_of(m), e) != RefactoringClassification::RegistryCandidate,
{
}

/// Small guards with similar guard flow are validation candidates unless
/// they are duplicates, a strategy or an adapter; members that all call an
/// error-handling name, with similar error flow, are error-handling
/// candidates unless one of the patterns tried before it applies.
pub proof fn lemma_classification_precedence(m: Seq<&FunctionInfo>, e: SimilarityEvidence)
    requires
        0 < m.len() <= usize::MAX,
        !e.near_identical,
        !e.copy_pasted,
        !(e.shared_flow_different_calls && m.len() >= 3),
        !(e.shared_shape_different_calls && m.len() >= 2 && forall|i: int|
            0 <= i < m.len() ==> (#[trigger] m[i]).parameters@.len() <= 4),
    ensures
        e.similar_guards && (forall|i: int| 0 <= i < m.len() ==> (#[trigger] m[i]).ast_node_count <= 15 && m[i].complexity <= 4)
            ==> classification_for(traits_of(m), e) == RefactoringClassification::CommonValidation,
        e.similar_error_flow && (forall|i: int| 0 <= i < m.len() ==> calls_containing(*#[trigger] m[i], error_patterns()))
            && !(e.similar_guards && forall|i: int| 0 <= i < m.len() ==> (#[trigger] m[i]).ast_node_count <= 15 && m[i].complexity <= 4)
            && !(e.average_at_least_78 && exists|i: int| 0 <= i < m.len() && calls_containing(*#[trigger] m[i], serialization_patterns()))
            ==> classification_for(traits_of(m), e) == RefactoringClassification::CommonErrorHandling,
{
}

// ─── How similar the members are ─────────────────────────────────────────

/// The outcome of each threshold comparison that the classification makes on
/// the average pairwise similarity and the averaged signals.
#[derive(Debug, Clone, Copy, PartialEq, Eq)]
pub struct SimilarityEvidence {
    /// average ≥ 0.97 and AST signal ≥ 0.97
    pub near_identical: bool,
    /// average ≥ 0.92 and token signal ≥ 0.92
    pub copy_pasted: bool,
    /// control-flow signal ≥ 0.80, call signal < 0.60, average ≥ 0.75
    pub shared_flow_different_calls: bool,
    /// AST signal ≥ 0.78 and call signal < 0.50
    pub shared_shape_different_calls: bool,
    /// control-flow signal ≥ 0.75 and average ≥ 0.78
    pub similar_guards: bool,
    /// control-flow signal ≥ 0.80 and average ≥ 0.75
    pub similar_error_flow: bool,
    /// average ≥ 0.76
    pub average_at_least_76: bool,
    /// average ≥ 0.78
    pub average_at_least_78: bool,
    /// average ≥ 0.80
    pub average_at_least_80: bool,
    /// average ≥ 0.75 and control-flow signal ≥ 0.70
    pub similar_template: bool,
}

/// The classification of a cluster, tried in order: an empty member list is a
/// generic candidate; then near duplicates, duplicates, strategies (three or
/// more members), adapters, validation, serialization, error handling,
/// factories, utilities, helpers and template methods; anything else is a
/// generic abstraction candidate.
pub open spec fn classification_for(t: MemberTraits, e: SimilarityEvidence) -> RefactoringClassification {
    if t.member_count == 0 {
        RefactoringClassification::GenericAbstractionCandidate
    } else if e.near_identical {
        RefactoringClassification::NearDuplicate
    } else if e.copy_pasted {
        RefactoringClassification::Duplicate
    } else if e.shared_flow_different_calls && t.member_count >= 3 {
        RefactoringClassification::StrategyCandidate
    } else if e.shared_shape_different_calls && t.all_few_parameters && t.member_count >= 2 {
        RefactoringClassification::AdapterCandidate
    } else if t.all_guard_sized && e.similar_guards {
        RefactoringClassification::CommonValidation
    } else if t.any_serialization_call && e.average_at_least_78 {
        RefactoringClassification::CommonSerialization
    } else if e.similar_error_flow && t.all_error_handling_calls {
        RefactoringClassification::CommonErrorHandling
    } else if t.all_construction_calls && e.average_at_least_76 {
        RefactoringClassification::FactoryCandidate
    } else if t.all_utility_sized && e.average_at_least_80 && t.member_count >= 2 {
        RefactoringClassification::UtilityCandidate
    } else if e.average_at_least_78 && t.member_count >= 2 {
        RefactoringClassification::HelperCandidate
    } else if e.similar_template && t.member_count >= 2 {
        RefactoringClassification::TemplateMethodCandidate
    } else {
        RefactoringClassification::GenericAbstractionCandidate
    }
}

/// Chooses the refactoring pattern of a cluster from what its members look
/// like and how similar they are. A cluster is only ever labelled a
/// candidate; the registry pattern is never chosen.
pub fn choose_classification(traits: &MemberTraits, evidence: &SimilarityEvidence) -> (c: RefactoringClassification)
    ensures
        c == classification_for(*traits, *evidence),
        c != RefactoringClassification::RegistryCandidate,
{
    let t = traits;
    let e = evidence;
    if t.member_count == 0 {
        RefactoringClassification::GenericAbstractionCandidate
    } else if e.near_identical {
        RefactoringClassification::NearDuplicate
    } else if e.copy_pasted {
        RefactoringClassification::Duplicate
    } else if e.shared_flow_different_calls && t.member_count >= 3 {
        RefactoringClassification::StrategyCandidate
    } else if e.shared_shape_different_calls && t.all_few_parameters && t.member_count >= 2 {
        RefactoringClassification::AdapterCandidate
    } else if t.all_guard_sized && e.similar_guards {
        RefactoringClassification::CommonValidation
    } else if t.any_serialization_call && e.average_at_least_78 {
        RefactoringClassification::CommonSerialization
    } else if e.similar_error_flow && t.all_error_handling_calls {
        RefactoringClassification::CommonErrorHandling
    } else if t.all_construction_calls && e.average_at_least_76 {
        RefactoringClassification::FactoryCandidate
    } else if t.all_utility_sized && e.average_at_least_80 && t.member_count >= 2 {
        RefactoringClassification::UtilityCandidate
    } else if e.average_at_least_78 && t.member_count >= 2 {
        RefactoringClassification::HelperCandidate
    } else if e.similar_template && t.member_count >= 2 {
        RefactoringClassification::TemplateMethodCandidate
    } else {
        RefactoringClassification::GenericAbstractionCandidate
    }
}

/// The fixed explanation given with a classification, where it does not
/// quote a similarity figure.
pub open spec fn fixed_reason(c: RefactoringClassification) -> Option<Seq<char>> {
    match c {
        RefactoringClassification::NearDuplicate => Some("Near-identical AST structure across all members."@),
        RefactoringClassification::Duplicate => Some("Very high token and AST similarity — likely copy-pasted code."@),
        RefactoringClassification::AdapterCandidate => Some(
            "Similar structure wrapping different external APIs — possible Adapter abstraction."@,
        ),
        RefactoringClassification::CommonValidation => Some("Small functions with similar validation/guard patterns."@),
        RefactoringClassification::CommonSerialization => Some("Similar serialization/deserialization patterns."@),
        RefactoringClassification::CommonErrorHandling => Some("Similar error handling control flow patterns."@),
        RefactoringClassification::FactoryCandidate => Some(
            "Similar object construction patterns — possible Factory abstraction."@,
        ),
        RefactoringClassification::UtilityCandidate => Some(
            "Small functions with similar structure — possible shared utility extraction."@,
        ),
        RefactoringClassification::HelperCandidate => Some("Structurally similar helper functions with shared patterns."@),
        RefactoringClassification::TemplateMethodCandidate => Some(
            "Similar structure with overridable steps — possible Template Method."@,
        ),
        _ => None,
    }
}

/// The fixed explanation of a classification; strategy and generic
/// candidates quote a similarity figure and have none.
pub fn classification_reason(c: &RefactoringClassification) -> (r: Option<&'static str>)
    ensures
        match r {
            Some(text) => fixed_reason(*c) == Some(text@),
            None => fixed_reason(*c) is None,
        },
{
    match c {
        RefactoringClassification::NearDuplicate => Some("Near-identical AST structure across all members."),
        RefactoringClassification::Duplicate => Some("Very high token and AST similarity — likely copy-pasted code."),
        RefactoringClassification::AdapterCandidate => Some(
            "Similar structure wrapping different external APIs — possible Adapter abstraction.",
        ),
        RefactoringClassification::CommonValidation => Some("Small functions with similar validation/guard patterns."),
        RefactoringClassification::CommonSerialization => Some("Similar serialization/deserialization patterns."),
        RefactoringClassification::CommonErrorHandling => Some("Similar error handling control flow patterns."),
        RefactoringClassification::FactoryCandidate => Some(
            "Similar object construction patterns — possible Factory abstraction.",
        ),
        RefactoringClassification::UtilityCandidate => Some(
            "Small functions with similar structure — possible shared utility extraction.",
        ),
        RefactoringClassification::HelperCandidate => Some("Structurally similar helper functions with shared patterns."),
        RefactoringClassification::TemplateMethodCandidate => Some(
            "Similar structure with overridable steps — possible Template Method.",
        ),
        _ => None,
    }
}

} // verus!
