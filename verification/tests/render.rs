use dowsing_core::render::{
    format_duration, format_number, render_cluster_estimates, render_cluster_heading, render_cluster_members,
    render_cluster_reason, render_cluster_structure, render_no_findings, render_parse_errors, render_summary,
    render_table_foot, render_table_head, render_table_row, write_styled,
};
use dowsing_core::report::{render_report, ReportCluster, SignalFigures};
use dowsing_core::types::{FunctionInfo, FunctionKind, Language, ParseError, RefactoringClassification, RepositoryStats};

#[test]
fn test_format_number() {
    assert_eq!(format_number(0), "0");
    assert_eq!(format_number(999), "999");
    assert_eq!(format_number(1_000), "1,000");
    assert_eq!(format_number(1_234_567), "1,234,567");
}

#[test]
fn test_format_duration() {
    assert_eq!(format_duration(500), "500ms");
    assert_eq!(format_duration(1_500), "1.5s");
    assert_eq!(format_duration(65_000), "1m 5s");
}

#[test]
fn format_number_pads_inner_groups_with_zeros() {
    assert_eq!(format_number(1_000_001), "1,000,001");
    assert_eq!(format_number(12_045), "12,045");
    assert_eq!(format_number(100), "100");
    assert_eq!(format_number(usize::MAX), {
        let digits = usize::MAX.to_string();
        let mut grouped = String::new();
        for (i, ch) in digits.chars().enumerate() {
            if i > 0 && (digits.len() - i) % 3 == 0 {
                grouped.push(',');
            }
            grouped.push(ch);
        }
        grouped
    });
}

#[test]
fn format_duration_matches_float_formatting_everywhere() {
    for ms in (0u64..1_000).chain(1_000..60_000).chain([60_000, 61_999, 3_600_000, u64::MAX]) {
        let expected = if ms < 1_000 {
            format!("{ms}ms")
        } else if ms < 60_000 {
            format!("{:.1}s", ms as f64 / 1_000.0)
        } else {
            let secs = ms / 1_000;
            format!("{}m {}s", secs / 60, secs % 60)
        };
        assert_eq!(format_duration(ms), expected, "ms = {ms}");
    }
}

#[test]
fn format_duration_rounds_like_binary_floats() {
    // 1.05 is stored just above, 1.15 just below, 1.25 exactly (ties go to even)
    assert_eq!(format_duration(1_050), "1.1s");
    assert_eq!(format_duration(1_150), "1.1s");
    assert_eq!(format_duration(1_250), "1.2s");
    assert_eq!(format_duration(1_750), "1.8s");
    assert_eq!(format_duration(59_999), "60.0s");
    assert_eq!(format_duration(60_000), "1m 0s");
    assert_eq!(format_duration(999), "999ms");
}

#[test]
fn styled_text_only_on_terminals() {
    let mut out = String::new();
    write_styled(&mut out, true, "\x1b[1m", "title");
    assert_eq!(out, "\x1b[1mtitle\x1b[0m");
    let mut plain = String::new();
    write_styled(&mut plain, false, "\x1b[1m", "title");
    assert_eq!(plain, "title");
}

fn stats(cache_hits: usize, cache_misses: usize) -> RepositoryStats {
    RepositoryStats {
        files_scanned: 9,
        files_with_errors: 0,
        functions_found: 30,
        total_source_bytes: 48_000,
        estimated_source_tokens: 12_345,
        candidate_pairs_generated: 41,
        clusters_found: 5,
        high_value_clusters: 2,
        scan_duration_ms: 1_500,
        cache_hits,
        cache_misses,
    }
}

#[test]
fn summary_lists_statistics() {
    let mut out = String::new();
    render_summary(&mut out, false, "0.2.0", "/repo", &stats(0, 0));
    let expected = "\n  ⛏  Dowsing Rod  v0.2.0\n\n  Repository Summary\n  ├── Path:            /repo\n  ├── Files scanned:   9\n  ├── Functions found: 30\n  ├── Source tokens:    ~12,345\n  ├── Candidate pairs: 41\n  ├── Clusters found:  5\n  ├── High value:      2\n  └── Scan time:       1.5s\n\n";
    assert_eq!(out, expected);
    let mut cached = String::new();
    render_summary(&mut cached, false, "0.2.0", "/repo", &stats(3, 1));
    assert!(cached.ends_with("  Cache: 3 hits, 1 misses\n\n"));
}

#[test]
fn parse_errors_section() {
    let mut none = String::new();
    render_parse_errors(&mut none, false, &vec![]);
    assert_eq!(none, "");
    let errors = vec![
        ParseError { file: "src/a.py".to_string(), line: Some(3), column: Some(7), message: "bad token".to_string() },
        ParseError { file: "b.c".to_string(), line: None, column: Some(2), message: "invalid encoding".to_string() },
    ];
    let mut out = String::new();
    render_parse_errors(&mut out, false, &errors);
    assert_eq!(out, "  ⚠ Parse Errors\n    src/a.py:3:7: bad token\n    b.c: invalid encoding\n\n");
}

#[test]
fn no_findings_line() {
    let mut out = String::new();
    render_no_findings(&mut out, false);
    assert_eq!(out, "  ✓ No structural matches found above the similarity threshold.\n\n");
}

#[test]
fn findings_table() {
    let mut out = String::new();
    render_table_head(&mut out, false);
    render_table_row(&mut out, "C1", "Strategy candidate", 10, "87", 5_000, "15625");
    render_table_foot(&mut out);
    let lines: Vec<&str> = out.lines().collect();
    assert_eq!(lines[0], "  Structural Findings");
    assert_eq!(lines[2], "  ┌──────┬──────────────────────────────┬───────┬─────────┬──────────┬────────────┐");
    assert_eq!(
        lines[5],
        format!("  │ {:<4} │ {:<28} │ {:>5} │ {:>7} │ {:>8} │ {:>10} │", "C1", "Strategy candidate", 10, "87", "5,000", "15625")
    );
    assert_eq!(lines[6], "  └──────┴──────────────────────────────┴───────┴─────────┴──────────┴────────────┘");
    assert!(out.ends_with("┘\n\n"));
}

fn function(file: &str, name: &str, language: Language) -> FunctionInfo {
    FunctionInfo {
        language,
        file: file.to_string(),
        module: "m".to_string(),
        qualified_name: name.to_string(),
        class_name: None,
        function_name: name.to_string(),
        kind: FunctionKind::Function,
        start_line: 1,
        end_line: 5,
        source_bytes: 100,
        ast_node_count: 10,
        complexity: 2,
        decorators: vec![],
        parameters: vec!["x".to_string()],
        return_annotation: None,
        called_functions: vec![],
        is_public: true,
        is_dunder: false,
        is_test: false,
        is_property: false,
        is_classmethod: false,
        is_staticmethod: false,
        is_async: false,
        parser_recovered: false,
    }
}

#[test]
fn cluster_details() {
    let mut out = String::new();
    render_cluster_heading(&mut out, false, "C2", "Helper candidate", "91", "88");
    assert_eq!(out, "  ── C2 ── Helper candidate  (similarity 91%, confidence 88%)\n");

    let functions = vec![function("/repo/pkg/a.py", "load", Language::Python), function("/elsewhere/b.py", "save", Language::Python)];
    let mut members = String::new();
    render_cluster_members(&mut members, &vec![0, 7, 1], &functions, "/repo");
    assert_eq!(members, "    • pkg/a.py:load:1-5\n    • /elsewhere/b.py:save:1-5\n");

    let mut structure = String::new();
    render_cluster_structure(
        &mut structure,
        false,
        &vec!["open".to_string(), "read".to_string()],
        &vec!["calls".to_string(), "params".to_string()],
    );
    assert_eq!(structure, "\n    Common pipeline: open → read\n    Differences: calls, params\n");
    let mut empty = String::new();
    render_cluster_structure(&mut empty, false, &vec![], &vec![]);
    assert_eq!(empty, "");

    let mut estimates = String::new();
    render_cluster_estimates(&mut estimates, 1_234, 863);
    assert_eq!(estimates, "    Duplicated tokens: ~1,234  |  Potential reduction: ~863\n");

    let mut reason = String::new();
    render_cluster_reason(&mut reason, true, "Because.");
    assert_eq!(reason, "\n\x1b[0;90m    Because.\x1b[0m\n\n");
}

fn report_cluster(id: &str, members: Vec<usize>) -> ReportCluster {
    ReportCluster {
        id: id.to_string(),
        classification: RefactoringClassification::HelperCandidate,
        function_indices: members,
        similarity_percent: "91".to_string(),
        confidence_percent: "88".to_string(),
        value: "1204".to_string(),
        duplicated_tokens_estimate: 1_234,
        potential_reduction_estimate: 863,
        common_structure: vec!["open".to_string()],
        differences: vec![],
        signals: SignalFigures {
            ast: "0.95".to_string(),
            tokens: "0.90".to_string(),
            calls: "0.80".to_string(),
            control_flow: "1.00".to_string(),
            complexity: "0.75".to_string(),
            params: "0.50".to_string(),
        },
        reason: "Because.".to_string(),
    }
}

#[test]
fn whole_report_without_findings() {
    let report = render_report(false, "0.2.0", "/repo", &stats(0, 0), &vec![], &vec![], &vec![]);
    let mut expected = String::new();
    render_summary(&mut expected, false, "0.2.0", "/repo", &stats(0, 0));
    render_no_findings(&mut expected, false);
    assert_eq!(report, expected);
    assert!(report.ends_with("  ✓ No structural matches found above the similarity threshold.\n\n"));
}

#[test]
fn whole_report_with_findings() {
    let functions = vec![function("/repo/a.py", "load", Language::Python), function("/repo/b.py", "save", Language::Python)];
    let errors = vec![ParseError { file: "c.py".to_string(), line: Some(1), column: Some(2), message: "bad".to_string() }];
    let clusters = vec![report_cluster("C1", vec![0, 1]), report_cluster("C2", vec![1])];
    let report = render_report(false, "0.2.0", "/repo", &stats(3, 1), &errors, &clusters, &functions);
    let details = "  ── C1 ── Helper candidate  (similarity 91%, confidence 88%)\n    • a.py:load:1-5\n    • b.py:save:1-5\n\n    Common pipeline: open\n\n    Signals: ast=0.95  tokens=0.90  calls=0.80  control=1.00  complexity=0.75  params=0.50\n    Duplicated tokens: ~1,234  |  Potential reduction: ~863\n\n    Because.\n\n";
    assert!(report.contains("  Cache: 3 hits, 1 misses\n\n  ⚠ Parse Errors\n    c.py:1:2: bad\n\n  Structural Findings\n"));
    assert!(report.contains(details));
    let row = format!("  │ {:<4} │ {:<28} │ {:>5} │ {:>7} │ {:>8} │ {:>10} │\n", "C2", "Helper candidate", 1, "91", "1,234", "1204");
    assert!(report.contains(&row));
    assert!(report.ends_with("  ── C2 ── Helper candidate  (similarity 91%, confidence 88%)\n    • b.py:save:1-5\n\n    Common pipeline: open\n\n    Signals: ast=0.95  tokens=0.90  calls=0.80  control=1.00  complexity=0.75  params=0.50\n    Duplicated tokens: ~1,234  |  Potential reduction: ~863\n\n    Because.\n\n"));
    assert!(!report.contains("No structural matches"));
}
