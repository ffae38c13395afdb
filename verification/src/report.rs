//! The whole human-readable report, assembled from its sections.
use vstd::prelude::*;
use crate::classification::{classification_label, classification_label_text};
use crate::render::{
    cluster_heading_text, estimates_text, member_lines, no_findings_text, parse_errors_text, reason_text,
    render_cluster_estimates, render_cluster_heading, render_cluster_members, render_cluster_reason,
    render_cluster_structure, render_no_findings, render_parse_errors, render_summary, render_table_foot,
    render_table_head, render_table_row, structure_text, summary_text, table_foot_text, table_head_text,
    table_row_text, texts_of,
};
use crate::text::push_str;
use crate::types::{FunctionInfo, ParseError, RefactoringClassification, RepositoryStats};

verus! {

/// The six similarity signals of a cluster, each already written with two
/// decimals.
pub struct SignalFigures {
    pub ast: String,
    pub tokens: String,
    pub calls: String,
    pub control_flow: String,
    pub complexity: String,
    pub params: String,
}

/// The signals line of a cluster, after a blank line.
pub open spec fn signals_text(s: SignalFigures) -> Seq<char> {
    "\n"@ + "    Signals: ast="@ + s.ast@ + "  tokens="@ + s.tokens@ + "  calls="@ + s.calls@ + "  control="@
        + s.control_flow@ + "  complexity="@ + s.complexity@ + "  params="@ + s.params@ + "\n"@
}

/// Writes the signals line of a cluster.
pub fn render_cluster_signals(out: &mut String, signals: &SignalFigures)
    ensures
        final(out)@ == old(out)@ + signals_text(*signals),
{
    push_str(out, "\n");
    push_str(out, "    Signals: ast=");
    push_str(out, signals.ast.as_str());
    push_str(out, "  tokens=");
    push_str(out, signals.tokens.as_str());
    push_str(out, "  calls=");
    push_str(out, signals.calls.as_str());
    push_str(out, "  control=");
    push_str(out, signals.control_flow.as_str());
    push_str(out, "  complexity=");
    push_str(out, signals.complexity.as_str());
    push_str(out, "  params=");
    push_str(out, signals.params.as_str());
    push_str(out, "\n");
    assert(final(out)@ =~= old(out)@ + signals_text(*signals));
}

/// A cluster as the report shows it; its similarity, confidence and value
/// arrive already written as numbers.
pub struct ReportCluster {
    pub id: String,
    pub classification: RefactoringClassification,
    pub function_indices: Vec<usize>,
    pub similarity_percent: String,
    pub confidence_percent: String,
    pub value: String,
    pub duplicated_tokens_estimate: usize,
    pub potential_reduction_estimate: usize,
    pub common_structure: Vec<String>,
    pub differences: Vec<String>,
    pub signals: SignalFigures,
    pub reason: String,
}

/// The row of a cluster in the findings table.
pub open spec fn cluster_row_text(c: ReportCluster) -> Seq<char> {
    table_row_text(
        c.id@,
        classification_label_text(c.classification),
        c.function_indices@.len(),
        c.similarity_percent@,
        c.duplicated_tokens_estimate as nat,
        c.value@,
    )
}

/// The rows of the findings table, one per cluster, in order.
pub open spec fn table_rows_text(clusters: Seq<ReportCluster>) -> Seq<char>
    decreases clusters.len(),
{
    if clusters.len() == 0 {
        Seq::empty()
    } else {
        table_rows_text(clusters.drop_last()) + cluster_row_text(clusters.last())
    }
}

/// The details of one cluster: heading, members, structure, signals,
/// estimates and reason.
#[verifier::opaque]
pub open spec fn cluster_details_text(is_tty: bool, c: ReportCluster, functions: Seq<FunctionInfo>, base: Seq<char>) -> Seq<char> {
    cluster_heading_text(is_tty, c.id@, classification_label_text(c.classification), c.similarity_percent@, c.confidence_percent@)
        + member_lines(c.function_indices@, functions, base)
        + structure_text(is_tty, texts_of(c.common_structure@), texts_of(c.differences@))
        + signals_text(c.signals)
        + estimates_text(c.duplicated_tokens_estimate as nat, c.potential_reduction_estimate as nat)
        + reason_text(is_tty, c.reason@)
}

/// The details of every cluster, in order.
pub open spec fn all_details_text(is_tty: bool, clusters: Seq<ReportCluster>, functions: Seq<FunctionInfo>, base: Seq<char>) -> Seq<char>
    decreases clusters.len(),
{
    if clusters.len() == 0 {
        Seq::empty()
    } else {
        all_details_text(is_tty, clusters.drop_last(), functions, base) + cluster_details_text(is_tty, clusters.last(), functions, base)
    }
}

/// The whole human-readable report: summary, parse errors, then either the
/// line that nothing was found or the findings table and each cluster's
/// details.
pub open spec fn report_text(
    is_tty: bool,
    tool_version: Seq<char>,
    path: Seq<char>,
    stats: RepositoryStats,
    errors: Seq<ParseError>,
    clusters: Seq<ReportCluster>,
    functions: Seq<FunctionInfo>,
) -> Seq<char> {
    summary_text(is_tty, tool_version, path, stats) + parse_errors_text(is_tty, errors) + if clusters.len() == 0 {
        no_findings_text(is_tty)
    } else {
        table_head_text(is_tty) + table_rows_text(clusters) + table_foot_text() + all_details_text(
            is_tty,
            clusters,
            functions,
            path,
        )
    }
}

fn render_cluster_details(out: &mut String, is_tty: bool, c: &ReportCluster, functions: &Vec<FunctionInfo>, base: &str)
    ensures
        final(out)@ == old(out)@ + cluster_details_text(is_tty, *c, functions@, base@),
{
    let ghost start = out@;
    proof {
        reveal(cluster_details_text);
    }
    let label = classification_label(&c.classification);
    render_cluster_heading(out, is_tty, c.id.as_str(), label, c.similarity_percent.as_str(), c.confidence_percent.as_str());
    render_cluster_members(out, &c.function_indices, functions, base);
    render_cluster_structure(out, is_tty, &c.common_structure, &c.differences);
    render_cluster_signals(out, &c.signals);
    render_cluster_estimates(out, c.duplicated_tokens_estimate, c.potential_reduction_estimate);
    render_cluster_reason(out, is_tty, c.reason.as_str());
    assert(out@ =~= start + cluster_details_text(is_tty, *c, functions@, base@));
}

fn render_table_rows(out: &mut String, clusters: &Vec<ReportCluster>)
    ensures
        final(out)@ == old(out)@ + table_rows_text(clusters@),
{
    let ghost start = out@;
    for i in 0..clusters.len()
        invariant
            out@ == start + table_rows_text(clusters@.take(i as int)),
    {
        let c = &clusters[i];
        let label = classification_label(&c.classification);
        render_table_row(
            out,
            c.id.as_str(),
            label,
            c.function_indices.len(),
            c.similarity_percent.as_str(),
            c.duplicated_tokens_estimate,
            c.value.as_str(),
        );
        proof {
            let next = clusters@.take(i + 1);
            assert(next.drop_last() =~= clusters@.take(i as int));
            assert(next.last() == clusters@[i as int]);
            assert(out@ =~= start + table_rows_text(next));
        }
    }
    assert(clusters@.take(clusters@.len() as int) =~= clusters@);
}

fn render_all_details(out: &mut String, is_tty: bool, clusters: &Vec<ReportCluster>, functions: &Vec<FunctionInfo>, base: &str)
    ensures
        final(out)@ == old(out)@ + all_details_text(is_tty, clusters@, functions@, base@),
{
    let ghost start = out@;
    for i in 0..clusters.len()
        invariant
            out@ == start + all_details_text(is_tty, clusters@.take(i as int), functions@, base@),
    {
        render_cluster_details(out, is_tty, &clusters[i], functions, base);
        proof {
            let next = clusters@.take(i + 1);
            assert(next.drop_last() =~= clusters@.take(i as int));
            assert(next.last() == clusters@[i as int]);
            assert(out@ =~= start + all_details_text(is_tty, next, functions@, base@));
        }
    }
    assert(clusters@.take(clusters@.len() as int) =~= clusters@);
}

/// Builds the whole human-readable report. The tty flag and the figures
/// that are written from floating-point values come from the caller.
pub fn render_report(
    is_tty: bool,
    tool_version: &str,
    path: &str,
    stats: &RepositoryStats,
    errors: &Vec<ParseError>,
    clusters: &Vec<ReportCluster>,
    functions: &Vec<FunctionInfo>,
) -> (r: String)
    ensures
        r@ == report_text(is_tty, tool_version@, path@, *stats, errors@, clusters@, functions@),
{
    let mut out = String::new();
    render_summary(&mut out, is_tty, tool_version, path, stats);
    render_parse_errors(&mut out, is_tty, errors);
    if clusters.len() == 0 {
        render_no_findings(&mut out, is_tty);
    } else {
        render_table_head(&mut out, is_tty);
        render_table_rows(&mut out, clusters);
        render_table_foot(&mut out);
        render_all_details(&mut out, is_tty, clusters, functions, path);
    }
    assert(out@ =~= report_text(is_tty, tool_version@, path@, *stats, errors@, clusters@, functions@));
    out
}

} // verus!
