//! Human-readable report text: number and duration formatting, ANSI
//! styling, and the report's summary, tables and cluster details.
use vstd::prelude::*;
use crate::text::{decimal, digit_char, pad_end, pad_start, push_char, push_decimal, push_padded_end, push_padded_start, push_str};
use crate::types::{location_text, parse_error_text, path_relative_to, FunctionInfo, ParseError, RepositoryStats};

verus! {

// ─── Numbers ─────────────────────────────────────────────────────────────

/// The three decimal digits of `n < 1000`, with leading zeros.
pub open spec fn three_digits(n: nat) -> Seq<char> {
    seq![digit_char((n / 100) as int), digit_char(((n / 10) % 10) as int), digit_char((n % 10) as int)]
}

/// Decimal notation with a comma between each group of three digits,
/// counted from the right: 1234567 → "1,234,567".
pub open spec fn thousands(n: nat) -> Seq<char>
    decreases n,
{
    if n < 1000 {
        decimal(n)
    } else {
        thousands(n / 1000) + ","@ + three_digits(n % 1000)
    }
}

fn push_thousands(out: &mut String, n: u64)
    ensures
        final(out)@ == old(out)@ + thousands(n as nat),
    decreases n,
{
    let ghost start = out@;
    if n < 1000 {
        push_decimal(out, n);
    } else {
        push_thousands(out, n / 1000);
        push_char(out, ',');
        let r = n % 1000;
        let h = (r / 100) as u8;
        let t = ((r / 10) % 10) as u8;
        let u = (r % 10) as u8;
        let ch = (48u8 + h) as char;
        let ct = (48u8 + t) as char;
        let cu = (48u8 + u) as char;
        proof {
            assert(ch == digit_char((r / 100) as int));
            assert(ct == digit_char(((r / 10) % 10) as int));
            assert(cu == digit_char((r % 10) as int));
        }
        push_char(out, ch);
        push_char(out, ct);
        push_char(out, cu);
        proof {
            reveal_strlit(",");
            assert(out@ =~= start + thousands(n as nat));
        }
    }
}

/// `s` without its commas.
pub open spec fn without_commas(s: Seq<char>) -> Seq<char> {
    s.filter(|c: char| c != ',')
}

proof fn lemma_digits_have_no_commas(n: nat)
    ensures
        without_commas(decimal(n)) == decimal(n),
    decreases n,
{
    let keep = |c: char| c != ',';
    if n < 10 {
        reveal_with_fuel(Seq::filter, 2);
        assert(decimal(n).drop_last() =~= Seq::<char>::empty());
    } else {
        lemma_digits_have_no_commas(n / 10);
        decimal(n / 10).lemma_filter_push(digit_char((n % 10) as int), keep);
    }
}

/// The last three digits of a number of at least four digits.
proof fn lemma_decimal_splits_at_thousands(n: nat)
    requires
        n >= 1000,
    ensures
        decimal(n) == decimal(n / 1000) + three_digits(n % 1000),
{
    assert(n / 10 >= 100);
    assert(n / 100 >= 10);
    assert((n / 10) / 10 == n / 100) by (nonlinear_arith) requires n >= 0;
    assert((n / 100) / 10 == n / 1000) by (nonlinear_arith) requires n >= 0;
    assert((n % 1000) / 100 == (n / 100) % 10) by (nonlinear_arith) requires n >= 0;
    assert(((n % 1000) / 10) % 10 == (n / 10) % 10) by (nonlinear_arith) requires n >= 0;
    assert((n % 1000) % 10 == n % 10) by (nonlinear_arith) requires n >= 0;
    assert(decimal(n) == decimal(n / 10).push(digit_char((n % 10) as int)));
    assert(decimal(n / 10) == decimal(n / 100).push(digit_char(((n / 10) % 10) as int)));
    assert(decimal(n / 100) == decimal(n / 1000).push(digit_char(((n / 100) % 10) as int)));
    assert(decimal(n) =~= decimal(n / 1000) + three_digits(n % 1000));
}

/// Grouping only inserts separators: without its commas the grouped form is
/// the plain decimal notation.
pub proof fn lemma_thousands_only_adds_commas(n: nat)
    ensures
        without_commas(thousands(n)) == decimal(n),
    decreases n,
{
    let keep = |c: char| c != ',';
    if n < 1000 {
        lemma_digits_have_no_commas(n);
    } else {
        lemma_thousands_only_adds_commas(n / 1000);
        lemma_decimal_splits_at_thousands(n);
        reveal_strlit(",");
        let head = thousands(n / 1000);
        let tail = three_digits(n % 1000);
        Seq::filter_distributes_over_add(head + ","@, tail, keep);
        Seq::filter_distributes_over_add(head, ","@, keep);
        reveal_with_fuel(Seq::filter, 4);
        assert(","@.filter(keep) =~= Seq::<char>::empty()) by {
            assert(","@ =~= seq![',']);
            assert(seq![','].drop_last() =~= Seq::<char>::empty());
        }
        assert(tail.filter(keep) =~= tail) by {
            assert(tail.drop_last().drop_last().drop_last() =~= Seq::<char>::empty());
            assert(tail.drop_last().drop_last() =~= seq![tail[0]]);
            assert(tail.drop_last() =~= seq![tail[0], tail[1]]);
        }
        assert(thousands(n) == head + ","@ + tail);
        assert(without_commas(thousands(n)) =~= decimal(n / 1000) + tail);
    }
}

/// Format a large number with commas: 12345 → "12,345"
pub fn format_number(n: usize) -> (r: String)
    ensures
        r@ == thousands(n as nat),
{
    let mut out = String::new();
    push_thousands(&mut out, n as u64);
    assert(out@ =~= thousands(n as nat));
    out
}

// ─── Durations ───────────────────────────────────────────────────────────

/// `num / den` rounded to the nearest integer, ties to the even one.
pub open spec fn round_half_even(num: int, den: int) -> int {
    let q = num / den;
    let r = num % den;
    if 2 * r > den || (2 * r == den && q % 2 == 1) {
        q + 1
    } else {
        q
    }
}

/// For `1000 <= ms < 64000`: `2^(52 - e)` where `2^e <= ms / 1000 < 2^(e+1)`,
/// so that a binary64 number of that size is an integer over this scale.
pub open spec fn binary64_scale(ms: int) -> int {
    if ms < 2000 {
        0x10_0000_0000_0000
    } else if ms < 4000 {
        0x8_0000_0000_0000
    } else if ms < 8000 {
        0x4_0000_0000_0000
    } else if ms < 16000 {
        0x2_0000_0000_0000
    } else if ms < 32000 {
        0x1_0000_0000_0000
    } else {
        0x8000_0000_0000
    }
}

/// Seconds in tenths, as `{:.1}` prints `ms as f64 / 1000.0`: the quotient
/// is the binary64 number nearest to `ms / 1000` (ties to even), and that
/// number is then rounded to one decimal, ties to even.
pub open spec fn seconds_in_tenths(ms: int) -> int {
    let scale = binary64_scale(ms);
    let nearest = round_half_even(ms * scale, 1000);
    round_half_even(10 * nearest, scale)
}

/// A duration in milliseconds for people: `500ms`, `1.5s`, `1m 5s`.
pub open spec fn duration_text(ms: nat) -> Seq<char> {
    if ms < 1000 {
        decimal(ms) + "ms"@
    } else if ms < 60000 {
        let t = seconds_in_tenths(ms as int);
        decimal((t / 10) as nat) + "."@ + seq![digit_char(t % 10)] + "s"@
    } else {
        let secs = ms / 1000;
        decimal(secs / 60) + "m "@ + decimal(secs % 60) + "s"@
    }
}

/// `seconds_in_tenths(ms)` computed with exact integer arithmetic.
fn tenths_of_seconds(ms: u64) -> (t: u64)
    requires
        1000 <= ms < 60000,
    ensures
        t == seconds_in_tenths(ms as int),
{
    let scale: u128 = if ms < 2000 {
        0x10_0000_0000_0000
    } else if ms < 4000 {
        0x8_0000_0000_0000
    } else if ms < 8000 {
        0x4_0000_0000_0000
    } else if ms < 16000 {
        0x2_0000_0000_0000
    } else if ms < 32000 {
        0x1_0000_0000_0000
    } else {
        0x8000_0000_0000
    };
    assert(scale == binary64_scale(ms as int));
    let wide = ms as u128;
    assert(wide * scale <= 60000 * 0x10_0000_0000_0000) by (nonlinear_arith)
        requires
            wide < 60000,
            scale <= 0x10_0000_0000_0000,
    ;
    let num = wide * scale;
    let q = num / 1000;
    let rem = num % 1000;
    let nearest = if 2 * rem > 1000 || (2 * rem == 1000 && q % 2 == 1) { q + 1 } else { q };
    assert(nearest == round_half_even(ms * binary64_scale(ms as int), 1000));
    assert(nearest <= 60000 * 0x10_0000_0000_0000);
    let num2 = 10 * nearest;
    let q2 = num2 / scale;
    let rem2 = num2 % scale;
    assert(q2 <= num2) by (nonlinear_arith)
        requires
            scale >= 1,
            q2 == num2 / scale,
            num2 >= 0,
    ;
    let tenths = if 2 * rem2 > scale || (2 * rem2 == scale && q2 % 2 == 1) { q2 + 1 } else { q2 };
    assert(tenths == seconds_in_tenths(ms as int));
    tenths as u64
}

/// Format milliseconds into a human-readable duration.
pub fn format_duration(ms: u64) -> (r: String)
    ensures
        r@ == duration_text(ms as nat),
{
    let mut out = String::new();
    if ms < 1_000 {
        push_decimal(&mut out, ms);
        push_str(&mut out, "ms");
    } else if ms < 60_000 {
        let tenths = tenths_of_seconds(ms);
        push_decimal(&mut out, tenths / 10);
        push_str(&mut out, ".");
        let c = (48u8 + (tenths % 10) as u8) as char;
        assert(c == digit_char(seconds_in_tenths(ms as int) % 10));
        push_char(&mut out, c);
        push_str(&mut out, "s");
        assert(out@ =~= decimal((seconds_in_tenths(ms as int) / 10) as nat) + "."@ + seq![
            digit_char(seconds_in_tenths(ms as int) % 10),
        ] + "s"@);
    } else {
        let secs = ms / 1_000;
        push_decimal(&mut out, secs / 60);
        push_str(&mut out, "m ");
        push_decimal(&mut out, secs % 60);
        push_str(&mut out, "s");
    }
    assert(out@ =~= duration_text(ms as nat));
    out
}

// ─── Styling ─────────────────────────────────────────────────────────────

/// `text`, wrapped in an ANSI style and its reset when writing to a terminal.
pub open spec fn styled(is_tty: bool, ansi_code: Seq<char>, text: Seq<char>) -> Seq<char> {
    if is_tty {
        ansi_code + text + "\x1b[0m"@
    } else {
        text
    }
}

/// Write with ANSI styling if connected to a TTY.
pub fn write_styled(out: &mut String, is_tty: bool, ansi_code: &str, text: &str)
    ensures
        final(out)@ == old(out)@ + styled(is_tty, ansi_code@, text@),
{
    if is_tty {
        push_str(out, ansi_code);
        push_str(out, text);
        push_str(out, "\x1b[0m");
    } else {
        push_str(out, text);
    }
    assert(final(out)@ =~= old(out)@ + styled(is_tty, ansi_code@, text@));
}

/// The items separated by `sep`.
pub open spec fn joined(items: Seq<Seq<char>>, sep: Seq<char>) -> Seq<char>
    decreases items.len(),
{
    if items.len() == 0 {
        Seq::empty()
    } else if items.len() == 1 {
        items[0]
    } else {
        joined(items.drop_last(), sep) + sep + items.last()
    }
}

pub open spec fn texts_of(v: Seq<String>) -> Seq<Seq<char>> {
    v.map_values(|s: String| s@)
}

/// Appends the items separated by `sep`.
pub fn push_joined(out: &mut String, items: &Vec<String>, sep: &str)
    ensures
        final(out)@ == old(out)@ + joined(texts_of(items@), sep@),
{
    let ghost start = out@;
    let ghost all = texts_of(items@);
    for i in 0..items.len()
        invariant
            all == texts_of(items@),
            out@ == start + joined(all.take(i as int), sep@),
    {
        if i > 0 {
            push_str(out, sep);
        }
        push_str(out, items[i].as_str());
        proof {
            let next = all.take(i + 1);
            assert(next.drop_last() =~= all.take(i as int));
            assert(next.last() == items@[i as int]@);
            if i == 0 {
                assert(all.take(0) =~= Seq::<Seq<char>>::empty());
                assert(joined(next, sep@) == next[0]);
            }
            assert(out@ =~= start + joined(next, sep@));
        }
    }
    assert(all.take(all.len() as int) =~= all);
}

// ─── Report sections ─────────────────────────────────────────────────────

/// The report's title line.
pub open spec fn header_text(is_tty: bool, tool_version: Seq<char>) -> Seq<char> {
    "\n"@ + styled(is_tty, "\x1b[1;36m"@, "  ⛏  Dowsing Rod"@) + styled(is_tty, "\x1b[0;90m"@, "  v"@ + tool_version)
        + "\n\n"@
}

/// The repository summary block.
pub open spec fn stats_text(is_tty: bool, path: Seq<char>, stats: RepositoryStats) -> Seq<char> {
    stats_top_text(is_tty, path, stats) + stats_bottom_text(stats)
}

/// The summary's title and its lines up to the source tokens.
pub open spec fn stats_top_text(is_tty: bool, path: Seq<char>, stats: RepositoryStats) -> Seq<char> {
    styled(is_tty, "\x1b[1m"@, "  Repository Summary"@) + "\n"@
        + "  ├── Path:            "@ + path + "\n"@
        + "  ├── Files scanned:   "@ + decimal(stats.files_scanned as nat) + "\n"@
        + "  ├── Functions found: "@ + decimal(stats.functions_found as nat) + "\n"@
        + "  ├── Source tokens:    ~"@ + thousands(stats.estimated_source_tokens as nat) + "\n"@
}

/// The summary's lines from the candidate pairs to the scan time, and the
/// blank line after them.
pub open spec fn stats_bottom_text(stats: RepositoryStats) -> Seq<char> {
    "  ├── Candidate pairs: "@ + decimal(stats.candidate_pairs_generated as nat) + "\n"@
        + "  ├── Clusters found:  "@ + decimal(stats.clusters_found as nat) + "\n"@
        + "  ├── High value:      "@ + decimal(stats.high_value_clusters as nat) + "\n"@
        + "  └── Scan time:       "@ + duration_text(stats.scan_duration_ms as nat) + "\n"@ + "\n"@
}

/// The cache line, present when the cache was consulted.
pub open spec fn cache_text(stats: RepositoryStats) -> Seq<char> {
    if stats.cache_hits > 0 || stats.cache_misses > 0 {
        "  Cache: "@ + decimal(stats.cache_hits as nat) + " hits, "@ + decimal(stats.cache_misses as nat) + " misses\n"@ + "\n"@
    } else {
        Seq::empty()
    }
}

/// The report's header and repository summary, with the cache line when the
/// cache was used.
pub open spec fn summary_text(is_tty: bool, tool_version: Seq<char>, path: Seq<char>, stats: RepositoryStats) -> Seq<char> {
    header_text(is_tty, tool_version) + stats_text(is_tty, path, stats) + cache_text(stats)
}

/// `s` ends with `suffix`.
pub open spec fn ends_with(s: Seq<char>, suffix: Seq<char>) -> bool {
    suffix.len() <= s.len() && s.subrange(s.len() - suffix.len(), s.len() as int) == suffix
}

proof fn lemma_ends_with_concat(a: Seq<char>, b: Seq<char>)
    ensures
        ends_with(a + b, b),
{
    assert((a + b).subrange(a.len() as int, (a + b).len() as int) =~= b);
}

/// The summary ends with the cache line exactly when the cache was
/// consulted (a hit or a miss was counted), and with the scan time
/// otherwise.
pub proof fn lemma_summary_shows_cache_use(is_tty: bool, tool_version: Seq<char>, path: Seq<char>, stats: RepositoryStats)
    ensures
        stats.cache_hits > 0 || stats.cache_misses > 0 ==> ends_with(
            summary_text(is_tty, tool_version, path, stats),
            "  Cache: "@ + decimal(stats.cache_hits as nat) + " hits, "@ + decimal(stats.cache_misses as nat) + " misses\n"@
                + "\n"@,
        ),
        stats.cache_hits == 0 && stats.cache_misses == 0 ==> ends_with(
            summary_text(is_tty, tool_version, path, stats),
            "  └── Scan time:       "@ + duration_text(stats.scan_duration_ms as nat) + "\n"@ + "\n"@,
        ),
{
    let head = header_text(is_tty, tool_version) + stats_text(is_tty, path, stats);
    let cache = cache_text(stats);
    assert(summary_text(is_tty, tool_version, path, stats) == head + cache);
    if stats.cache_hits > 0 || stats.cache_misses > 0 {
        lemma_ends_with_concat(head, cache);
    } else {
        let tail = "  └── Scan time:       "@ + duration_text(stats.scan_duration_ms as nat) + "\n"@ + "\n"@;
        let mid = "  ├── Candidate pairs: "@ + decimal(stats.candidate_pairs_generated as nat) + "\n"@
            + "  ├── Clusters found:  "@ + decimal(stats.clusters_found as nat) + "\n"@ + "  ├── High value:      "@
            + decimal(stats.high_value_clusters as nat) + "\n"@;
        assert(stats_bottom_text(stats) =~= mid + tail);
        assert(cache =~= Seq::<char>::empty());
        let front = header_text(is_tty, tool_version) + stats_top_text(is_tty, path, stats) + mid;
        assert(head + cache =~= front + tail);
        lemma_ends_with_concat(front, tail);
    }
}

fn push_line_number(out: &mut String, label: &str, n: usize)
    ensures
        final(out)@ == old(out)@ + label@ + decimal(n as nat) + "\n"@,
{
    push_str(out, label);
    push_decimal(out, n as u64);
    push_str(out, "\n");
    assert(final(out)@ =~= old(out)@ + label@ + decimal(n as nat) + "\n"@);
}

fn render_header(out: &mut String, is_tty: bool, tool_version: &str)
    ensures
        final(out)@ == old(out)@ + header_text(is_tty, tool_version@),
{
    push_str(out, "\n");
    write_styled(out, is_tty, "\x1b[1;36m", "  ⛏  Dowsing Rod");
    let mut version = "  v".to_owned();
    push_str(&mut version, tool_version);
    write_styled(out, is_tty, "\x1b[0;90m", version.as_str());
    push_str(out, "\n\n");
    assert(final(out)@ =~= old(out)@ + header_text(is_tty, tool_version@));
}

fn render_stats_top(out: &mut String, is_tty: bool, path: &str, stats: &RepositoryStats)
    ensures
        final(out)@ == old(out)@ + stats_top_text(is_tty, path@, *stats),
{
    write_styled(out, is_tty, "\x1b[1m", "  Repository Summary");
    push_str(out, "\n");
    push_str(out, "  ├── Path:            ");
    push_str(out, path);
    push_str(out, "\n");
    push_line_number(out, "  ├── Files scanned:   ", stats.files_scanned);
    push_line_number(out, "  ├── Functions found: ", stats.functions_found);
    push_str(out, "  ├── Source tokens:    ~");
    let tokens = format_number(stats.estimated_source_tokens);
    push_str(out, tokens.as_str());
    push_str(out, "\n");
    assert(final(out)@ =~= old(out)@ + stats_top_text(is_tty, path@, *stats));
}

fn render_stats_bottom(out: &mut String, stats: &RepositoryStats)
    ensures
        final(out)@ == old(out)@ + stats_bottom_text(*stats),
{
    push_line_number(out, "  ├── Candidate pairs: ", stats.candidate_pairs_generated);
    push_line_number(out, "  ├── Clusters found:  ", stats.clusters_found);
    push_line_number(out, "  ├── High value:      ", stats.high_value_clusters);
    push_str(out, "  └── Scan time:       ");
    let duration = format_duration(stats.scan_duration_ms);
    push_str(out, duration.as_str());
    push_str(out, "\n");
    push_str(out, "\n");
    assert(final(out)@ =~= old(out)@ + stats_bottom_text(*stats));
}

fn render_stats(out: &mut String, is_tty: bool, path: &str, stats: &RepositoryStats)
    ensures
        final(out)@ == old(out)@ + stats_text(is_tty, path@, *stats),
{
    let ghost start = out@;
    render_stats_top(out, is_tty, path, stats);
    render_stats_bottom(out, stats);
    assert(out@ =~= start + stats_text(is_tty, path@, *stats));
}

fn render_cache(out: &mut String, stats: &RepositoryStats)
    ensures
        final(out)@ == old(out)@ + cache_text(*stats),
{
    if stats.cache_hits > 0 || stats.cache_misses > 0 {
        push_str(out, "  Cache: ");
        push_decimal(out, stats.cache_hits as u64);
        push_str(out, " hits, ");
        push_decimal(out, stats.cache_misses as u64);
        push_str(out, " misses\n");
        push_str(out, "\n");
    }
    assert(final(out)@ =~= old(out)@ + cache_text(*stats));
}

/// Writes the report's header and repository summary.
pub fn render_summary(out: &mut String, is_tty: bool, tool_version: &str, path: &str, stats: &RepositoryStats)
    ensures
        final(out)@ == old(out)@ + summary_text(is_tty, tool_version@, path@, *stats),
{
    let ghost start = out@;
    render_header(out, is_tty, tool_version);
    render_stats(out, is_tty, path, stats);
    render_cache(out, stats);
    assert(out@ =~= start + summary_text(is_tty, tool_version@, path@, *stats));
}

/// One line per parse error, indented.
pub open spec fn error_lines(errors: Seq<ParseError>) -> Seq<char>
    decreases errors.len(),
{
    if errors.len() == 0 {
        Seq::empty()
    } else {
        let e = errors.last();
        error_lines(errors.drop_last()) + "    "@ + parse_error_text(e.file@, e.line, e.column, e.message@) + "\n"@
    }
}

/// The parse errors section, absent when there were none.
pub open spec fn parse_errors_text(is_tty: bool, errors: Seq<ParseError>) -> Seq<char> {
    if errors.len() == 0 {
        Seq::empty()
    } else {
        styled(is_tty, "\x1b[1;33m"@, "  ⚠ Parse Errors"@) + "\n"@ + error_lines(errors) + "\n"@
    }
}

/// Writes the parse errors section.
pub fn render_parse_errors(out: &mut String, is_tty: bool, errors: &Vec<ParseError>)
    ensures
        final(out)@ == old(out)@ + parse_errors_text(is_tty, errors@),
{
    if errors.len() == 0 {
        assert(final(out)@ =~= old(out)@ + parse_errors_text(is_tty, errors@));
        return;
    }
    let ghost start = out@;
    write_styled(out, is_tty, "\x1b[1;33m", "  ⚠ Parse Errors");
    push_str(out, "\n");
    let ghost lines_start = out@;
    for i in 0..errors.len()
        invariant
            out@ == lines_start + error_lines(errors@.take(i as int)),
    {
        push_str(out, "    ");
        let text = errors[i].describe();
        push_str(out, text.as_str());
        push_str(out, "\n");
        proof {
            let next = errors@.take(i + 1);
            assert(next.drop_last() =~= errors@.take(i as int));
            assert(next.last() == errors@[i as int]);
            assert(out@ =~= lines_start + error_lines(next));
        }
    }
    push_str(out, "\n");
    proof {
        assert(errors@.take(errors@.len() as int) =~= errors@);
        assert(out@ =~= start + parse_errors_text(is_tty, errors@));
    }
}

/// What the report says when nothing was found.
pub open spec fn no_findings_text(is_tty: bool) -> Seq<char> {
    styled(is_tty, "\x1b[0;32m"@, "  ✓ No structural matches found above the similarity threshold."@) + "\n"@ + "\n"@
}

/// Writes the line that says that nothing was found.
pub fn render_no_findings(out: &mut String, is_tty: bool)
    ensures
        final(out)@ == old(out)@ + no_findings_text(is_tty),
{
    write_styled(out, is_tty, "\x1b[0;32m", "  ✓ No structural matches found above the similarity threshold.");
    push_str(out, "\n");
    push_str(out, "\n");
    assert(final(out)@ =~= old(out)@ + no_findings_text(is_tty));
}

/// The title and head of the findings table.
pub open spec fn table_head_text(is_tty: bool) -> Seq<char> {
    styled(is_tty, "\x1b[1m"@, "  Structural Findings"@) + "\n"@ + "\n"@
        + "  ┌──────┬──────────────────────────────┬───────┬─────────┬──────────┬────────────┐\n"@
        + "  │  ID  │ Classification               │ Funcs │ Sim (%) │ Dup Tok  │ Value      │\n"@
        + "  ├──────┼──────────────────────────────┼───────┼─────────┼──────────┼────────────┤\n"@
}

/// Writes the title and head of the findings table.
pub fn render_table_head(out: &mut String, is_tty: bool)
    ensures
        final(out)@ == old(out)@ + table_head_text(is_tty),
{
    write_styled(out, is_tty, "\x1b[1m", "  Structural Findings");
    push_str(out, "\n");
    push_str(out, "\n");
    push_str(out, "  ┌──────┬──────────────────────────────┬───────┬─────────┬──────────┬────────────┐\n");
    push_str(out, "  │  ID  │ Classification               │ Funcs │ Sim (%) │ Dup Tok  │ Value      │\n");
    push_str(out, "  ├──────┼──────────────────────────────┼───────┼─────────┼──────────┼────────────┤\n");
    assert(final(out)@ =~= old(out)@ + table_head_text(is_tty));
}

/// One row of the findings table; the similarity and value columns arrive
/// already written as numbers.
pub open spec fn table_row_text(
    id: Seq<char>,
    label: Seq<char>,
    member_count: nat,
    similarity_percent: Seq<char>,
    duplicated_tokens: nat,
    value: Seq<char>,
) -> Seq<char> {
    "  │ "@ + pad_end(id, 4) + " │ "@ + pad_end(label, 28) + " │ "@ + pad_start(decimal(member_count), 5) + " │ "@
        + pad_start(similarity_percent, 7) + " │ "@ + pad_start(thousands(duplicated_tokens), 8) + " │ "@
        + pad_start(value, 10) + " │\n"@
}

/// Writes one row of the findings table.
pub fn render_table_row(
    out: &mut String,
    id: &str,
    label: &str,
    member_count: usize,
    similarity_percent: &str,
    duplicated_tokens: usize,
    value: &str,
)
    ensures
        final(out)@ == old(out)@ + table_row_text(
            id@,
            label@,
            member_count as nat,
            similarity_percent@,
            duplicated_tokens as nat,
            value@,
        ),
{
    push_str(out, "  │ ");
    push_padded_end(out, id, 4);
    push_str(out, " │ ");
    push_padded_end(out, label, 28);
    push_str(out, " │ ");
    let count = crate::text::decimal_string(member_count as u64);
    push_padded_start(out, count.as_str(), 5);
    push_str(out, " │ ");
    push_padded_start(out, similarity_percent, 7);
    push_str(out, " │ ");
    let tokens = format_number(duplicated_tokens);
    push_padded_start(out, tokens.as_str(), 8);
    push_str(out, " │ ");
    push_padded_start(out, value, 10);
    push_str(out, " │\n");
    assert(final(out)@ =~= old(out)@ + table_row_text(
        id@,
        label@,
        member_count as nat,
        similarity_percent@,
        duplicated_tokens as nat,
        value@,
    ));
}

/// The bottom of the findings table and the blank line after it.
pub open spec fn table_foot_text() -> Seq<char> {
    "  └──────┴──────────────────────────────┴───────┴─────────┴──────────┴────────────┘\n"@ + "\n"@
}

/// Writes the bottom of the findings table.
pub fn render_table_foot(out: &mut String)
    ensures
        final(out)@ == old(out)@ + table_foot_text(),
{
    push_str(out, "  └──────┴──────────────────────────────┴───────┴─────────┴──────────┴────────────┘\n");
    push_str(out, "\n");
    assert(final(out)@ =~= old(out)@ + table_foot_text());
}

/// The heading of a cluster's details; the percentages arrive already
/// written as numbers.
pub open spec fn cluster_heading_text(
    is_tty: bool,
    id: Seq<char>,
    label: Seq<char>,
    similarity_percent: Seq<char>,
    confidence_percent: Seq<char>,
) -> Seq<char> {
    styled(is_tty, "\x1b[1;35m"@, "  ── "@ + id + " ── "@ + label)
        + styled(is_tty, "\x1b[0;90m"@, "  (similarity "@ + similarity_percent + "%, confidence "@ + confidence_percent + "%)"@)
        + "\n"@
}

/// Writes the heading of a cluster's details.
pub fn render_cluster_heading(
    out: &mut String,
    is_tty: bool,
    id: &str,
    label: &str,
    similarity_percent: &str,
    confidence_percent: &str,
)
    ensures
        final(out)@ == old(out)@ + cluster_heading_text(is_tty, id@, label@, similarity_percent@, confidence_percent@),
{
    let mut title = "  ── ".to_owned();
    push_str(&mut title, id);
    push_str(&mut title, " ── ");
    push_str(&mut title, label);
    write_styled(out, is_tty, "\x1b[1;35m", title.as_str());
    let mut figures = "  (similarity ".to_owned();
    push_str(&mut figures, similarity_percent);
    push_str(&mut figures, "%, confidence ");
    push_str(&mut figures, confidence_percent);
    push_str(&mut figures, "%)");
    write_styled(out, is_tty, "\x1b[0;90m", figures.as_str());
    push_str(out, "\n");
    assert(final(out)@ =~= old(out)@ + cluster_heading_text(is_tty, id@, label@, similarity_percent@, confidence_percent@));
}

/// One line per member that names a known function, with its location
/// relative to `base`.
pub open spec fn member_lines(indices: Seq<usize>, functions: Seq<FunctionInfo>, base: Seq<char>) -> Seq<char>
    decreases indices.len(),
{
    if indices.len() == 0 {
        Seq::empty()
    } else {
        let idx = indices.last();
        member_lines(indices.drop_last(), functions, base) + if idx < functions.len() {
            let f = functions[idx as int];
            "    • "@ + location_text(
                match path_relative_to(f.file@, base) {
                    Some(rel) => rel,
                    None => f.file@,
                },
                f.function_name@,
                f.start_line as nat,
                f.end_line as nat,
            ) + "\n"@
        } else {
            Seq::empty()
        }
    }
}

/// Writes the members of a cluster.
pub fn render_cluster_members(out: &mut String, indices: &Vec<usize>, functions: &Vec<FunctionInfo>, base: &str)
    ensures
        final(out)@ == old(out)@ + member_lines(indices@, functions@, base@),
{
    let ghost start = out@;
    for i in 0..indices.len()
        invariant
            out@ == start + member_lines(indices@.take(i as int), functions@, base@),
    {
        let idx = indices[i];
        if idx < functions.len() {
            push_str(out, "    • ");
            let location = functions[idx].display_location(base);
            push_str(out, location.as_str());
            push_str(out, "\n");
        }
        proof {
            let next = indices@.take(i + 1);
            assert(next.drop_last() =~= indices@.take(i as int));
            assert(next.last() == idx);
            assert(out@ =~= start + member_lines(next, functions@, base@));
        }
    }
    assert(indices@.take(indices@.len() as int) =~= indices@);
}

/// The common pipeline and the differences of a cluster, each when present.
pub open spec fn structure_text(is_tty: bool, common: Seq<Seq<char>>, differences: Seq<Seq<char>>) -> Seq<char> {
    (if common.len() > 0 {
        "\n"@ + styled(is_tty, "\x1b[0;36m"@, "    Common pipeline: "@) + joined(common, " → "@) + "\n"@
    } else {
        Seq::empty()
    }) + if differences.len() > 0 {
        styled(is_tty, "\x1b[0;33m"@, "    Differences: "@) + joined(differences, ", "@) + "\n"@
    } else {
        Seq::empty()
    }
}

/// Writes the common pipeline and the differences of a cluster.
pub fn render_cluster_structure(out: &mut String, is_tty: bool, common: &Vec<String>, differences: &Vec<String>)
    ensures
        final(out)@ == old(out)@ + structure_text(is_tty, texts_of(common@), texts_of(differences@)),
{
    let ghost start = out@;
    if common.len() > 0 {
        push_str(out, "\n");
        write_styled(out, is_tty, "\x1b[0;36m", "    Common pipeline: ");
        push_joined(out, common, " → ");
        push_str(out, "\n");
    }
    if differences.len() > 0 {
        write_styled(out, is_tty, "\x1b[0;33m", "    Differences: ");
        push_joined(out, differences, ", ");
        push_str(out, "\n");
    }
    assert(out@ =~= start + structure_text(is_tty, texts_of(common@), texts_of(differences@)));
}

/// The estimates line of a cluster.
pub open spec fn estimates_text(duplicated_tokens: nat, potential_reduction: nat) -> Seq<char> {
    "    Duplicated tokens: ~"@ + thousands(duplicated_tokens) + "  |  Potential reduction: ~"@ + thousands(potential_reduction)
        + "\n"@
}

/// Writes the estimates line of a cluster.
pub fn render_cluster_estimates(out: &mut String, duplicated_tokens: usize, potential_reduction: usize)
    ensures
        final(out)@ == old(out)@ + estimates_text(duplicated_tokens as nat, potential_reduction as nat),
{
    push_str(out, "    Duplicated tokens: ~");
    let a = format_number(duplicated_tokens);
    push_str(out, a.as_str());
    push_str(out, "  |  Potential reduction: ~");
    let b = format_number(potential_reduction);
    push_str(out, b.as_str());
    push_str(out, "\n");
    assert(final(out)@ =~= old(out)@ + estimates_text(duplicated_tokens as nat, potential_reduction as nat));
}

/// The reason given for a cluster, after a blank line, and the blank line
/// that closes the cluster's details.
pub open spec fn reason_text(is_tty: bool, reason: Seq<char>) -> Seq<char> {
    "\n"@ + styled(is_tty, "\x1b[0;90m"@, "    "@ + reason) + "\n"@ + "\n"@
}

/// Writes the reason given for a cluster.
pub fn render_cluster_reason(out: &mut String, is_tty: bool, reason: &str)
    ensures
        final(out)@ == old(out)@ + reason_text(is_tty, reason@),
{
    push_str(out, "\n");
    let mut text = "    ".to_owned();
    push_str(&mut text, reason);
    write_styled(out, is_tty, "\x1b[0;90m", text.as_str());
    push_str(out, "\n");
    push_str(out, "\n");
    assert(final(out)@ =~= old(out)@ + reason_text(is_tty, reason@));
}

} // verus!
