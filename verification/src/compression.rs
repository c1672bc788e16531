//! Synaptic sensory gating: semantic compression of terminal output for AI
//! coding agents.
//!
//! Repetitive log noise (passing tests, progress lines) is collapsed while
//! failures, errors, panics and summary diagnostics are kept verbatim. The
//! raw log is spooled on disk by the application so nothing is lost; this
//! module holds the pure part: classification of the stream, the per-line
//! filters, token estimates, spool ids and the spool-log queries.

use vstd::prelude::*;
use vstd::string::StringSliceAdditionalSpecFns;

use crate::text::{
    append_chars, append_str, chars_of, equals_str, hex, join_path, lowercase, path_join, push_hex,
    to_lowercase, contains_chars, contains_str, decimal, ends_with, ends_with_str, has_sub,
    join, join_chars, lemma_blank_text_blank_lines, lemma_deep_view_chars, lemma_deep_view_push, lemma_join_push, lines,
    occurs_at, push_decimal, slice_chars, split_lines, starts_with, starts_with_str, string_of, trim,
    trim_chars,
};

verus! {

// ── levels and stream kinds ─────────────────────────────────────────────

/// Compression aggressiveness levels
#[derive(Debug, Clone, Copy, PartialEq, Eq, Structural)]
pub enum CompressionLevel {
    /// Preserves warnings, failures, summaries, and key structural milestones (default)
    Balanced,
    /// Strips warnings, preserves only failures, errors, panic traces, and final summary
    Aggressive,
    /// Zero-noise mode: emits output only if the run failed (some line
    /// reports an error, a failure or a panic), and then keeps warnings only
    /// when they mention an error
    StrictErrorsOnly,
}

impl Default for CompressionLevel {
    fn default() -> (level: Self)
        ensures
            level == CompressionLevel::Balanced,
    {
        CompressionLevel::Balanced
    }
}

/// Detected output dialect format
#[derive(Debug, Clone, Copy, PartialEq, Eq, Structural)]
pub enum StreamKind {
    CargoTest,
    Vitest,
    Pytest,
    CompilerOrBuild,
    Generic,
}

/// The stream kind that `detect_stream_kind` assigns to `s`: the first
/// dialect, in the order cargo test, vitest, pytest, compiler/build, whose
/// markers occur in the text.
pub open spec fn stream_kind_of(s: Seq<char>) -> StreamKind {
    if has_sub(s, "test result:"@) || (has_sub(s, "test "@) && (has_sub(s, "... ok"@) || has_sub(
        s,
        "... FAILED"@,
    ))) || (has_sub(s, "running "@) && has_sub(s, "test"@)) {
        StreamKind::CargoTest
    } else if has_sub(s, "RUN  v"@) || has_sub(s, "\u{2713} "@) || has_sub(s, "Test Files  "@)
        || has_sub(s, "Tests  "@) {
        StreamKind::Vitest
    } else if has_sub(s, "=== test session starts ==="@) || has_sub(s, "rootdir:"@) || has_sub(
        s,
        "=== FAILURES ==="@,
    ) {
        StreamKind::Pytest
    } else if has_sub(s, "Compiling "@) || has_sub(s, "Finished `"@) || has_sub(s, "tsc"@)
        || has_sub(s, "Building "@) {
        StreamKind::CompilerOrBuild
    } else {
        StreamKind::Generic
    }
}

fn detect_kind_chars(s: &Vec<char>) -> (k: StreamKind)
    ensures
        k == stream_kind_of(s@),
{
    if contains_str(s, "test result:") || (contains_str(s, "test ") && (contains_str(s, "... ok")
        || contains_str(s, "... FAILED"))) || (contains_str(s, "running ") && contains_str(
        s,
        "test",
    )) {
        StreamKind::CargoTest
    } else if contains_str(s, "RUN  v") || contains_str(s, "\u{2713} ") || contains_str(
        s,
        "Test Files  ",
    ) || contains_str(s, "Tests  ") {
        StreamKind::Vitest
    } else if contains_str(s, "=== test session starts ===") || contains_str(s, "rootdir:")
        || contains_str(s, "=== FAILURES ===") {
        StreamKind::Pytest
    } else if contains_str(s, "Compiling ") || contains_str(s, "Finished `") || contains_str(
        s,
        "tsc",
    ) || contains_str(s, "Building ") {
        StreamKind::CompilerOrBuild
    } else {
        StreamKind::Generic
    }
}

/// Detects the stream format from output content patterns
pub fn detect_stream_kind(output: &str) -> (k: StreamKind)
    ensures
        k == stream_kind_of(output@),
{
    let s = chars_of(output);
    detect_kind_chars(&s)
}

/// Dialect precedence: output that holds the cargo marker `test result:`
/// is a cargo test stream whatever other markers it holds (an ordinary
/// `cargo test` run also prints `Compiling` and `Finished` lines); vitest
/// markers win over pytest and build markers, pytest markers over build
/// markers, and build markers over the generic filter.
pub proof fn lemma_stream_kind_precedence(s: Seq<char>)
    ensures
        has_sub(s, "test result:"@) ==> stream_kind_of(s) == StreamKind::CargoTest,
        has_sub(s, "RUN  v"@) || has_sub(s, "Test Files  "@) ==> stream_kind_of(s)
            == StreamKind::CargoTest || stream_kind_of(s) == StreamKind::Vitest,
        has_sub(s, "=== test session starts ==="@) || has_sub(s, "=== FAILURES ==="@)
            ==> stream_kind_of(s) != StreamKind::CompilerOrBuild && stream_kind_of(s)
            != StreamKind::Generic,
        has_sub(s, "Compiling "@) || has_sub(s, "Finished `"@) ==> stream_kind_of(s)
            != StreamKind::Generic,
{
}

// ── token estimate ──────────────────────────────────────────────────────

/// About four characters per token, rounded up.
pub open spec fn token_estimate(chars: nat) -> nat {
    (chars + 3) / 4
}

fn tokens_of_count(n: usize) -> (t: usize)
    ensures
        t == token_estimate(n as nat),
{
    n / 4 + if n % 4 != 0 {
        1
    } else {
        0
    }
}

/// Approximate token count estimation (industry standard heuristic: ~4 chars per token)
pub fn estimate_tokens(text: &str) -> (t: usize)
    ensures
        t == token_estimate(text@.len()),
{
    let n = text.unicode_len();
    tokens_of_count(n)
}

/// The whole-percent reduction from `raw` to `compressed` tokens, rounded
/// down; 0 when nothing was saved.
pub open spec fn reduction_percent(raw: nat, compressed: nat) -> nat {
    if raw > 0 && raw > compressed {
        ((100 * (raw - compressed)) as int / raw as int) as nat
    } else {
        0
    }
}

fn reduction_of(raw: usize, compressed: usize) -> (p: u32)
    ensures
        p as nat == reduction_percent(raw as nat, compressed as nat),
        p <= 100,
{
    if raw > 0 && raw > compressed {
        let saved = (raw - compressed) as u128;
        let pct = (100 * saved) / (raw as u128);
        assert(pct <= 100 && pct == (100 * (raw - compressed)) as int / raw as int) by (nonlinear_arith)
            requires
                saved == raw - compressed,
                compressed < raw,
                pct as int == (100 * saved) as int / raw as int,
        ;
        pct as u32
    } else {
        0
    }
}

// ── the line filters ────────────────────────────────────────────────────

/// The state of a line filter after some prefix of the lines: a counter of
/// collapsed lines, two block flags, and the lines kept so far.
pub struct Scan {
    pub count: nat,
    pub open: bool,
    pub summary: bool,
    pub kept: Seq<Seq<char>>,
}

pub open spec fn scan_start() -> Scan {
    Scan { count: 0, open: false, summary: false, kept: seq![] }
}

pub open spec fn keep(st: Scan, line: Seq<char>) -> Scan {
    Scan { count: st.count, open: st.open, summary: st.summary, kept: st.kept.push(line) }
}

/// The note that replaces a run of passing cargo tests.
pub open spec fn tests_passed_note(n: nat) -> Seq<char> {
    "  \u{2714} "@ + decimal(n) + " tests passed (collapsed by SYNAPSE)"@
}

/// The note that replaces a run of passing vitest files.
pub open spec fn unit_tests_passed_note(n: nat) -> Seq<char> {
    "  \u{2714} "@ + decimal(n) + " unit tests passed (collapsed by SYNAPSE)"@
}

/// The note that replaces a run of progress lines.
pub open spec fn progress_note(n: nat) -> Seq<char> {
    "  [... "@ + decimal(n) + " progress lines collapsed ...]"@
}

/// The note that stands between head and tail when nothing else was kept.
pub open spec fn intermediate_note() -> Seq<char> {
    "  [... intermediate output collapsed by SYNAPSE ...]"@
}

/// A line that mentions an error.
pub open spec fn mentions_error(t: Seq<char>) -> bool {
    has_sub(t, "error"@) || has_sub(t, "Error"@)
}

/// A line (given trimmed) that shows the run failed: it mentions an error,
/// a failure, a fatal condition or a panic, or marks a failed vitest case.
pub open spec fn failure_line(t: Seq<char>) -> bool {
    mentions_error(t) || has_sub(t, "ERROR"@) || has_sub(t, "fatal"@) || has_sub(t, "FAIL"@)
        || has_sub(t, "panic"@) || starts_with(t, "\u{d7} "@)
}

/// The run failed: some line of its output is a failure line.
pub open spec fn run_failed(input: Seq<char>) -> bool {
    exists|i: int| 0 <= i < lines(input).len() && failure_line(trim(#[trigger] lines(input)[i]))
}

pub open spec fn is_strict(level: CompressionLevel) -> bool {
    level == CompressionLevel::StrictErrorsOnly
}

/// One line of a cargo test stream.
pub open spec fn cargo_step(st: Scan, line: Seq<char>, level: CompressionLevel) -> Scan {
    let t = trim(line);
    if starts_with(t, "test "@) && ends_with(t, "... ok"@) {
        Scan { count: st.count + 1, open: st.open, summary: st.summary, kept: st.kept }
    } else if starts_with(t, "test "@) && ends_with(t, "... FAILED"@) {
        keep(st, line)
    } else if starts_with(t, "failures:"@) || starts_with(t, "---- "@) {
        Scan { count: st.count, open: true, summary: st.summary, kept: st.kept.push(line) }
    } else if starts_with(t, "test result:"@) {
        let kept = if st.count > 0 {
            st.kept.push(tests_passed_note(st.count))
        } else {
            st.kept
        };
        Scan { count: 0, open: false, summary: true, kept: kept.push(line) }
    } else if st.open || st.summary || mentions_error(t) {
        keep(st, line)
    } else if has_sub(t, "warning:"@) && !is_strict(level) {
        keep(st, line)
    } else {
        st
    }
}

/// One line of a vitest stream.
pub open spec fn vitest_step(st: Scan, line: Seq<char>, level: CompressionLevel) -> Scan {
    let t = trim(line);
    if starts_with(t, "\u{2713} "@) {
        Scan { count: st.count + 1, open: st.open, summary: st.summary, kept: st.kept }
    } else if starts_with(t, "\u{d7} "@) || starts_with(t, "FAIL "@) || starts_with(
        t,
        "AssertionError:"@,
    ) {
        Scan { count: st.count, open: true, summary: st.summary, kept: st.kept.push(line) }
    } else if starts_with(t, "Test Files"@) || starts_with(t, "Tests "@) || starts_with(
        t,
        "Duration "@,
    ) {
        let kept = if st.count > 0 {
            st.kept.push(unit_tests_passed_note(st.count))
        } else {
            st.kept
        };
        Scan { count: 0, open: false, summary: st.summary, kept: kept.push(line) }
    } else if st.open || mentions_error(t) {
        keep(st, line)
    } else if has_sub(t, "warn "@) && !is_strict(level) {
        keep(st, line)
    } else {
        st
    }
}

/// One line of a pytest stream.
pub open spec fn pytest_step(st: Scan, line: Seq<char>) -> Scan {
    let t = trim(line);
    if starts_with(t, "=== FAILURES ==="@) {
        Scan { count: st.count, open: true, summary: st.summary, kept: st.kept.push(line) }
    } else if starts_with(t, "=== "@) && ends_with(t, " ==="@) {
        Scan { count: st.count, open: false, summary: st.summary, kept: st.kept.push(line) }
    } else if st.open || has_sub(t, "FAILED "@) || has_sub(t, "ERROR "@) || mentions_error(t) {
        keep(st, line)
    } else {
        st
    }
}

/// A line that a compiler/build or generic stream never collapses.
pub open spec fn is_critical(t: Seq<char>, level: CompressionLevel) -> bool {
    ||| has_sub(t, "error"@)
    ||| has_sub(t, "Error"@)
    ||| has_sub(t, "fatal"@)
    ||| has_sub(t, "FAILED"@)
    ||| has_sub(t, "panic"@)
    ||| (has_sub(t, "warning"@) && level == CompressionLevel::Balanced)
    ||| starts_with(t, "Finished"@)
    ||| starts_with(t, "Done in"@)
    ||| starts_with(t, "Built in"@)
}

/// One line of a compiler/build or generic stream.
pub open spec fn generic_step(st: Scan, line: Seq<char>, level: CompressionLevel) -> Scan {
    if is_critical(trim(line), level) {
        let kept = if st.count > 2 {
            st.kept.push(progress_note(st.count))
        } else {
            st.kept
        };
        Scan { count: 0, open: st.open, summary: st.summary, kept: kept.push(line) }
    } else {
        Scan { count: st.count + 1, open: st.open, summary: st.summary, kept: st.kept }
    }
}

pub open spec fn step(kind: StreamKind, st: Scan, line: Seq<char>, level: CompressionLevel) -> Scan {
    match kind {
        StreamKind::CargoTest => cargo_step(st, line, level),
        StreamKind::Vitest => vitest_step(st, line, level),
        StreamKind::Pytest => pytest_step(st, line),
        _ => generic_step(st, line, level),
    }
}

/// The filter state after the lines `ls`.
pub open spec fn scan(kind: StreamKind, ls: Seq<Seq<char>>, level: CompressionLevel) -> Scan
    decreases ls.len(),
{
    if ls.len() == 0 {
        scan_start()
    } else {
        step(kind, scan(kind, ls.drop_last(), level), ls.last(), level)
    }
}

/// The lines a filter keeps, including the closing note for a trailing run.
pub open spec fn kept_lines(kind: StreamKind, ls: Seq<Seq<char>>, level: CompressionLevel) -> Seq<
    Seq<char>,
> {
    let st = scan(kind, ls, level);
    match kind {
        StreamKind::CargoTest => if st.count > 0 && st.kept.len() == 0 {
            seq![tests_passed_note(st.count)]
        } else {
            st.kept
        },
        StreamKind::Vitest => if st.count > 0 && st.kept.len() == 0 {
            seq![unit_tests_passed_note(st.count)]
        } else {
            st.kept
        },
        StreamKind::Pytest => st.kept,
        _ => if st.count > 2 {
            st.kept.push(progress_note(st.count))
        } else {
            st.kept
        },
    }
}

/// The compressed text of a non-blank input: the kept lines, or, when the
/// filter kept nothing, the first and last three lines of a long input, or
/// the input itself.
pub open spec fn compressed_text(input: Seq<char>, level: CompressionLevel) -> Seq<char> {
    let ls = lines(input);
    let kept = kept_lines(stream_kind_of(input), ls, level);
    if kept.len() == 0 {
        if ls.len() > 10 {
            join(ls.take(3).push(intermediate_note()) + ls.skip(ls.len() - 3), "\n"@)
        } else {
            input
        }
    } else {
        join(kept, "\n"@)
    }
}

/// What compressing the output of a run gives: the compressed text, the raw
/// and compressed token estimates and the reduction percent; all empty for
/// blank input. At the strict level the text is empty unless the run failed:
/// the process exited with failure (`exit_failed`) or a line shows an error.
#[verifier::opaque]
pub open spec fn run_compression_of(input: Seq<char>, level: CompressionLevel, exit_failed: bool) -> (
    Seq<char>,
    nat,
    nat,
    nat,
) {
    if trim(input).len() == 0 {
        (seq![], 0, 0, 0)
    } else if is_strict(level) && !exit_failed && !run_failed(input) {
        let raw = token_estimate(input.len());
        (seq![], raw, 0, reduction_percent(raw, 0))
    } else {
        let text = compressed_text(input, level);
        let raw = token_estimate(input.len());
        let comp = token_estimate(text.len());
        (text, raw, comp, reduction_percent(raw, comp))
    }
}

/// What `compress_text` returns: the compression of output whose exit
/// status is not known to have failed.
pub open spec fn compression_of(input: Seq<char>, level: CompressionLevel) -> (
    Seq<char>,
    nat,
    nat,
    nat,
) {
    run_compression_of(input, level, false)
}

/// A failed process is never silenced: when the process exited with
/// failure, even the strict level gives the filtered text of non-blank
/// output.
pub proof fn lemma_failed_exit_is_reported(input: Seq<char>, level: CompressionLevel)
    requires
        trim(input).len() > 0,
    ensures
        run_compression_of(input, level, true).0 == compressed_text(input, level),
{
    reveal(run_compression_of);
}

// ── what the filters never drop ─────────────────────────────────────────

/// A line (given trimmed) that reports a passing test, which the cargo and
/// vitest filters count instead of keeping.
pub open spec fn passing_line(kind: StreamKind, t: Seq<char>) -> bool {
    match kind {
        StreamKind::CargoTest => starts_with(t, "test "@) && ends_with(t, "... ok"@),
        StreamKind::Vitest => starts_with(t, "\u{2713} "@),
        _ => false,
    }
}

/// A line (given trimmed) that the filter of `kind` keeps verbatim in every
/// context: in every dialect any line that mentions an error (unless it
/// reports a passing test); besides, failing tests, failure headers and
/// summaries of cargo tests; failures, assertion errors and summaries of
/// vitest; section rules and `FAILED `/`ERROR ` lines of pytest; and the
/// critical lines (panics, `FAILED`, completion lines) of other streams.
pub open spec fn always_kept(kind: StreamKind, t: Seq<char>, level: CompressionLevel) -> bool {
    ||| mentions_error(t) && !passing_line(kind, t)
    ||| match kind {
        StreamKind::CargoTest => !passing_line(kind, t) && ((starts_with(t, "test "@) && ends_with(
            t,
            "... FAILED"@,
        )) || starts_with(t, "failures:"@) || starts_with(t, "---- "@) || starts_with(
            t,
            "test result:"@,
        )),
        StreamKind::Vitest => !passing_line(kind, t) && (starts_with(t, "\u{d7} "@) || starts_with(
            t,
            "FAIL "@,
        ) || starts_with(t, "AssertionError:"@) || starts_with(t, "Test Files"@) || starts_with(
            t,
            "Tests "@,
        ) || starts_with(t, "Duration "@)),
        StreamKind::Pytest => (starts_with(t, "=== "@) && ends_with(t, " ==="@)) || has_sub(
            t,
            "FAILED "@,
        ) || has_sub(t, "ERROR "@),
        _ => is_critical(t, level),
    }
}

/// A step keeps every line kept before it, in place, and appends `line`
/// last when the line is one that is always kept.
proof fn lemma_step_keeps(kind: StreamKind, st: Scan, line: Seq<char>, level: CompressionLevel)
    ensures
        ({
            let nx = step(kind, st, line, level);
            &&& nx.kept.len() >= st.kept.len()
            &&& forall|j: int| 0 <= j < st.kept.len() ==> #[trigger] nx.kept[j] == st.kept[j]
            &&& always_kept(kind, trim(line), level) ==> nx.kept.len() > 0 && nx.kept.last()
                == line
        }),
{
}

proof fn lemma_scan_keeps(kind: StreamKind, ls: Seq<Seq<char>>, level: CompressionLevel, i: int)
    requires
        0 <= i < ls.len(),
        always_kept(kind, trim(ls[i]), level),
    ensures
        scan(kind, ls, level).kept.contains(ls[i]),
    decreases ls.len(),
{
    let prev = scan(kind, ls.drop_last(), level);
    lemma_step_keeps(kind, prev, ls.last(), level);
    let nx = scan(kind, ls, level);
    if i == ls.len() - 1 {
        assert(nx.kept[nx.kept.len() - 1] == ls[i]);
    } else {
        assert(ls.drop_last()[i] == ls[i]);
        lemma_scan_keeps(kind, ls.drop_last(), level, i);
        let j = choose|j: int| 0 <= j < prev.kept.len() && prev.kept[j] == ls[i];
        assert(nx.kept[j] == ls[i]);
    }
}

/// Errors survive compression: for non-blank output, every line that the
/// stream's filter always keeps (see `always_kept`; in every dialect this
/// includes each line that mentions an error and does not report a passing
/// test) is among the kept lines, and the compressed text is exactly the
/// kept lines joined by newlines. At the strict level this holds once the
/// run failed, which a line that mentions an error shows by itself.
pub proof fn lemma_compression_keeps_errors(input: Seq<char>, level: CompressionLevel, i: int)
    requires
        trim(input).len() > 0,
        0 <= i < lines(input).len(),
        always_kept(stream_kind_of(input), trim(lines(input)[i]), level),
        mentions_error(trim(lines(input)[i])) || !is_strict(level) || run_failed(input),
    ensures
        kept_lines(stream_kind_of(input), lines(input), level).contains(lines(input)[i]),
        compression_of(input, level).0 == join(
            kept_lines(stream_kind_of(input), lines(input), level),
            "\n"@,
        ),
{
    reveal(run_compression_of);
    let kind = stream_kind_of(input);
    let ls = lines(input);
    if mentions_error(trim(ls[i])) {
        assert(failure_line(trim(ls[i])));
        assert(run_failed(input));
    }
    lemma_scan_keeps(kind, ls, level, i);
    let st = scan(kind, ls, level);
    let j = choose|j: int| 0 <= j < st.kept.len() && st.kept[j] == ls[i];
    let k = kept_lines(kind, ls, level);
    assert(k[j] == ls[i]);
}

/// A line (given trimmed) that opens a vitest failure frame.
pub open spec fn vitest_frame_header(t: Seq<char>) -> bool {
    starts_with(t, "\u{d7} "@) || starts_with(t, "FAIL "@) || starts_with(t, "AssertionError:"@)
}

/// A line (given trimmed) of the vitest run summary, which closes a frame.
pub open spec fn vitest_summary_line(t: Seq<char>) -> bool {
    starts_with(t, "Test Files"@) || starts_with(t, "Tests "@) || starts_with(t, "Duration "@)
}

/// The filter state after the first `m + 1` lines is one more step from
/// the state after the first `m`.
proof fn lemma_scan_take(kind: StreamKind, ls: Seq<Seq<char>>, level: CompressionLevel, m: int)
    requires
        0 <= m < ls.len(),
    ensures
        scan(kind, ls.take(m + 1), level) == step(kind, scan(kind, ls.take(m), level), ls[m], level),
{
    assert(ls.take(m + 1).drop_last() =~= ls.take(m));
    assert(ls.take(m + 1).last() == ls[m]);
}

/// Later filter states keep every line an earlier one kept, in place.
proof fn lemma_scan_prefix_kept(
    kind: StreamKind,
    ls: Seq<Seq<char>>,
    level: CompressionLevel,
    m: int,
    n: int,
    x: int,
)
    requires
        0 <= m <= n <= ls.len(),
        0 <= x < scan(kind, ls.take(m), level).kept.len(),
    ensures
        x < scan(kind, ls.take(n), level).kept.len(),
        scan(kind, ls.take(n), level).kept[x] == scan(kind, ls.take(m), level).kept[x],
    decreases n - m,
{
    if m < n {
        lemma_scan_take(kind, ls, level, m);
        lemma_step_keeps(kind, scan(kind, ls.take(m), level), ls[m], level);
        lemma_scan_prefix_kept(kind, ls, level, m + 1, n, x);
    }
}

/// A passing vitest line never opens a failure frame.
proof fn lemma_header_not_passing(t: Seq<char>)
    requires
        vitest_frame_header(t),
    ensures
        !starts_with(t, "\u{2713} "@),
{
    reveal_strlit("\u{2713} ");
    reveal_strlit("\u{d7} ");
    reveal_strlit("FAIL ");
    reveal_strlit("AssertionError:");
    assert(t.subrange(0, 2)[0] == t[0]);
    if starts_with(t, "FAIL "@) {
        assert(t.subrange(0, 5)[0] == t[0]);
    }
    if starts_with(t, "AssertionError:"@) {
        assert(t.subrange(0, 15)[0] == t[0]);
    }
}

/// Inside a vitest failure frame, that is after its header and before any
/// summary line, the filter's frame flag stays set.
proof fn lemma_vitest_frame_open(ls: Seq<Seq<char>>, level: CompressionLevel, i: int, m: int)
    requires
        0 <= i < m <= ls.len(),
        vitest_frame_header(trim(ls[i])),
        forall|k: int| i < k < m ==> !vitest_summary_line(trim(#[trigger] ls[k])),
    ensures
        scan(StreamKind::Vitest, ls.take(m), level).open,
    decreases m,
{
    lemma_scan_take(StreamKind::Vitest, ls, level, m - 1);
    if m == i + 1 {
        lemma_header_not_passing(trim(ls[i]));
    } else {
        lemma_vitest_frame_open(ls, level, i, m - 1);
        assert(!vitest_summary_line(trim(ls[m - 1])));
    }
}

/// Vitest failure frames are kept whole: in a vitest stream, every line
/// after a failure header (`× `, `FAIL `, `AssertionError:`) up to the next
/// summary line (`Test Files`, `Tests `, `Duration `) is among the kept
/// lines, at every level, unless it reports a passing test (`✓ `, which is
/// counted instead); and the compressed text is the kept lines joined by
/// newlines, since the header shows the run failed.
pub proof fn lemma_vitest_failure_frame_kept(
    input: Seq<char>,
    level: CompressionLevel,
    i: int,
    j: int,
)
    requires
        stream_kind_of(input) == StreamKind::Vitest,
        0 <= i < j < lines(input).len(),
        vitest_frame_header(trim(lines(input)[i])),
        forall|k: int| i < k < j ==> !vitest_summary_line(trim(#[trigger] lines(input)[k])),
        !starts_with(trim(lines(input)[j]), "\u{2713} "@),
    ensures
        kept_lines(StreamKind::Vitest, lines(input), level).contains(lines(input)[j]),
        compression_of(input, level).0 == join(
            kept_lines(StreamKind::Vitest, lines(input), level),
            "\n"@,
        ),
{
    reveal(run_compression_of);
    let ls = lines(input);
    let kind = StreamKind::Vitest;
    lemma_vitest_frame_open(ls, level, i, j);
    lemma_scan_take(kind, ls, level, j);
    let st = scan(kind, ls.take(j + 1), level);
    let x = st.kept.len() - 1;
    assert(st.kept[x] == ls[j]);
    lemma_scan_prefix_kept(kind, ls, level, j + 1, ls.len() as int, x);
    assert(ls.take(ls.len() as int) =~= ls);
    let fin = scan(kind, ls, level);
    assert(fin.kept[x] == ls[j]);
    let k = kept_lines(kind, ls, level);
    assert(k == fin.kept);
    assert(k[x] == ls[j]);
    // the header line shows the run failed
    let h = trim(ls[i]);
    reveal_strlit("\u{d7} ");
    reveal_strlit("FAIL ");
    reveal_strlit("FAIL");
    reveal_strlit("AssertionError:");
    reveal_strlit("Error");
    if starts_with(h, "FAIL "@) {
        assert(h.subrange(0, 4) =~= "FAIL"@);
        assert(occurs_at(h, "FAIL"@, 0));
    } else if starts_with(h, "AssertionError:"@) {
        let a = h.subrange(0, 15);
        assert(a == "AssertionError:"@);
        assert forall|q: int| 0 <= q < 5 implies #[trigger] h.subrange(9, 14)[q] == "Error"@[q] by {
            assert(h.subrange(9, 14)[q] == a[9 + q]);
        }
        assert(h.subrange(9, 14) =~= "Error"@);
        assert(occurs_at(h, "Error"@, 9));
    }
    assert(failure_line(h));
    assert(run_failed(input));
    assert(trim(input).len() > 0) by {
        if trim(input).len() == 0 {
            lemma_blank_text_blank_lines(input, i);
        }
    }
}

/// A line (given trimmed) that opens a cargo test failure block.
pub open spec fn cargo_failure_header(t: Seq<char>) -> bool {
    starts_with(t, "failures:"@) || starts_with(t, "---- "@)
}

/// A failure header of cargo test is no test line.
proof fn lemma_header_not_test_line(t: Seq<char>)
    requires
        cargo_failure_header(t),
    ensures
        !starts_with(t, "test "@),
{
    reveal_strlit("test ");
    reveal_strlit("failures:");
    reveal_strlit("---- ");
    assert(t.subrange(0, 5)[0] == t[0]);
    if starts_with(t, "failures:"@) {
        assert(t.subrange(0, 9)[0] == t[0]);
    }
}

/// Inside a cargo test failure block, that is after its header and before
/// the `test result:` line, the filter's block flag stays set.
proof fn lemma_cargo_block_open(ls: Seq<Seq<char>>, level: CompressionLevel, i: int, m: int)
    requires
        0 <= i < m <= ls.len(),
        cargo_failure_header(trim(ls[i])),
        forall|k: int| i < k < m ==> !starts_with(trim(#[trigger] ls[k]), "test result:"@),
    ensures
        scan(StreamKind::CargoTest, ls.take(m), level).open,
    decreases m,
{
    lemma_scan_take(StreamKind::CargoTest, ls, level, m - 1);
    if m == i + 1 {
        lemma_header_not_test_line(trim(ls[i]));
    } else {
        lemma_cargo_block_open(ls, level, i, m - 1);
        assert(!starts_with(trim(ls[m - 1]), "test result:"@));
    }
}

/// Cargo test failure blocks are kept whole: in a cargo test stream, every
/// line after a failure header (`failures:`, `---- `) up to and including
/// the `test result:` summary is among the kept lines, at every level,
/// unless it reports a passing test (`test ... ok`, which is counted
/// instead); outside the strict level, or once the run failed, the
/// compressed text is the kept lines joined by newlines.
pub proof fn lemma_cargo_failure_block_kept(
    input: Seq<char>,
    level: CompressionLevel,
    i: int,
    j: int,
)
    requires
        stream_kind_of(input) == StreamKind::CargoTest,
        0 <= i < j < lines(input).len(),
        cargo_failure_header(trim(lines(input)[i])),
        forall|k: int| i < k < j ==> !starts_with(trim(#[trigger] lines(input)[k]), "test result:"@),
        !passing_line(StreamKind::CargoTest, trim(lines(input)[j])),
    ensures
        kept_lines(StreamKind::CargoTest, lines(input), level).contains(lines(input)[j]),
        !is_strict(level) || run_failed(input) ==> compression_of(input, level).0 == join(
            kept_lines(StreamKind::CargoTest, lines(input), level),
            "\n"@,
        ),
{
    reveal(run_compression_of);
    let ls = lines(input);
    let kind = StreamKind::CargoTest;
    lemma_cargo_block_open(ls, level, i, j);
    lemma_scan_take(kind, ls, level, j);
    let st = scan(kind, ls.take(j + 1), level);
    let x = st.kept.len() - 1;
    assert(st.kept[x] == ls[j]);
    lemma_scan_prefix_kept(kind, ls, level, j + 1, ls.len() as int, x);
    assert(ls.take(ls.len() as int) =~= ls);
    let fin = scan(kind, ls, level);
    let k = kept_lines(kind, ls, level);
    assert(k == fin.kept);
    assert(k[x] == ls[j]);
    assert(trim(input).len() > 0) by {
        if trim(input).len() == 0 {
            lemma_blank_text_blank_lines(input, i);
            reveal_strlit("failures:");
            reveal_strlit("---- ");
        }
    }
}

/// A line (given trimmed) that is a pytest section rule, `=== ... ===`.
pub open spec fn pytest_rule(t: Seq<char>) -> bool {
    starts_with(t, "=== "@) && ends_with(t, " ==="@)
}

/// Inside the pytest failures section, that is after `=== FAILURES ===` and
/// before the next section rule, the filter's section flag stays set.
proof fn lemma_pytest_section_open(ls: Seq<Seq<char>>, level: CompressionLevel, i: int, m: int)
    requires
        0 <= i < m <= ls.len(),
        starts_with(trim(ls[i]), "=== FAILURES ==="@),
        forall|k: int| i < k < m ==> !pytest_rule(trim(#[trigger] ls[k])),
    ensures
        scan(StreamKind::Pytest, ls.take(m), level).open,
    decreases m,
{
    lemma_scan_take(StreamKind::Pytest, ls, level, m - 1);
    if m > i + 1 {
        lemma_pytest_section_open(ls, level, i, m - 1);
        assert(!pytest_rule(trim(ls[m - 1])));
    }
}

/// The pytest failures section is kept whole: in a pytest stream, every
/// line after `=== FAILURES ===` up to and including the next section rule
/// (`=== ... ===`) is among the kept lines, at every level; and the
/// compressed text is the kept lines joined by newlines, since the section
/// header shows the run failed.
pub proof fn lemma_pytest_failures_kept(input: Seq<char>, level: CompressionLevel, i: int, j: int)
    requires
        stream_kind_of(input) == StreamKind::Pytest,
        0 <= i < j < lines(input).len(),
        starts_with(trim(lines(input)[i]), "=== FAILURES ==="@),
        forall|k: int| i < k < j ==> !pytest_rule(trim(#[trigger] lines(input)[k])),
    ensures
        kept_lines(StreamKind::Pytest, lines(input), level).contains(lines(input)[j]),
        compression_of(input, level).0 == join(
            kept_lines(StreamKind::Pytest, lines(input), level),
            "\n"@,
        ),
{
    reveal(run_compression_of);
    let ls = lines(input);
    let kind = StreamKind::Pytest;
    lemma_pytest_section_open(ls, level, i, j);
    lemma_scan_take(kind, ls, level, j);
    let st = scan(kind, ls.take(j + 1), level);
    let x = st.kept.len() - 1;
    assert(st.kept[x] == ls[j]);
    lemma_scan_prefix_kept(kind, ls, level, j + 1, ls.len() as int, x);
    assert(ls.take(ls.len() as int) =~= ls);
    let fin = scan(kind, ls, level);
    let k = kept_lines(kind, ls, level);
    assert(k == fin.kept);
    assert(k[x] == ls[j]);
    let h = trim(ls[i]);
    reveal_strlit("=== FAILURES ===");
    reveal_strlit("FAIL");
    let a = h.subrange(0, 16);
    assert(a == "=== FAILURES ==="@);
    assert forall|q: int| 0 <= q < 4 implies #[trigger] h.subrange(4, 8)[q] == "FAIL"@[q] by {
        assert(h.subrange(4, 8)[q] == a[4 + q]);
    }
    assert(h.subrange(4, 8) =~= "FAIL"@);
    assert(occurs_at(h, "FAIL"@, 4));
    assert(failure_line(h));
    assert(run_failed(input));
    assert(trim(input).len() > 0) by {
        if trim(input).len() == 0 {
            lemma_blank_text_blank_lines(input, i);
        }
    }
}

/// Strict is quiet on success: at the strict level, output in which no line
/// shows a failure compresses to nothing.
pub proof fn lemma_strict_quiet_on_success(input: Seq<char>)
    requires
        !run_failed(input),
    ensures
        compression_of(input, CompressionLevel::StrictErrorsOnly).0 == Seq::<char>::empty(),
{
    reveal(run_compression_of);
}

/// Blank output compresses to nothing, with zero token counts.
pub proof fn lemma_blank_compresses_to_nothing(input: Seq<char>, level: CompressionLevel)
    requires
        trim(input).len() == 0,
    ensures
        compression_of(input, level) == (Seq::<char>::empty(), 0nat, 0nat, 0nat),
{
    reveal(run_compression_of);
}

/// The reduction is a whole percent between 0 and 100, and it is 0 when the
/// text did not shrink.
pub proof fn lemma_reduction_bounded(input: Seq<char>, level: CompressionLevel)
    ensures
        compression_of(input, level).3 <= 100,
        compression_of(input, level).2 >= compression_of(input, level).1 ==> compression_of(
            input,
            level,
        ).3 == 0,
{
    reveal(run_compression_of);
    let c = compression_of(input, level);
    if c.1 > 0 && c.1 > c.2 {
        let raw = c.1;
        let comp = c.2;
        assert((100 * (raw - comp)) as int / raw as int <= 100) by (nonlinear_arith)
            requires
                raw > comp,
                comp >= 0,
        ;
    }
}

// ── executable filter ───────────────────────────────────────────────────

/// The executable state of a line filter; `out` holds the kept lines joined
/// by newlines.
struct Filter {
    count: usize,
    open: bool,
    summary: bool,
    out: Vec<char>,
    any: bool,
}

impl Filter {
    spec fn models(&self, st: Scan) -> bool {
        &&& self.count == st.count
        &&& self.open == st.open
        &&& self.summary == st.summary
        &&& self.out@ == join(st.kept, "\n"@)
        &&& self.any == (st.kept.len() > 0)
    }

    fn keep(&mut self, line: &Vec<char>, Ghost(st): Ghost<Scan>)
        requires
            old(self).models(st),
        ensures
            final(self).models(keep(st, line@)),
    {
        proof {
            lemma_join_push(st.kept, "\n"@, line@);
        }
        if self.any {
            append_str(&mut self.out, "\n");
        }
        append_chars(&mut self.out, line);
        self.any = true;
        assert(self.out@ =~= join(st.kept.push(line@), "\n"@));
    }

    fn keep_note(&mut self, note: &Vec<char>, Ghost(st): Ghost<Scan>)
        requires
            old(self).models(st),
        ensures
            final(self).count == old(self).count,
            final(self).open == old(self).open,
            final(self).summary == old(self).summary,
            final(self).models(keep(st, note@)),
    {
        self.keep(note, Ghost(st));
    }
}

fn note_with_count(prefix: &str, n: usize, suffix: &str) -> (v: Vec<char>)
    ensures
        v@ == prefix@ + decimal(n as nat) + suffix@,
{
    let mut v: Vec<char> = Vec::new();
    append_str(&mut v, prefix);
    push_decimal(&mut v, n as u64);
    append_str(&mut v, suffix);
    assert(v@ =~= prefix@ + decimal(n as nat) + suffix@);
    v
}

fn tests_passed(n: usize) -> (v: Vec<char>)
    ensures
        v@ == tests_passed_note(n as nat),
{
    note_with_count("  \u{2714} ", n, " tests passed (collapsed by SYNAPSE)")
}

fn unit_tests_passed(n: usize) -> (v: Vec<char>)
    ensures
        v@ == unit_tests_passed_note(n as nat),
{
    note_with_count("  \u{2714} ", n, " unit tests passed (collapsed by SYNAPSE)")
}

fn progress(n: usize) -> (v: Vec<char>)
    ensures
        v@ == progress_note(n as nat),
{
    note_with_count("  [... ", n, " progress lines collapsed ...]")
}

fn is_strict_level(level: CompressionLevel) -> (b: bool)
    ensures
        b == is_strict(level),
{
    match level {
        CompressionLevel::StrictErrorsOnly => true,
        _ => false,
    }
}

fn is_balanced_level(level: CompressionLevel) -> (b: bool)
    ensures
        b == (level == CompressionLevel::Balanced),
{
    match level {
        CompressionLevel::Balanced => true,
        _ => false,
    }
}

fn mentions_error_chars(t: &Vec<char>) -> (b: bool)
    ensures
        b == mentions_error(t@),
{
    contains_str(t, "error") || contains_str(t, "Error")
}

fn failure_chars(t: &Vec<char>) -> (b: bool)
    ensures
        b == failure_line(t@),
{
    mentions_error_chars(t) || contains_str(t, "ERROR") || contains_str(t, "fatal")
        || contains_str(t, "FAIL") || contains_str(t, "panic") || starts_with_str(t, "\u{d7} ")
}

/// Whether any of the lines shows the run failed.
fn any_failure(ls: &Vec<Vec<char>>) -> (b: bool)
    ensures
        b == exists|i: int| 0 <= i < ls@.len() && failure_line(trim(#[trigger] ls.deep_view()[i])),
{
    let mut i: usize = 0;
    while i < ls.len()
        invariant
            i <= ls@.len(),
            forall|j: int| 0 <= j < i ==> !failure_line(trim(#[trigger] ls.deep_view()[j])),
        decreases ls.len() - i,
    {
        let t = trim_chars(&ls[i]);
        assert(ls.deep_view()[i as int] == ls@[i as int]@);
        if failure_chars(&t) {
            return true;
        }
        i = i + 1;
    }
    false
}

fn cargo_line(f: &mut Filter, line: &Vec<char>, level: CompressionLevel, Ghost(st): Ghost<Scan>)
    requires
        old(f).models(st),
        old(f).count < usize::MAX,
    ensures
        final(f).models(cargo_step(st, line@, level)),
{
    let t = trim_chars(line);
    if starts_with_str(&t, "test ") && ends_with_str(&t, "... ok") {
        f.count = f.count + 1;
    } else if starts_with_str(&t, "test ") && ends_with_str(&t, "... FAILED") {
        f.keep(line, Ghost(st));
    } else if starts_with_str(&t, "failures:") || starts_with_str(&t, "---- ") {
        f.keep(line, Ghost(st));
        f.open = true;
    } else if starts_with_str(&t, "test result:") {
        let ghost mid = st;
        if f.count > 0 {
            let note = tests_passed(f.count);
            f.keep_note(&note, Ghost(st));
            proof {
                mid = keep(st, tests_passed_note(st.count));
            }
        }
        f.keep(line, Ghost(mid));
        f.count = 0;
        f.open = false;
        f.summary = true;
    } else if f.open || f.summary || mentions_error_chars(&t) {
        f.keep(line, Ghost(st));
    } else if contains_str(&t, "warning:") && !is_strict_level(level) {
        f.keep(line, Ghost(st));
    }
}

fn vitest_line(f: &mut Filter, line: &Vec<char>, level: CompressionLevel, Ghost(st): Ghost<Scan>)
    requires
        old(f).models(st),
        old(f).count < usize::MAX,
    ensures
        final(f).models(vitest_step(st, line@, level)),
{
    let t = trim_chars(line);
    if starts_with_str(&t, "\u{2713} ") {
        f.count = f.count + 1;
    } else if starts_with_str(&t, "\u{d7} ") || starts_with_str(&t, "FAIL ") || starts_with_str(
        &t,
        "AssertionError:",
    ) {
        f.keep(line, Ghost(st));
        f.open = true;
    } else if starts_with_str(&t, "Test Files") || starts_with_str(&t, "Tests ")
        || starts_with_str(&t, "Duration ") {
        let ghost mid = st;
        if f.count > 0 {
            let note = unit_tests_passed(f.count);
            f.keep_note(&note, Ghost(st));
            proof {
                mid = keep(st, unit_tests_passed_note(st.count));
            }
        }
        f.keep(line, Ghost(mid));
        f.count = 0;
        f.open = false;
    } else if f.open || mentions_error_chars(&t) {
        f.keep(line, Ghost(st));
    } else if contains_str(&t, "warn ") && !is_strict_level(level) {
        f.keep(line, Ghost(st));
    }
}

fn pytest_line(f: &mut Filter, line: &Vec<char>, Ghost(st): Ghost<Scan>)
    requires
        old(f).models(st),
    ensures
        final(f).models(pytest_step(st, line@)),
{
    let t = trim_chars(line);
    if starts_with_str(&t, "=== FAILURES ===") {
        f.keep(line, Ghost(st));
        f.open = true;
    } else if starts_with_str(&t, "=== ") && ends_with_str(&t, " ===") {
        f.keep(line, Ghost(st));
        f.open = false;
    } else if f.open || contains_str(&t, "FAILED ") || contains_str(&t, "ERROR ")
        || mentions_error_chars(&t) {
        f.keep(line, Ghost(st));
    }
}

fn critical_line(t: &Vec<char>, level: CompressionLevel) -> (b: bool)
    ensures
        b == is_critical(t@, level),
{
    contains_str(t, "error") || contains_str(t, "Error") || contains_str(t, "fatal")
        || contains_str(t, "FAILED") || contains_str(t, "panic") || (contains_str(t, "warning")
        && is_balanced_level(level)) || starts_with_str(t, "Finished") || starts_with_str(
        t,
        "Done in",
    ) || starts_with_str(t, "Built in")
}

fn generic_line(f: &mut Filter, line: &Vec<char>, level: CompressionLevel, Ghost(st): Ghost<Scan>)
    requires
        old(f).models(st),
        old(f).count < usize::MAX,
    ensures
        final(f).models(generic_step(st, line@, level)),
{
    let t = trim_chars(line);
    if critical_line(&t, level) {
        let ghost mid = st;
        if f.count > 2 {
            let note = progress(f.count);
            f.keep_note(&note, Ghost(st));
            proof {
                mid = keep(st, progress_note(st.count));
            }
        }
        f.keep(line, Ghost(mid));
        f.count = 0;
    } else {
        f.count = f.count + 1;
    }
}

/// Runs the filter for `kind` over all lines; returns the kept lines joined
/// by newlines and whether any line was kept.
fn run_filter(kind: StreamKind, ls: &Vec<Vec<char>>, level: CompressionLevel) -> (r: (
    Vec<char>,
    bool,
))
    ensures
        r.0@ == join(kept_lines(kind, ls.deep_view(), level), "\n"@),
        r.1 == (kept_lines(kind, ls.deep_view(), level).len() > 0),
{
    let ghost all = ls.deep_view();
    let mut f = Filter { count: 0, open: false, summary: false, out: Vec::new(), any: false };
    let mut i: usize = 0;
    proof {
        assert(all.take(0) =~= Seq::<Seq<char>>::empty());
    }
    while i < ls.len()
        invariant
            i <= ls@.len(),
            all == ls.deep_view(),
            f.models(scan(kind, all.take(i as int), level)),
            f.count <= i,
        decreases ls.len() - i,
    {
        let ghost st = scan(kind, all.take(i as int), level);
        proof {
            assert(all.take(i + 1).drop_last() =~= all.take(i as int));
            assert(all.take(i + 1).last() == ls@[i as int]@);
            lemma_deep_view_chars(ls@[i as int]);
        }
        match kind {
            StreamKind::CargoTest => cargo_line(&mut f, &ls[i], level, Ghost(st)),
            StreamKind::Vitest => vitest_line(&mut f, &ls[i], level, Ghost(st)),
            StreamKind::Pytest => pytest_line(&mut f, &ls[i], Ghost(st)),
            _ => generic_line(&mut f, &ls[i], level, Ghost(st)),
        }
        i = i + 1;
    }
    let ghost st = scan(kind, all, level);
    proof {
        assert(all.take(i as int) =~= all);
    }
    match kind {
        StreamKind::CargoTest => {
            if f.count > 0 && !f.any {
                let note = tests_passed(f.count);
                proof {
                    assert(note@ == join(seq![note@], "\n"@));
                }
                return (note, true);
            }
        },
        StreamKind::Vitest => {
            if f.count > 0 && !f.any {
                let note = unit_tests_passed(f.count);
                proof {
                    assert(note@ == join(seq![note@], "\n"@));
                }
                return (note, true);
            }
        },
        StreamKind::Pytest => {},
        _ => {
            if f.count > 2 {
                let note = progress(f.count);
                f.keep_note(&note, Ghost(st));
            }
        },
    }
    (f.out, f.any)
}

// ── compression ─────────────────────────────────────────────────────────

fn copy_line(ls: &Vec<Vec<char>>, i: usize) -> (v: Vec<char>)
    requires
        i < ls@.len(),
    ensures
        v@ == ls.deep_view()[i as int],
{
    proof {
        lemma_deep_view_chars(ls@[i as int]);
    }
    slice_chars(&ls[i], 0, ls[i].len())
}

fn push_part(parts: &mut Vec<Vec<char>>, v: Vec<char>)
    ensures
        final(parts).deep_view() == old(parts).deep_view().push(v@),
{
    let ghost before = *parts;
    parts.push(v);
    proof {
        lemma_deep_view_push(before, *parts, v);
    }
}

/// The first and last three lines with the intermediate note between them.
fn head_and_tail(ls: &Vec<Vec<char>>) -> (v: Vec<char>)
    requires
        ls@.len() > 10,
    ensures
        v@ == join(
            ls.deep_view().take(3).push(intermediate_note()) + ls.deep_view().skip(
                ls.deep_view().len() - 3,
            ),
            "\n"@,
        ),
{
    let n = ls.len();
    let mut parts: Vec<Vec<char>> = Vec::new();
    push_part(&mut parts, copy_line(ls, 0));
    push_part(&mut parts, copy_line(ls, 1));
    push_part(&mut parts, copy_line(ls, 2));
    let mut note: Vec<char> = Vec::new();
    append_str(&mut note, "  [... intermediate output collapsed by SYNAPSE ...]");
    push_part(&mut parts, note);
    push_part(&mut parts, copy_line(ls, n - 3));
    push_part(&mut parts, copy_line(ls, n - 2));
    push_part(&mut parts, copy_line(ls, n - 1));
    let ghost d = ls.deep_view();
    assert(parts.deep_view() =~= d.take(3).push(intermediate_note()) + d.skip(d.len() - 3));
    join_chars(&parts, "\n")
}

/// Compresses a raw terminal output buffer using semantic pattern rules.
///
/// Returns the compressed text, the raw and compressed token estimates and
/// the whole-percent reduction between them.
pub fn compress_text(input: &str, level: CompressionLevel) -> (r: (String, usize, usize, u32))
    ensures
        (r.0@, r.1 as nat, r.2 as nat, r.3 as nat) == compression_of(input@, level),
{
    compress_run(input, level, false)
}

/// Compresses the output of a run whose process exited with failure
/// (`exit_failed`) or not: at the strict level a failed exit alone is
/// enough for the output to be shown.
pub fn compress_run(input: &str, level: CompressionLevel, exit_failed: bool) -> (r: (
    String,
    usize,
    usize,
    u32,
))
    ensures
        (r.0@, r.1 as nat, r.2 as nat, r.3 as nat) == run_compression_of(input@, level, exit_failed),
{
    reveal(run_compression_of);
    let chars = chars_of(input);
    let raw_tokens = tokens_of_count(chars.len());
    let trimmed = trim_chars(&chars);
    if trimmed.len() == 0 {
        return (String::new(), 0, 0, 0);
    }
    let kind = detect_kind_chars(&chars);
    let ls = split_lines(&chars);
    if is_strict_level(level) && !exit_failed && !any_failure(&ls) {
        let pct = reduction_of(raw_tokens, 0);
        return (String::new(), raw_tokens, 0, pct);
    }
    let (kept, any) = run_filter(kind, &ls, level);
    let text: Vec<char> = if !any {
        if ls.len() > 10 {
            head_and_tail(&ls)
        } else {
            chars
        }
    } else {
        kept
    };
    let compressed_tokens = tokens_of_count(text.len());
    let pct = reduction_of(raw_tokens, compressed_tokens);
    (string_of(&text), raw_tokens, compressed_tokens, pct)
}

// ── level names ─────────────────────────────────────────────────────────

/// The level a lowercase name selects.
pub open spec fn level_named(l: Seq<char>) -> Option<CompressionLevel> {
    if l == "balanced"@ {
        Some(CompressionLevel::Balanced)
    } else if l == "aggressive"@ {
        Some(CompressionLevel::Aggressive)
    } else if l == "strict"@ || l == "strict-errors-only"@ {
        Some(CompressionLevel::StrictErrorsOnly)
    } else {
        None
    }
}

impl CompressionLevel {
    /// The level named by `s`, compared without regard to case.
    pub fn from_str(s: &str) -> (level: Option<Self>)
        ensures
            level == level_named(lowercase(s@)),
    {
        let lowered = to_lowercase(s);
        Self::from_lowercase(lowered.as_str())
    }

    /// The level named by an already lowercased name.
    pub fn from_lowercase(l: &str) -> (level: Option<Self>)
        ensures
            level == level_named(l@),
    {
        let c = chars_of(l);
        if equals_str(&c, "balanced") {
            Some(CompressionLevel::Balanced)
        } else if equals_str(&c, "aggressive") {
            Some(CompressionLevel::Aggressive)
        } else if equals_str(&c, "strict") || equals_str(&c, "strict-errors-only") {
            Some(CompressionLevel::StrictErrorsOnly)
        } else {
            None
        }
    }
}

// ── spooled records ─────────────────────────────────────────────────────

/// Metadata record for a spooled raw command execution log
#[derive(Debug, Clone, PartialEq, Eq)]
pub struct SpoolEntry {
    pub id: String,
    pub timestamp: u64,
    pub command: String,
    pub raw_bytes: usize,
    pub compressed_bytes: usize,
    pub raw_tokens: usize,
    pub compressed_tokens: usize,
    pub reduction_percent: u32,
    pub log_path: String,
}

/// Result of compressing an output stream
#[derive(Debug, Clone, PartialEq, Eq)]
pub struct CompressedOutput {
    pub text: String,
    pub raw_bytes: usize,
    pub compressed_bytes: usize,
    pub raw_tokens: usize,
    pub compressed_tokens: usize,
    pub reduction_percent: u32,
    pub spool_id: Option<String>,
}

/// One FNV-1a round.
pub open spec fn fnv_step(h: u64, b: u8) -> u64 {
    (h ^ (b as u64)).wrapping_mul(0x100000001b3u64)
}

/// The 64-bit FNV-1a hash of `bytes`.
pub open spec fn fnv1a(bytes: Seq<u8>) -> u64
    decreases bytes.len(),
{
    if bytes.len() == 0 {
        0xcbf29ce484222325u64
    } else {
        fnv_step(fnv1a(bytes.drop_last()), bytes.last())
    }
}

/// Simple fast hashing helper for generating unique log IDs (64-bit FNV-1a)
fn md5_simple(input: &[u8]) -> (h: u64)
    ensures
        h == fnv1a(input@),
{
    let mut h: u64 = 0xcbf29ce484222325;
    let mut i: usize = 0;
    while i < input.len()
        invariant
            i <= input@.len(),
            h == fnv1a(input@.take(i as int)),
        decreases input.len() - i,
    {
        proof {
            assert(input@.take(i + 1).drop_last() =~= input@.take(i as int));
        }
        h = (h ^ (input[i] as u64)).wrapping_mul(0x100000001b3);
        i = i + 1;
    }
    assert(input@.take(i as int) =~= input@);
    h
}

/// The bytes of ASCII text.
pub open spec fn ascii_bytes(s: Seq<char>) -> Seq<u8> {
    s.map_values(|c: char| c as u8)
}

/// The bytes of `format!("{}:{}:{}", command, now, raw_len)`.
pub open spec fn spool_seed(command: Seq<u8>, now: u64, raw_len: nat) -> Seq<u8> {
    command + ascii_bytes(":"@ + decimal(now as nat) + ":"@ + decimal(raw_len))
}

/// The spool id: the first eight lowercase hex digits of the FNV-1a hash of
/// the seed (all of them when there are fewer).
pub open spec fn spool_id_of(command: Seq<u8>, now: u64, raw_len: nat) -> Seq<char> {
    let h = hex(fnv1a(spool_seed(command, now, raw_len)) as nat);
    if h.len() >= 8 {
        h.take(8)
    } else {
        h
    }
}

/// The retrieval footer appended to spooled output.
pub open spec fn spool_footer(raw: nat, comp: nat, pct: nat, id: Seq<char>) -> Seq<char> {
    "\n\n\u{2500}\u{2500}\u{2500} [SYNAPSE] Context: "@ + decimal(raw) + " \u{2192} "@ + decimal(comp)
        + " tokens ("@ + decimal(pct) + "% reduction) \u{2022} Full log: synapse spool show "@ + id
        + " \u{2500}\u{2500}\u{2500}"@
}

/// A lowercase hexadecimal digit.
pub open spec fn is_lower_hex(c: char) -> bool {
    ('0' <= c && c <= '9') || ('a' <= c && c <= 'f')
}

proof fn lemma_hex_digits(n: nat)
    ensures
        hex(n).len() >= 1,
        forall|i: int| 0 <= i < hex(n).len() ==> is_lower_hex(#[trigger] hex(n)[i]),
    decreases n,
{
    if n >= 16 {
        lemma_hex_digits(n / 16);
        let h = hex(n / 16);
        let d = crate::text::hex_digit_char(n % 16);
        assert(is_lower_hex(d));
        assert forall|i: int| 0 <= i < hex(n).len() implies is_lower_hex(#[trigger] hex(n)[i]) by {
            if i < h.len() {
                assert(hex(n)[i] == h[i]);
            }
        }
    } else {
        assert(is_lower_hex(crate::text::hex_digit_char(n)));
    }
}

/// Spool ids are short: one to eight lowercase hexadecimal digits.
pub proof fn lemma_spool_id_shape(command: Seq<u8>, now: u64, raw_len: nat)
    ensures
        1 <= spool_id_of(command, now, raw_len).len() <= 8,
        forall|i: int|
            0 <= i < spool_id_of(command, now, raw_len).len() ==> is_lower_hex(
                #[trigger] spool_id_of(command, now, raw_len)[i],
            ),
{
    let h = hex(fnv1a(spool_seed(command, now, raw_len)) as nat);
    lemma_hex_digits(fnv1a(spool_seed(command, now, raw_len)) as nat);
    let id = spool_id_of(command, now, raw_len);
    assert forall|i: int| 0 <= i < id.len() implies is_lower_hex(#[trigger] id[i]) by {
        assert(id[i] == h[i]);
    }
    if h.len() < 8 {
        assert(h.len() >= 1);
    }
}

fn spool_id(command: &str, now: u64, raw_len: usize) -> (id: String)
    ensures
        id@ == spool_id_of(command.spec_bytes(), now, raw_len as nat),
{
    let cb = command.as_bytes();
    let mut tail: Vec<char> = Vec::new();
    append_str(&mut tail, ":");
    push_decimal(&mut tail, now);
    append_str(&mut tail, ":");
    push_decimal(&mut tail, raw_len as u64);
    let mut seed: Vec<u8> = Vec::new();
    let mut i: usize = 0;
    while i < cb.len()
        invariant
            i <= cb@.len(),
            seed@ == cb@.take(i as int),
        decreases cb.len() - i,
    {
        seed.push(cb[i]);
        i = i + 1;
        assert(seed@ =~= cb@.take(i as int));
    }
    let ghost head = seed@;
    let mut k: usize = 0;
    while k < tail.len()
        invariant
            k <= tail@.len(),
            seed@ == head + ascii_bytes(tail@.take(k as int)),
        decreases tail.len() - k,
    {
        seed.push(tail[k] as u8);
        k = k + 1;
        assert(seed@ =~= head + ascii_bytes(tail@.take(k as int)));
    }
    proof {
        assert(cb@.take(cb@.len() as int) =~= cb@);
        assert(tail@.take(k as int) =~= tail@);
        assert(tail@ =~= ":"@ + decimal(now as nat) + ":"@ + decimal(raw_len as nat));
    }
    let h = md5_simple(seed.as_slice());
    let mut digits: Vec<char> = Vec::new();
    push_hex(&mut digits, h);
    assert(digits@ =~= hex(h as nat));
    let short = if digits.len() >= 8 {
        slice_chars(&digits, 0, 8)
    } else {
        digits
    };
    string_of(&short)
}

fn footer_chars(raw: usize, comp: usize, pct: u32, id: &String) -> (v: Vec<char>)
    ensures
        v@ == spool_footer(raw as nat, comp as nat, pct as nat, id@),
{
    let mut v: Vec<char> = Vec::new();
    append_str(&mut v, "\n\n\u{2500}\u{2500}\u{2500} [SYNAPSE] Context: ");
    push_decimal(&mut v, raw as u64);
    append_str(&mut v, " \u{2192} ");
    push_decimal(&mut v, comp as u64);
    append_str(&mut v, " tokens (");
    push_decimal(&mut v, pct as u64);
    append_str(&mut v, "% reduction) \u{2022} Full log: synapse spool show ");
    append_str(&mut v, id.as_str());
    append_str(&mut v, " \u{2500}\u{2500}\u{2500}");
    assert(v@ =~= spool_footer(raw as nat, comp as nat, pct as nat, id@));
    v
}

/// The compressed, footed output of one spooled execution: the compressed
/// text of `raw_output` (from a process that exited with failure when
/// `exit_failed`) followed by the retrieval footer naming the spool id.
pub fn spooled_output(
    command: &str,
    raw_output: &str,
    level: CompressionLevel,
    now: u64,
    exit_failed: bool,
) -> (out: CompressedOutput)
    ensures
        ({
            let c = run_compression_of(raw_output@, level, exit_failed);
            let id = spool_id_of(command.spec_bytes(), now, raw_output.len() as nat);
            &&& out.spool_id matches Some(sid) && sid@ == id
            &&& out.text@ == c.0 + spool_footer(c.1, c.2, c.3, id)
            &&& out.raw_tokens == c.1
            &&& out.compressed_tokens == c.2
            &&& out.reduction_percent == c.3
            &&& out.raw_bytes == raw_output.len()
            &&& out.compressed_bytes == raw_output.len()
        }),
{
    let raw_len = raw_output.len();
    let id = spool_id(command, now, raw_len);
    let (text, raw_tokens, compressed_tokens, pct) = compress_run(raw_output, level, exit_failed);
    let mut full = chars_of(text.as_str());
    let footer = footer_chars(raw_tokens, compressed_tokens, pct, &id);
    append_chars(&mut full, &footer);
    CompressedOutput {
        text: string_of(&full),
        raw_bytes: raw_len,
        compressed_bytes: raw_len,
        raw_tokens,
        compressed_tokens,
        reduction_percent: pct,
        spool_id: Some(id),
    }
}

/// The footer reports the token counts in order, raw first: the text of
/// spooled output (compressed text, then footer) contains
/// `Context: <raw> → <compressed> tokens`, where `<raw>` is the estimate for
/// the raw output (about four characters per token, rounded up; zero for
/// blank output) and `<compressed>` the estimate for the compressed text
/// that precedes the footer.
pub proof fn lemma_footer_reports_raw_then_compressed(
    raw: Seq<char>,
    level: CompressionLevel,
    exit_failed: bool,
    id: Seq<char>,
)
    ensures
        ({
            let c = run_compression_of(raw, level, exit_failed);
            let raw_tokens = if trim(raw).len() > 0 {
                token_estimate(raw.len())
            } else {
                0
            };
            &&& c.1 == raw_tokens
            &&& c.2 == token_estimate(c.0.len())
            &&& has_sub(
                c.0 + spool_footer(c.1, c.2, c.3, id),
                "Context: "@ + decimal(raw_tokens) + " \u{2192} "@ + decimal(
                    token_estimate(c.0.len()),
                ) + " tokens"@,
            )
        }),
{
    reveal(run_compression_of);
    let c = run_compression_of(raw, level, exit_failed);
    reveal_strlit("\n\n\u{2500}\u{2500}\u{2500} [SYNAPSE] Context: ");
    reveal_strlit("\n\n\u{2500}\u{2500}\u{2500} [SYNAPSE] ");
    reveal_strlit("Context: ");
    reveal_strlit(" tokens (");
    reveal_strlit(" tokens");
    reveal_strlit(" (");
    let pre = "\n\n\u{2500}\u{2500}\u{2500} [SYNAPSE] "@;
    assert("\n\n\u{2500}\u{2500}\u{2500} [SYNAPSE] Context: "@ =~= pre + "Context: "@);
    assert(" tokens ("@ =~= " tokens"@ + " ("@);
    let needle = "Context: "@ + decimal(c.1) + " \u{2192} "@ + decimal(c.2) + " tokens"@;
    let rest = " ("@ + decimal(c.3) + "% reduction) \u{2022} Full log: synapse spool show "@ + id
        + " \u{2500}\u{2500}\u{2500}"@;
    let text = c.0 + spool_footer(c.1, c.2, c.3, id);
    assert(text =~= (c.0 + pre) + needle + rest);
    let at = (c.0 + pre).len() as int;
    assert(text.subrange(at, at + needle.len()) =~= needle);
    assert(occurs_at(text, needle, at));
}

// ── the spool ───────────────────────────────────────────────────────────

/// Spool log manager for persistent raw log inspection. Holds the spool
/// directory; the application performs the file operations at the paths it
/// computes.
pub struct SpoolManager {
    spool_dir: String,
}

impl SpoolManager {
    /// The spool directory.
    pub closed spec fn dir(&self) -> Seq<char> {
        self.spool_dir@
    }

    pub fn new(spool_dir: String) -> (m: Self)
        ensures
            m.dir() == spool_dir@,
    {
        SpoolManager { spool_dir }
    }

    /// The spool directory.
    pub fn spool_dir(&self) -> (d: String)
        ensures
            d@ == self.dir(),
    {
        let c = chars_of(self.spool_dir.as_str());
        string_of(&c)
    }

    /// The file that holds the raw log with the given id: `<dir>/<id>.log`.
    pub fn log_path(&self, id: &str) -> (p: String)
        ensures
            p@ == path_join(self.dir(), id@ + ".log"@),
    {
        let base = chars_of(self.spool_dir.as_str());
        let mut name = chars_of(id);
        append_str(&mut name, ".log");
        let p = join_path(&base, &name);
        string_of(&p)
    }
}

/// The default spool directory: `$NEUROSURGEON_BRAIN/spool` when the Brain
/// variable is set, else `$HOME/.synapse/spool`, else `/tmp/synapse/spool`.
pub open spec fn default_spool_dir(brain: Option<Seq<char>>, home: Option<Seq<char>>) -> Seq<char> {
    match brain {
        Some(b) => path_join(b, "spool"@),
        None => match home {
            Some(h) => path_join(path_join(h, ".synapse"@), "spool"@),
            None => "/tmp/synapse/spool"@,
        },
    }
}

/// The view of an optional string.
pub open spec fn opt_view(o: Option<&str>) -> Option<Seq<char>> {
    match o {
        Some(s) => Some(s@),
        None => None,
    }
}

/// Resolves the spool directory from the values of `NEUROSURGEON_BRAIN` and
/// `HOME` (each `None` when unset).
pub fn spool_dir_from(brain: Option<&str>, home: Option<&str>) -> (d: String)
    ensures
        d@ == default_spool_dir(opt_view(brain), opt_view(home)),
{
    match brain {
        Some(b) => {
            let base = chars_of(b);
            let name = chars_of("spool");
            string_of(&join_path(&base, &name))
        },
        None => match home {
            Some(h) => {
                let base = chars_of(h);
                let mid = join_path(&base, &chars_of(".synapse"));
                string_of(&join_path(&mid, &chars_of("spool")))
            },
            None => {
                let c = chars_of("/tmp/synapse/spool");
                string_of(&c)
            },
        },
    }
}

/// The id of a spooled log file: the stem of a file name whose extension is
/// `log`.
pub open spec fn log_id_of(name: Seq<char>) -> Option<Seq<char>> {
    if name.len() > 4 && ends_with(name, ".log"@) {
        Some(name.take(name.len() - 4))
    } else {
        None
    }
}

/// The listing entry for one file of the spool directory, from its name,
/// path, size in bytes and modification time; `None` for files that are not
/// raw logs.
pub fn spool_entry(file_name: &str, log_path: String, raw_bytes: usize, timestamp: u64) -> (e:
    Option<SpoolEntry>)
    ensures
        log_id_of(file_name@) is None ==> e is None,
        log_id_of(file_name@) matches Some(id) ==> e matches Some(entry) && {
            &&& entry.id@ == id
            &&& entry.timestamp == timestamp
            &&& entry.command@ == "spooled execution"@
            &&& entry.raw_bytes == raw_bytes
            &&& entry.compressed_bytes == raw_bytes / 10
            &&& entry.raw_tokens == token_estimate(raw_bytes as nat)
            &&& entry.compressed_tokens == token_estimate(raw_bytes as nat) / 10
            &&& entry.reduction_percent == 90
            &&& entry.log_path@ == log_path@
        },
{
    let name = chars_of(file_name);
    if name.len() > 4 && ends_with_str(&name, ".log") {
        let stem = slice_chars(&name, 0, name.len() - 4);
        let raw_tokens = tokens_of_count(raw_bytes);
        let mut command: Vec<char> = Vec::new();
        append_str(&mut command, "spooled execution");
        Some(
            SpoolEntry {
                id: string_of(&stem),
                timestamp,
                command: string_of(&command),
                raw_bytes,
                compressed_bytes: raw_bytes / 10,
                raw_tokens,
                compressed_tokens: raw_tokens / 10,
                reduction_percent: 90,
                log_path,
            },
        )
    } else {
        None
    }
}

/// Number of leading entries strictly newer than `ts`.
pub open spec fn newer_prefix(t: Seq<SpoolEntry>, ts: u64) -> nat
    decreases t.len(),
{
    if t.len() > 0 && t[0].timestamp > ts {
        1 + newer_prefix(t.drop_first(), ts)
    } else {
        0
    }
}

/// Inserts `e` into a newest-first list after every strictly newer entry.
pub open spec fn place(t: Seq<SpoolEntry>, e: SpoolEntry) -> Seq<SpoolEntry> {
    t.insert(newer_prefix(t, e.timestamp) as int, e)
}

/// The stable newest-first order of `s`: what `sort_by` with the reversed
/// timestamp comparison produces.
pub open spec fn newest_first(s: Seq<SpoolEntry>) -> Seq<SpoolEntry>
    decreases s.len(),
{
    if s.len() == 0 {
        s
    } else {
        place(newest_first(s.drop_first()), s[0])
    }
}

/// Timestamps never increase along `s`.
pub open spec fn is_newest_first(s: Seq<SpoolEntry>) -> bool {
    forall|i: int, j: int| 0 <= i < j < s.len() ==> s[i].timestamp >= s[j].timestamp
}

proof fn lemma_newer_prefix_at(t: Seq<SpoolEntry>, ts: u64, k: int)
    requires
        0 <= k <= t.len(),
        forall|j: int| 0 <= j < k ==> (#[trigger] t[j]).timestamp > ts,
        k == t.len() || t[k].timestamp <= ts,
    ensures
        newer_prefix(t, ts) == k,
    decreases k,
{
    if k > 0 {
        let u = t.drop_first();
        assert forall|j: int| 0 <= j < k - 1 implies (#[trigger] u[j]).timestamp > ts by {
            assert(u[j] == t[j + 1]);
        }
        if k < t.len() {
            assert(u[k - 1] == t[k]);
        }
        lemma_newer_prefix_at(u, ts, k - 1);
    }
}

proof fn lemma_newer_prefix_facts(t: Seq<SpoolEntry>, ts: u64)
    ensures
        newer_prefix(t, ts) <= t.len(),
        forall|j: int| 0 <= j < newer_prefix(t, ts) ==> (#[trigger] t[j]).timestamp > ts,
        newer_prefix(t, ts) < t.len() ==> t[newer_prefix(t, ts) as int].timestamp <= ts,
    decreases t.len(),
{
    if t.len() > 0 && t[0].timestamp > ts {
        let u = t.drop_first();
        lemma_newer_prefix_facts(u, ts);
        assert forall|j: int| 0 <= j < newer_prefix(t, ts) implies (#[trigger] t[j]).timestamp
            > ts by {
            if j > 0 {
                assert(t[j] == u[j - 1]);
            }
        }
        if newer_prefix(t, ts) < t.len() {
            assert(t[newer_prefix(t, ts) as int] == u[newer_prefix(u, ts) as int]);
        }
    }
}

/// The spool listing order: `newest_first` puts the entries in order of
/// non-increasing timestamp, and it only reorders them (the same entries,
/// each as often as before).
pub proof fn lemma_newest_first_sorts(s: Seq<SpoolEntry>)
    ensures
        is_newest_first(newest_first(s)),
        newest_first(s).to_multiset() == s.to_multiset(),
        newest_first(s).len() == s.len(),
    decreases s.len(),
{
    if s.len() > 0 {
        let t = newest_first(s.drop_first());
        lemma_newest_first_sorts(s.drop_first());
        let e = s[0];
        let k = newer_prefix(t, e.timestamp) as int;
        lemma_newer_prefix_facts(t, e.timestamp);
        let r = t.insert(k, e);
        t.insert_ensures(k, e);
        assert forall|i: int, j: int| 0 <= i < j < r.len() implies r[i].timestamp
            >= r[j].timestamp by {
            if j < k {
            } else if j == k {
                assert(r[i] == t[i]);
            } else if i < k {
                assert(r[i] == t[i]);
                assert(r[j] == t[j - 1]);
                assert(t[k].timestamp <= e.timestamp);
                if j - 1 > k {
                    assert(t[k].timestamp >= t[j - 1].timestamp);
                }
            } else if i == k {
                assert(r[j] == t[j - 1]);
                assert(t[k].timestamp <= e.timestamp);
                if j - 1 > k {
                    assert(t[k].timestamp >= t[j - 1].timestamp);
                }
            } else {
                assert(r[i] == t[i - 1]);
                assert(r[j] == t[j - 1]);
            }
        }
        vstd::seq_lib::to_multiset_insert(t, k, e);
        vstd::seq_lib::to_multiset_insert(s.drop_first(), 0, e);
        assert(s.drop_first().insert(0, e) =~= s);
    }
}

/// Orders spool entries newest first; entries with equal timestamps keep
/// their relative order.
pub fn sort_newest_first(entries: Vec<SpoolEntry>) -> (sorted: Vec<SpoolEntry>)
    ensures
        sorted@ == newest_first(entries@),
{
    let ghost orig = entries@;
    let mut rest = entries;
    let mut sorted: Vec<SpoolEntry> = Vec::new();
    while rest.len() > 0
        invariant
            rest@ == orig.take(rest@.len() as int),
            rest@.len() <= orig.len(),
            sorted@ == newest_first(orig.skip(rest@.len() as int)),
        decreases rest@.len(),
    {
        let ghost n = rest@.len();
        let e = rest.pop().unwrap();
        proof {
            assert(orig.skip(n - 1).drop_first() =~= orig.skip(n as int));
            assert(orig.skip(n - 1)[0] == e);
            assert(rest@ =~= orig.take(n - 1));
        }
        let mut k: usize = 0;
        while k < sorted.len() && sorted[k].timestamp > e.timestamp
            invariant
                k <= sorted@.len(),
                forall|j: int| 0 <= j < k ==> (#[trigger] sorted@[j]).timestamp > e.timestamp,
            decreases sorted@.len() - k,
        {
            k = k + 1;
        }
        proof {
            lemma_newer_prefix_at(sorted@, e.timestamp, k as int);
        }
        sorted.insert(k, e);
    }
    proof {
        assert(orig.skip(0) =~= orig);
    }
    sorted
}

/// The lines of a spooled log that `read_log` shows: those containing the
/// grep pattern without regard to case (all lines when there is none), then
/// only the last `tail` of them, joined by newlines.
pub open spec fn log_view(content: Seq<char>, tail: Option<usize>, grep: Option<Seq<char>>) -> Seq<
    char,
> {
    let ls = lines(content);
    let matching = match grep {
        Some(p) => ls.filter(|l: Seq<char>| has_sub(lowercase(l), lowercase(p))),
        None => ls,
    };
    let shown = match tail {
        Some(n) => if matching.len() > n {
            matching.skip(matching.len() - n)
        } else {
            matching
        },
        None => matching,
    };
    join(shown, "\n"@)
}

/// The last item that passes a filter is the last item of the filtered
/// sequence.
proof fn lemma_filter_last(s: Seq<Seq<char>>, pred: spec_fn(Seq<char>) -> bool, k: int)
    requires
        0 <= k < s.len(),
        pred(s[k]),
        forall|j: int| k < j < s.len() ==> !pred(#[trigger] s[j]),
    ensures
        s.filter(pred).len() > 0,
        s.filter(pred).last() == s[k],
    decreases s.len(),
{
    reveal_with_fuel(Seq::<Seq<char>>::filter, 1);
    let d = s.drop_last();
    if k == s.len() - 1 {
        assert(s.filter(pred) == d.filter(pred).push(s.last()));
    } else {
        assert(!pred(s[s.len() - 1]));
        assert(s.filter(pred) == d.filter(pred));
        assert forall|j: int| k < j < d.len() implies !pred(#[trigger] d[j]) by {
            assert(d[j] == s[j]);
        }
        assert(d[k] == s[k]);
        lemma_filter_last(d, pred, k);
    }
}

/// A join ends with its last part.
proof fn lemma_join_ends_with_last(parts: Seq<Seq<char>>, sep: Seq<char>)
    requires
        parts.len() > 0,
    ensures
        ends_with(join(parts, sep), parts.last()),
{
    let j = join(parts, sep);
    let x = parts.last();
    if parts.len() == 1 {
        assert(j == x);
        assert(j.subrange(0, j.len() as int) =~= x);
    } else {
        assert(j == join(parts.drop_last(), sep) + sep + x);
        let at = j.len() - x.len();
        assert(j.subrange(at, j.len() as int) =~= x);
    }
}

/// Grep comes before tail: with a pattern and a tail of at least one line,
/// the shown text ends with the last line of the log that contains the
/// pattern (without regard to case), wherever that line stands in the log;
/// so when some line matches, that line is shown.
pub proof fn lemma_log_view_keeps_last_match(content: Seq<char>, n: usize, p: Seq<char>, k: int)
    requires
        n >= 1,
        0 <= k < lines(content).len(),
        has_sub(lowercase(lines(content)[k]), lowercase(p)),
        forall|j: int|
            k < j < lines(content).len() ==> !has_sub(
                lowercase(#[trigger] lines(content)[j]),
                lowercase(p),
            ),
    ensures
        log_view(content, Some(n), Some(p)).len() >= lines(content)[k].len(),
        ends_with(log_view(content, Some(n), Some(p)), lines(content)[k]),
{
    let ls = lines(content);
    let pred = |l: Seq<char>| has_sub(lowercase(l), lowercase(p));
    assert forall|j: int| k < j < ls.len() implies !pred(#[trigger] ls[j]) by {
        assert(!has_sub(lowercase(ls[j]), lowercase(p)));
    }
    lemma_filter_last(ls, pred, k);
    let m = ls.filter(pred);
    let shown = if m.len() > n {
        m.skip(m.len() - n)
    } else {
        m
    };
    assert(shown.len() > 0 && shown.last() == m.last());
    lemma_join_ends_with_last(shown, "\n"@);
    assert(log_view(content, Some(n), Some(p)) == join(shown, "\n"@));
}

/// Selects the lines of a spooled log's content with optional grep and tail
/// filtering.
pub fn filter_log(content: &str, tail: Option<usize>, grep: Option<&str>) -> (r: String)
    ensures
        r@ == log_view(content@, tail, opt_view(grep)),
{
    let chars = chars_of(content);
    let ls = split_lines(&chars);
    let ghost all = ls.deep_view();
    let mut kept: Vec<Vec<char>> = Vec::new();
    match grep {
        Some(p) => {
            let lp = to_lowercase(p);
            let pat = chars_of(lp.as_str());
            let ghost pred = |l: Seq<char>| has_sub(lowercase(l), lowercase(p@));
            let mut i: usize = 0;
            proof {
                assert(all.take(0) =~= Seq::<Seq<char>>::empty());
                assert(kept.deep_view() =~= Seq::<Seq<char>>::empty());
            }
            while i < ls.len()
                invariant
                    i <= ls@.len(),
                    all == ls.deep_view(),
                    pat@ == lowercase(p@),
                    pred == (|l: Seq<char>| has_sub(lowercase(l), lowercase(p@))),
                    kept.deep_view() == all.take(i as int).filter(pred),
                decreases ls.len() - i,
            {
                proof {
                    lemma_deep_view_chars(ls@[i as int]);
                    assert(all.take(i + 1).drop_last() =~= all.take(i as int));
                    assert(all.take(i + 1).last() == ls@[i as int]@);
                }
                let line = string_of(&ls[i]);
                let lowered = to_lowercase(line.as_str());
                let lc = chars_of(lowered.as_str());
                proof {
                    reveal_with_fuel(Seq::<Seq<char>>::filter, 1);
                    let t = all.take(i + 1);
                    assert(t.filter(pred) == if pred(t.last()) {
                        t.drop_last().filter(pred).push(t.last())
                    } else {
                        t.drop_last().filter(pred)
                    });
                    assert(pred(t.last()) == has_sub(lc@, pat@));
                }
                if contains_chars(&lc, &pat) {
                    let copy = slice_chars(&ls[i], 0, ls[i].len());
                    let ghost before = kept;
                    kept.push(copy);
                    proof {
                        lemma_deep_view_push(before, kept, copy);
                        assert(copy@ =~= ls@[i as int]@);
                    }
                }
                i = i + 1;
            }
            proof {
                assert(all.take(i as int) =~= all);
            }
        },
        None => {
            kept = ls;
        },
    }
    let shown = match tail {
        Some(n) => if kept.len() > n {
            let mut last: Vec<Vec<char>> = Vec::new();
            let start = kept.len() - n;
            let mut j: usize = start;
            let ghost kd = kept.deep_view();
            proof {
                assert(last.deep_view() =~= kd.subrange(start as int, start as int));
            }
            while j < kept.len()
                invariant
                    start <= j <= kept@.len(),
                    kd == kept.deep_view(),
                    last.deep_view() == kd.subrange(start as int, j as int),
                decreases kept.len() - j,
            {
                proof {
                    lemma_deep_view_chars(kept@[j as int]);
                }
                let copy = slice_chars(&kept[j], 0, kept[j].len());
                let ghost before = last;
                last.push(copy);
                proof {
                    lemma_deep_view_push(before, last, copy);
                    assert(kd[j as int] == copy@);
                    assert(last.deep_view() =~= kd.subrange(start as int, j + 1));
                }
                j = j + 1;
            }
            proof {
                assert(kd.subrange(start as int, j as int) =~= kd.skip(kd.len() - n));
            }
            last
        } else {
            kept
        },
        None => kept,
    };
    let out = join_chars(&shown, "\n");
    string_of(&out)
}

/// `format!("{} {}", cmd, args.join(" "))`: the command line as recorded.
pub open spec fn command_line_of(cmd: Seq<char>, args: Seq<Seq<char>>) -> Seq<char> {
    cmd + " "@ + join(args, " "@)
}

/// The views of a list of strings.
pub open spec fn views(v: Seq<String>) -> Seq<Seq<char>> {
    v.map_values(|s: String| s@)
}

/// The command line of an execution, as spooled.
pub fn command_line(cmd: &str, args: &[String]) -> (line: String)
    ensures
        line@ == command_line_of(cmd@, views(args@)),
{
    let mut out = chars_of(cmd);
    append_str(&mut out, " ");
    let ghost head = out@;
    let ghost all = views(args@);
    let mut i: usize = 0;
    while i < args.len()
        invariant
            i <= args@.len(),
            all == views(args@),
            out@ == head + join(all.take(i as int), " "@),
        decreases args.len() - i,
    {
        proof {
            lemma_join_push(all.take(i as int), " "@, all[i as int]);
            assert(all.take(i as int).push(all[i as int]) =~= all.take(i + 1));
        }
        if i > 0 {
            append_str(&mut out, " ");
        }
        append_str(&mut out, args[i].as_str());
        proof {
            assert(out@ =~= head + join(all.take(i + 1), " "@));
        }
        i = i + 1;
    }
    proof {
        assert(all.take(i as int) =~= all);
    }
    string_of(&out)
}

/// The combined output of a process: stdout and stderr separated by a
/// newline, or whichever of them is not empty.
pub open spec fn combined_output(stdout: Seq<char>, stderr: Seq<char>) -> Seq<char> {
    if stderr.len() == 0 {
        stdout
    } else if stdout.len() == 0 {
        stderr
    } else {
        stdout + "\n"@ + stderr
    }
}

/// Joins a process's decoded stdout and stderr into the text that is spooled.
pub fn combine_output(stdout: &str, stderr: &str) -> (out: String)
    ensures
        out@ == combined_output(stdout@, stderr@),
{
    let o = chars_of(stdout);
    let e = chars_of(stderr);
    if e.len() == 0 {
        string_of(&o)
    } else if o.len() == 0 {
        string_of(&e)
    } else {
        let mut c = o;
        append_str(&mut c, "\n");
        append_chars(&mut c, &e);
        string_of(&c)
    }
}

} // verus!
