use synapse::compression::{
    combine_output, command_line, compress_text, detect_stream_kind, estimate_tokens,
    compress_run, filter_log, sort_newest_first, spool_dir_from, spool_entry, spooled_output,
    CompressionLevel, SpoolEntry, SpoolManager, StreamKind,
};

#[test]
fn test_estimate_tokens() {
    assert_eq!(estimate_tokens(""), 0);
    assert_eq!(estimate_tokens("abcd"), 1);
    assert_eq!(estimate_tokens("12345678"), 2);
}

#[test]
fn test_cargo_test_compression_all_passing() {
    let mut raw = String::new();
    for i in 0..100 {
        raw.push_str(&format!("test module::test_{} ... ok\n", i));
    }
    raw.push_str("test result: ok. 100 passed; 0 failed; 0 ignored\n");

    let (compressed, raw_tok, comp_tok, reduction) =
        compress_text(&raw, CompressionLevel::Balanced);
    assert!(compressed.contains("100 tests passed"));
    assert!(compressed.contains("test result: ok. 100 passed"));
    assert!(raw_tok > comp_tok);
    assert!(
        reduction >= 80,
        "Expected >=80% reduction, got {}",
        reduction
    );
}

#[test]
fn test_cargo_test_compression_with_failure() {
    let raw = r#"
test suite::test_alpha ... ok
test suite::test_beta ... FAILED
test suite::test_gamma ... ok

failures:

---- suite::test_beta stdout ----
thread 'suite::test_beta' panicked at 'assertion failed: `(left == right)`
  left: `1`,
 right: `2`', src/lib.rs:42:9

failures:
    suite::test_beta

test result: FAILED. 2 passed; 1 failed; 0 ignored
"#;
    let (compressed, _raw_tok, _comp_tok, _reduction) =
        compress_text(raw, CompressionLevel::Balanced);
    assert!(compressed.contains("test suite::test_beta ... FAILED"));
    assert!(compressed.contains("assertion failed: `(left == right)`"));
    assert!(compressed.contains("test result: FAILED"));
}

#[test]
fn test_vitest_compression() {
    let mut raw = String::from("RUN  v4.1.10 /workspace\n");
    for i in 0..50 {
        raw.push_str(&format!("  ✓ src/test_{}.ts (1 test)\n", i));
    }
    raw.push_str("Test Files  50 passed (50)\nTests  50 passed (50)\nDuration  1.2s\n");

    let (compressed, raw_tok, comp_tok, reduction) =
        compress_text(&raw, CompressionLevel::Balanced);
    assert!(compressed.contains("50 unit tests passed"));
    assert!(compressed.contains("Test Files  50 passed (50)"));
    assert!(reduction >= 75);
    assert!(comp_tok < raw_tok);
}

#[test]
fn cargo_all_passing_collapses_to_note_and_summary() {
    let mut raw = String::new();
    for i in 0..100 {
        raw.push_str(&format!("test module::test_{} ... ok\n", i));
    }
    raw.push_str("test result: ok. 100 passed; 0 failed; 0 ignored\n");
    let (text, raw_tok, comp_tok, pct) = compress_text(&raw, CompressionLevel::Balanced);
    assert_eq!(
        text,
        "  \u{2714} 100 tests passed (collapsed by SYNAPSE)\ntest result: ok. 100 passed; 0 failed; 0 ignored"
    );
    assert_eq!(raw_tok, (raw.chars().count() + 3) / 4);
    assert_eq!(comp_tok, (text.chars().count() + 3) / 4);
    assert_eq!(pct as usize, 100 * (raw_tok - comp_tok) / raw_tok);
}

#[test]
fn blank_input_compresses_to_nothing() {
    assert_eq!(
        compress_text("   \n\t\n", CompressionLevel::Balanced),
        (String::new(), 0, 0, 0)
    );
    assert_eq!(compress_text("", CompressionLevel::Aggressive), (String::new(), 0, 0, 0));
}

#[test]
fn generic_stream_keeps_errors_and_collapses_progress() {
    let raw = "step 1\nstep 2\nstep 3\nstep 4\nerror: disk full\nstep 5\n";
    let (text, _, _, _) = compress_text(raw, CompressionLevel::Balanced);
    assert_eq!(
        text,
        "  [... 4 progress lines collapsed ...]\nerror: disk full"
    );
}

#[test]
fn generic_stream_drops_warnings_unless_balanced() {
    let raw = "a\nwarning: unused\nb\n";
    let (balanced, _, _, _) = compress_text(raw, CompressionLevel::Balanced);
    assert_eq!(balanced, "warning: unused");
    let (aggressive, _, _, _) = compress_text(raw, CompressionLevel::Aggressive);
    // Without warnings all three lines are noise, and three collapse.
    assert_eq!(aggressive, "  [... 3 progress lines collapsed ...]");
}

#[test]
fn long_unmatched_output_keeps_head_and_tail() {
    let mut raw = String::from("rootdir: /x\n");
    for i in 0..11 {
        raw.push_str(&format!("line {}\n", i));
    }
    assert_eq!(detect_stream_kind(&raw), StreamKind::Pytest);
    let (text, _, _, _) = compress_text(&raw, CompressionLevel::Balanced);
    assert_eq!(
        text,
        "rootdir: /x\nline 0\nline 1\n  [... intermediate output collapsed by SYNAPSE ...]\nline 8\nline 9\nline 10"
    );
}

#[test]
fn generic_noise_collapses_once_past_two_lines() {
    let mut raw = String::new();
    for i in 0..12 {
        raw.push_str(&format!("line {}\n", i));
    }
    let (text, _, _, _) = compress_text(&raw, CompressionLevel::Balanced);
    assert_eq!(text, "  [... 12 progress lines collapsed ...]");
    let (short, _, _, _) = compress_text("a\nb\n", CompressionLevel::Balanced);
    assert_eq!(short, "a\nb\n");
}

#[test]
fn pytest_keeps_failures_block() {
    let raw = "=== test session starts ===\ncollected 2 items\nt.py .F\n=== FAILURES ===\ndef test_x():\n>   assert 1 == 2\n=== 1 failed, 1 passed ===\n";
    assert_eq!(detect_stream_kind(raw), StreamKind::Pytest);
    let (text, _, _, _) = compress_text(raw, CompressionLevel::Balanced);
    assert_eq!(
        text,
        "=== test session starts ===\n=== FAILURES ===\ndef test_x():\n>   assert 1 == 2\n=== 1 failed, 1 passed ==="
    );
}

#[test]
fn strict_level_keeps_only_error_warnings_in_cargo() {
    let raw = "running 1 test\nwarning: unused variable\nerror[E0308]: mismatched types\n";
    assert_eq!(detect_stream_kind(raw), StreamKind::CargoTest);
    let (strict, _, _, _) = compress_text(raw, CompressionLevel::StrictErrorsOnly);
    assert_eq!(strict, "error[E0308]: mismatched types");
    let (balanced, _, _, _) = compress_text(raw, CompressionLevel::Balanced);
    assert_eq!(balanced, "warning: unused variable\nerror[E0308]: mismatched types");
}

#[test]
fn stream_kinds_are_detected() {
    assert_eq!(detect_stream_kind("test result: ok"), StreamKind::CargoTest);
    assert_eq!(detect_stream_kind("RUN  v1.0"), StreamKind::Vitest);
    assert_eq!(detect_stream_kind("rootdir: /x"), StreamKind::Pytest);
    assert_eq!(detect_stream_kind("   Compiling foo v0.1"), StreamKind::CompilerOrBuild);
    assert_eq!(detect_stream_kind("hello"), StreamKind::Generic);
}

#[test]
fn level_names_ignore_case() {
    assert_eq!(CompressionLevel::from_str("BALANCED"), Some(CompressionLevel::Balanced));
    assert_eq!(CompressionLevel::from_str("Aggressive"), Some(CompressionLevel::Aggressive));
    assert_eq!(CompressionLevel::from_str("strict"), Some(CompressionLevel::StrictErrorsOnly));
    assert_eq!(
        CompressionLevel::from_str("Strict-Errors-Only"),
        Some(CompressionLevel::StrictErrorsOnly)
    );
    assert_eq!(CompressionLevel::from_str("loud"), None);
    assert_eq!(CompressionLevel::default(), CompressionLevel::Balanced);
}

#[test]
fn spooled_output_carries_id_and_footer() {
    let out = spooled_output("cargo build", "Compiling x\nFinished `dev`\n", CompressionLevel::Balanced, 1700000000, false);
    let id = out.spool_id.clone().unwrap();
    assert!(id.len() <= 8 && !id.is_empty());
    assert!(id.chars().all(|c| c.is_ascii_hexdigit() && !c.is_ascii_uppercase()));
    assert!(out.text.starts_with("Finished `dev`\n\n─── [SYNAPSE] Context: "));
    assert!(out.text.ends_with(&format!("Full log: synapse spool show {} ───", id)));
    assert_eq!(out.raw_bytes, "Compiling x\nFinished `dev`\n".len());
    // The id is the FNV-1a hash of "command:now:len", in hex, cut to eight digits.
    let seed = format!("{}:{}:{}", "cargo build", 1700000000u64, out.raw_bytes);
    let mut h: u64 = 0xcbf29ce484222325;
    for b in seed.bytes() {
        h ^= b as u64;
        h = h.wrapping_mul(0x100000001b3);
    }
    let hex = format!("{:x}", h);
    assert_eq!(id, &hex[..hex.len().min(8)]);
}

#[test]
fn log_view_greps_without_case_and_tails() {
    let content = "Line 1: starting build\nLine 2: Compiling assets\nLine 3: Finished successfully\n";
    assert_eq!(filter_log(content, None, None), content.trim_end());
    assert_eq!(filter_log(content, None, Some("compiling")), "Line 2: Compiling assets");
    assert_eq!(filter_log(content, Some(1), None), "Line 3: Finished successfully");
    assert_eq!(filter_log(content, Some(5), Some("LINE")), content.trim_end());
}

#[test]
fn spool_paths_follow_the_environment() {
    assert_eq!(spool_dir_from(Some("/b"), Some("/h")), "/b/spool");
    assert_eq!(spool_dir_from(None, Some("/h")), "/h/.synapse/spool");
    assert_eq!(spool_dir_from(None, None), "/tmp/synapse/spool");
    let m = SpoolManager::new("/var/spool/".to_string());
    assert_eq!(m.log_path("abc"), "/var/spool/abc.log");
    assert_eq!(m.spool_dir(), "/var/spool/");
}

#[test]
fn spool_entries_are_logs_only_and_newest_first() {
    assert!(spool_entry("notes.txt", "/s/notes.txt".into(), 10, 1).is_none());
    assert!(spool_entry(".log", "/s/.log".into(), 10, 1).is_none());
    let a = spool_entry("a.log", "/s/a.log".into(), 41, 5).unwrap();
    assert_eq!(a.id, "a");
    assert_eq!(a.raw_tokens, 11);
    assert_eq!(a.compressed_tokens, 1);
    assert_eq!(a.compressed_bytes, 4);
    assert_eq!(a.reduction_percent, 90);
    assert_eq!(a.command, "spooled execution");
    let b = spool_entry("b.log", "/s/b.log".into(), 1, 9).unwrap();
    let c = spool_entry("c.log", "/s/c.log".into(), 1, 5).unwrap();
    let sorted: Vec<SpoolEntry> = sort_newest_first(vec![a, b, c]);
    let ids: Vec<&str> = sorted.iter().map(|e| e.id.as_str()).collect();
    assert_eq!(ids, vec!["b", "a", "c"]);
}

#[test]
fn process_output_is_combined_and_command_recorded() {
    assert_eq!(combine_output("out", ""), "out");
    assert_eq!(combine_output("", "err"), "err");
    assert_eq!(combine_output("out", "err"), "out\nerr");
    assert_eq!(command_line("cargo", &["test".to_string(), "-q".to_string()]), "cargo test -q");
    assert_eq!(command_line("ls", &[]), "ls ");
}

#[test]
fn errors_survive_in_every_dialect() {
    // cargo: a compiler error among passing tests is kept
    let cargo = "running 3 tests\ntest a ... ok\nerror[E0425]: cannot find value\ntest b ... ok\n";
    let (c, _, _, _) = compress_text(cargo, CompressionLevel::StrictErrorsOnly);
    assert!(c.lines().any(|l| l == "error[E0425]: cannot find value"));
    // vitest: an Error: line is kept
    let vitest = "RUN  v1\n ✓ a.ts\nTypeError: x is undefined\n";
    let (v, _, _, _) = compress_text(vitest, CompressionLevel::Aggressive);
    assert!(v.lines().any(|l| l == "TypeError: x is undefined"));
    // pytest: a FAILED line is kept
    let pytest = "rootdir: /x\nt.py::a PASSED\nt.py::b FAILED boom\n";
    let (p, _, _, _) = compress_text(pytest, CompressionLevel::Balanced);
    assert_eq!(p, "t.py::b FAILED boom");
    // generic: a panic is kept after collapsed noise
    let generic = "a\nb\nc\nd\nthread 'main' panicked at src/main.rs\n";
    let (g, _, _, _) = compress_text(generic, CompressionLevel::Aggressive);
    assert_eq!(g, "  [... 4 progress lines collapsed ...]\nthread 'main' panicked at src/main.rs");
}

#[test]
fn reduction_never_exceeds_a_hundred() {
    let mut raw = String::new();
    for i in 0..500 {
        raw.push_str(&format!("test t{} ... ok\n", i));
    }
    let (_, raw_tok, comp_tok, pct) = compress_text(&raw, CompressionLevel::Balanced);
    assert!(pct <= 100 && comp_tok < raw_tok);
    let (_, _, _, none) = compress_text("x", CompressionLevel::Balanced);
    assert_eq!(none, 0);
}

#[test]
fn strict_level_is_silent_on_a_passing_run() {
    let raw = "test a ... ok\ntest result: ok. 1 passed\n";
    let (text, raw_tok, comp_tok, pct) = compress_text(raw, CompressionLevel::StrictErrorsOnly);
    assert_eq!(text, "");
    assert_eq!(comp_tok, 0);
    assert!(raw_tok > 0);
    assert_eq!(pct, 100);
    let (balanced, _, _, _) = compress_text(raw, CompressionLevel::Balanced);
    assert_eq!(balanced, "  ✔ 1 tests passed (collapsed by SYNAPSE)\ntest result: ok. 1 passed");
}

#[test]
fn plain_error_lines_survive_cargo_streams() {
    let raw = "running 2 tests\nerror: linker `cc` not found\ntest result: FAILED. 0 passed; 2 failed\n";
    let (text, _, _, _) = compress_text(raw, CompressionLevel::Balanced);
    assert!(text.lines().any(|l| l == "error: linker `cc` not found"));
    let (strict, _, _, _) = compress_text(raw, CompressionLevel::StrictErrorsOnly);
    assert!(strict.lines().any(|l| l == "error: linker `cc` not found"));
    let vitest = "RUN  v1\nsome error happened\n";
    let (v, _, _, _) = compress_text(vitest, CompressionLevel::Aggressive);
    assert_eq!(v, "some error happened");
}

#[test]
fn strict_level_reports_a_failed_exit() {
    let raw = "building\ndone\n";
    let (quiet, _, _, _) = compress_run(raw, CompressionLevel::StrictErrorsOnly, false);
    assert_eq!(quiet, "");
    let (shown, _, _, _) = compress_run(raw, CompressionLevel::StrictErrorsOnly, true);
    assert_eq!(shown, "building\ndone\n");
    let out = spooled_output("make", raw, CompressionLevel::StrictErrorsOnly, 1, true);
    assert!(out.text.starts_with("building\ndone\n\n\n"));
}
