use synapse::chart::{
    abbreviate, close_lines, detail_line, fault_lines, field_line, header_line, paint, plural,
    row_line, rule_line, Mark, Paint, WIDTH,
};

#[test]
fn every_mark_is_exactly_one_cell_wide() {
    // Column alignment across the whole chart depends on this.
    for mark in [
        Mark::Present,
        Mark::Partial,
        Mark::Warning,
        Mark::Critical,
        Mark::Absent,
        Mark::NotApplicable,
    ] {
        assert_eq!(mark.glyph().to_string().chars().count(), 1);
    }
}

#[test]
fn marks_are_visually_distinct() {
    let glyphs: Vec<char> = [
        Mark::Present,
        Mark::Partial,
        Mark::Warning,
        Mark::Critical,
        Mark::Absent,
        Mark::NotApplicable,
    ]
    .iter()
    .map(|m| m.glyph())
    .collect();
    let mut unique = glyphs.clone();
    unique.sort_unstable();
    unique.dedup();
    assert_eq!(glyphs.len(), unique.len(), "two marks share a glyph");
}

#[test]
fn no_mark_is_an_emoji() {
    for mark in [Mark::Present, Mark::Critical, Mark::Absent] {
        assert!(
            (mark.glyph() as u32) < 0x1F000,
            "{} is outside the geometric-shapes range",
            mark.glyph()
        );
    }
}

#[test]
fn paint_is_transparent_when_color_is_disabled() {
    // Captured output has colour off, so painting is a no-op.
    assert_eq!(paint(Paint::Drape, "plain", false), "plain");
}

#[test]
fn abbreviate_rewrites_a_known_root_to_its_label() {
    let roots: &[(&str, &str)] = &[("brain", "/home/u/AIBrain")];
    assert_eq!(
        abbreviate("/home/u/AIBrain/.brain/mappings.json", roots),
        "brain/.brain/mappings.json",
    );
}

#[test]
fn abbreviate_collapses_the_root_itself_to_the_bare_label() {
    let roots: &[(&str, &str)] = &[("brain", "/home/u/AIBrain")];
    assert_eq!(abbreviate("/home/u/AIBrain", roots), "brain");
}

#[test]
fn abbreviate_leaves_unrelated_paths_alone() {
    let roots: &[(&str, &str)] = &[("brain", "/home/u/AIBrain")];
    assert_eq!(abbreviate("/etc/hosts", roots), "/etc/hosts");
}

#[test]
fn abbreviate_prefers_the_first_matching_root() {
    let roots: &[(&str, &str)] = &[("brain", "/home/u/AIBrain"), ("tools", "/home/u")];
    assert_eq!(abbreviate("/home/u/AIBrain/skills", roots), "brain/skills");
}

#[test]
fn plural_agrees_with_its_count() {
    assert_eq!(plural(0, "tool"), "0 tools");
    assert_eq!(plural(1, "tool"), "1 tool");
    assert_eq!(plural(4, "tool"), "4 tools");
}

#[test]
fn paint_wraps_in_escape_codes_when_color_is_on() {
    assert_eq!(paint(Paint::Drape, "x", true), "\x1b[38;5;33mx\x1b[0m");
    assert_eq!(Paint::Bold.code(), "\x1b[1m");
    assert_eq!(Mark::Present.render(false), "●");
    assert_eq!(Mark::Critical.render(true), "\x1b[38;5;167m■\x1b[0m");
}

#[test]
fn chart_lines_are_aligned() {
    let head = header_line("intake", "4 of 13 present", false);
    assert!(head.starts_with("  SYNAPSE · INTAKE "));
    assert_eq!(head.chars().count(), 2 + WIDTH);
    assert!(head.ends_with("4 of 13 present"));
    let rule = rule_line(false);
    assert_eq!(rule.chars().count(), 2 + WIDTH);
    assert_eq!(field_line("Site", "/p", false), "  Site   /p");
    assert_eq!(
        row_line(Mark::Present, "cursor", "config detected", false),
        "  ●  cursor                config detected"
    );
    assert_eq!(detail_line("skill  x", false), "       skill  x");
    let close = close_lines("Done.", Some("synapse doctor"), false);
    assert_eq!(close.len(), 4);
    assert_eq!(close[1], "  Done.");
    assert_eq!(close[2], "  Next  synapse doctor");
    assert_eq!(close[3], "");
    let fault = fault_lines("graft", "boom", Some("synapse doctor"));
    assert_eq!(fault, vec!["".to_string(), "  GRAFT halted: boom".into(), "  Try  synapse doctor".into(), "".into()]);
}

#[test]
fn abbreviate_leaves_sibling_directories_alone() {
    assert_eq!(abbreviate("/home/u/AIBrainX/notes", &[("brain", "/home/u/AIBrain")]), "/home/u/AIBrainX/notes");
    assert_eq!(abbreviate("/home/u/AIBrain\\x", &[("brain", "/home/u/AIBrain")]), "brain/x");
}
