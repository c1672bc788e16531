//! The clinical record renderer.
//!
//! Every surface the CLI prints is a chart: a ruled header, aligned columns
//! with a one-cell status glyph in the first position, and a footer that
//! names the next command. There are no boxes and no emoji.
//!
//! This module builds the chart's lines; whether colour is on (stdout is a
//! terminal and `NO_COLOR` is unset) is decided by the caller and passed in.

use vstd::prelude::*;

use crate::text::{
    append_chars, append_str, chars_of, decimal, lead_ws, push_decimal, slice_chars, starts_with,
    string_of, to_uppercase, uppercase,
};

verus! {

/// Width of the ruled lines. Narrow enough for a split terminal, wide enough
/// for a path plus three count columns.
pub const WIDTH: usize = 74;

// ── colour ──────────────────────────────────────────────────────────────

/// The SYNAPSE palette, mapped to the 256-colour cube so it survives
/// terminals without truecolour support.
#[derive(Clone, Copy, Debug, PartialEq, Eq, Structural)]
pub enum Paint {
    /// Secondary text: units, hints, absent rows.
    InkSoft,
    /// The one working UI accent — Synapse Blue. Links, the wordmark, the
    /// next-command hint. Never status: see `Success`.
    Drape,
    /// Healthy / present.
    Success,
    /// Critical only. Never decorative.
    Alarm,
    /// Warning.
    Caution,
    /// Structural rules and column separators.
    Rule,
    /// Emphasis within otherwise plain text.
    Bold,
}

/// The terminal escape sequence that starts a paint.
pub open spec fn paint_code(p: Paint) -> Seq<char> {
    match p {
        Paint::InkSoft => "\x1b[38;5;245m"@,
        Paint::Drape => "\x1b[38;5;33m"@,
        Paint::Success => "\x1b[38;5;77m"@,
        Paint::Alarm => "\x1b[38;5;167m"@,
        Paint::Caution => "\x1b[38;5;179m"@,
        Paint::Rule => "\x1b[38;5;240m"@,
        Paint::Bold => "\x1b[1m"@,
    }
}

/// `text` wrapped in `p` when colour is on, else `text` itself.
pub open spec fn painted(p: Paint, text: Seq<char>, color: bool) -> Seq<char> {
    if color {
        paint_code(p) + text + "\x1b[0m"@
    } else {
        text
    }
}

impl Paint {
    pub fn code(self) -> (c: &'static str)
        ensures
            c@ == paint_code(self),
    {
        match self {
            Paint::InkSoft => "\x1b[38;5;245m",
            Paint::Drape => "\x1b[38;5;33m",
            Paint::Success => "\x1b[38;5;77m",
            Paint::Alarm => "\x1b[38;5;167m",
            Paint::Caution => "\x1b[38;5;179m",
            Paint::Rule => "\x1b[38;5;240m",
            Paint::Bold => "\x1b[1m",
        }
    }
}

fn paint_chars(p: Paint, text: &Vec<char>, color: bool) -> (v: Vec<char>)
    ensures
        v@ == painted(p, text@, color),
{
    if color {
        let mut v = chars_of(p.code());
        append_chars(&mut v, text);
        append_str(&mut v, "\x1b[0m");
        v
    } else {
        slice_chars(text, 0, text.len())
    }
}

/// Wraps `text` in `paint`, or returns it untouched when colour is disabled.
pub fn paint(tone: Paint, text: &str, color: bool) -> (s: String)
    ensures
        s@ == painted(tone, text@, color),
{
    let t = chars_of(text);
    string_of(&paint_chars(tone, &t, color))
}

/// With colour disabled painting changes nothing, so piped output stays
/// plain text.
pub proof fn lemma_paint_transparent_without_color(tone: Paint, text: Seq<char>)
    ensures
        painted(tone, text, false) == text,
{
}

// ── status glyphs ───────────────────────────────────────────────────────

/// The fixed status vocabulary. Always one cell wide, always the first
/// column of a row.
#[derive(Clone, Copy, Debug, PartialEq, Eq, Structural)]
pub enum Mark {
    /// Detected, healthy, in sync.
    Present,
    /// Detected but drifted, or mid-operation.
    Partial,
    /// Needs attention, still functional.
    Warning,
    /// Broken or blocked — needs a human.
    Critical,
    /// Not installed or not found. A real finding, not an empty cell.
    Absent,
    /// Not applicable to this row.
    NotApplicable,
}

pub open spec fn glyph_of(m: Mark) -> char {
    match m {
        Mark::Present => '\u{25CF}',
        Mark::Partial => '\u{25D0}',
        Mark::Warning => '\u{25B2}',
        Mark::Critical => '\u{25A0}',
        Mark::Absent => '\u{25CB}',
        Mark::NotApplicable => '\u{00B7}',
    }
}

pub open spec fn tint_of(m: Mark) -> Paint {
    match m {
        Mark::Present => Paint::Success,
        Mark::Partial | Mark::Warning => Paint::Caution,
        Mark::Critical => Paint::Alarm,
        Mark::Absent | Mark::NotApplicable => Paint::InkSoft,
    }
}

impl Mark {
    /// The bare glyph, without colour. One character wide in every case.
    pub fn glyph(self) -> (c: char)
        ensures
            c == glyph_of(self),
    {
        match self {
            Mark::Present => '\u{25CF}',
            Mark::Partial => '\u{25D0}',
            Mark::Warning => '\u{25B2}',
            Mark::Critical => '\u{25A0}',
            Mark::Absent => '\u{25CB}',
            Mark::NotApplicable => '\u{00B7}',
        }
    }

    pub fn tint(self) -> (p: Paint)
        ensures
            p == tint_of(self),
    {
        match self {
            Mark::Present => Paint::Success,
            Mark::Partial | Mark::Warning => Paint::Caution,
            Mark::Critical => Paint::Alarm,
            Mark::Absent | Mark::NotApplicable => Paint::InkSoft,
        }
    }

    /// The glyph, tinted for the terminal.
    pub fn render(self, color: bool) -> (s: String)
        ensures
            s@ == painted(tint_of(self), seq![glyph_of(self)], color),
    {
        let mut g: Vec<char> = Vec::new();
        g.push(self.glyph());
        string_of(&paint_chars(self.tint(), &g, color))
    }
}

/// No two marks share a glyph, and every glyph lies below the emoji planes
/// (U+1F000): the status column stays one unambiguous cell wide.
pub proof fn lemma_marks_distinct(a: Mark, b: Mark)
    ensures
        glyph_of(a) == glyph_of(b) ==> a == b,
        (glyph_of(a) as u32) < 0x1F000,
{
}

// ── chart lines ─────────────────────────────────────────────────────────

/// `n` spaces.
pub open spec fn spaces(n: nat) -> Seq<char> {
    Seq::new(n, |i: int| ' ')
}

fn push_spaces(v: &mut Vec<char>, n: usize)
    ensures
        final(v)@ == old(v)@ + spaces(n as nat),
{
    let ghost start = v@;
    let mut i: usize = 0;
    while i < n
        invariant
            i <= n,
            v@ == start + spaces(i as nat),
        decreases n - i,
    {
        v.push(' ');
        i = i + 1;
        assert(v@ =~= start + spaces(i as nat));
    }
}

/// `a.saturating_sub(b)`.
pub open spec fn sat_sub(a: nat, b: nat) -> nat {
    if a > b {
        (a - b) as nat
    } else {
        0
    }
}

/// The chart title for a procedure: `SYNAPSE · <PROCEDURE>`.
pub open spec fn title_of(procedure: Seq<char>) -> Seq<char> {
    "SYNAPSE \u{00B7} "@ + uppercase(procedure)
}

/// The header line that opens a chart: the title, then the context pushed
/// to the right edge (at least one space between them).
pub open spec fn header_line_of(procedure: Seq<char>, context: Seq<char>, color: bool) -> Seq<char> {
    let title = title_of(procedure);
    let pad = sat_sub(WIDTH as nat, title.len() + context.len());
    "  "@ + painted(Paint::Bold, title, color) + spaces(if pad < 1 {
        1
    } else {
        pad
    }) + painted(Paint::InkSoft, context, color)
}

/// Without colour a header whose title and context fit leaves the line
/// exactly the chart width wide (after the two-space margin), so every
/// chart lines up.
pub proof fn lemma_header_fills_width(procedure: Seq<char>, context: Seq<char>)
    requires
        title_of(procedure).len() + context.len() < WIDTH,
    ensures
        header_line_of(procedure, context, false).len() == 2 + WIDTH,
{
    let title = title_of(procedure);
    let pad = sat_sub(WIDTH as nat, title.len() + context.len());
    reveal_strlit("  ");
    assert(pad >= 1);
    assert(spaces(pad).len() == pad);
    assert(painted(Paint::Bold, title, false) == title);
    assert(painted(Paint::InkSoft, context, false) == context);
}

/// The header line of a chart.
pub fn header_line(procedure: &str, context: &str, color: bool) -> (s: String)
    ensures
        s@ == header_line_of(procedure@, context@, color),
{
    let upper = to_uppercase(procedure);
    let mut title = chars_of("SYNAPSE \u{00B7} ");
    append_str(&mut title, upper.as_str());
    let ctx = chars_of(context);
    let used = if title.len() as u128 + ctx.len() as u128 >= WIDTH as u128 {
        WIDTH
    } else {
        title.len() + ctx.len()
    };
    let pad = WIDTH - used;
    let mut line = chars_of("  ");
    append_chars(&mut line, &paint_chars(Paint::Bold, &title, color));
    push_spaces(&mut line, if pad < 1 { 1 } else { pad });
    append_chars(&mut line, &paint_chars(Paint::InkSoft, &ctx, color));
    assert(line@ =~= header_line_of(procedure@, context@, color));
    string_of(&line)
}

/// `WIDTH` box-drawing horizontal lines.
pub open spec fn rule_chars() -> Seq<char> {
    Seq::new(WIDTH as nat, |i: int| '\u{2500}')
}

/// A full-width horizontal rule — the chart's only structural element.
pub open spec fn rule_line_of(color: bool) -> Seq<char> {
    "  "@ + painted(Paint::Rule, rule_chars(), color)
}

/// The rule line of a chart.
pub fn rule_line(color: bool) -> (s: String)
    ensures
        s@ == rule_line_of(color),
{
    let mut r: Vec<char> = Vec::new();
    let mut i: usize = 0;
    while i < WIDTH
        invariant
            i <= WIDTH,
            r@ == Seq::new(i as nat, |k: int| '\u{2500}'),
        decreases WIDTH - i,
    {
        r.push('\u{2500}');
        i = i + 1;
        assert(r@ =~= Seq::new(i as nat, |k: int| '\u{2500}'));
    }
    let mut line = chars_of("  ");
    append_chars(&mut line, &paint_chars(Paint::Rule, &r, color));
    string_of(&line)
}

/// `format!("{:<w$}", s)`: `s` padded with spaces to at least `w` characters.
pub open spec fn pad_right(s: Seq<char>, w: nat) -> Seq<char> {
    s + spaces(sat_sub(w, s.len()))
}

/// A labelled scalar above the table, e.g. `Site   /home/user/project`.
pub open spec fn field_line_of(label: Seq<char>, value: Seq<char>, color: bool) -> Seq<char> {
    "  "@ + pad_right(painted(Paint::InkSoft, label, color), 7) + value
}

/// The field line of a chart.
pub fn field_line(label: &str, value: &str, color: bool) -> (s: String)
    ensures
        s@ == field_line_of(label@, value@, color),
{
    let l = chars_of(label);
    let pl = paint_chars(Paint::InkSoft, &l, color);
    let mut line = chars_of("  ");
    append_chars(&mut line, &pl);
    let pad = if pl.len() < 7 {
        7 - pl.len()
    } else {
        0
    };
    push_spaces(&mut line, pad);
    append_str(&mut line, value);
    assert(line@ =~= field_line_of(label@, value@, color));
    string_of(&line)
}

/// One chart row: status glyph, subject padded to a fixed column, then
/// free-form detail. Absent subjects are drawn in the soft ink.
pub open spec fn row_line_of(mark: Mark, subject: Seq<char>, detail: Seq<char>, color: bool) -> Seq<
    char,
> {
    let pad = sat_sub(20, subject.len());
    let subj = if mark == Mark::Absent {
        painted(Paint::InkSoft, subject, color)
    } else {
        subject
    };
    "  "@ + painted(tint_of(mark), seq![glyph_of(mark)], color) + "  "@ + subj + spaces(pad) + "  "@
        + detail
}

fn is_absent(mark: Mark) -> (b: bool)
    ensures
        b == (mark == Mark::Absent),
{
    match mark {
        Mark::Absent => true,
        _ => false,
    }
}

/// The row line of a chart.
pub fn row_line(mark: Mark, subject: &str, detail: &str, color: bool) -> (s: String)
    ensures
        s@ == row_line_of(mark, subject@, detail@, color),
{
    let subj = chars_of(subject);
    let pad = if subj.len() < 20 {
        20 - subj.len()
    } else {
        0
    };
    let shown = if is_absent(mark) {
        paint_chars(Paint::InkSoft, &subj, color)
    } else {
        slice_chars(&subj, 0, subj.len())
    };
    let mut g: Vec<char> = Vec::new();
    g.push(mark.glyph());
    let mut line = chars_of("  ");
    append_chars(&mut line, &paint_chars(mark.tint(), &g, color));
    append_str(&mut line, "  ");
    append_chars(&mut line, &shown);
    push_spaces(&mut line, pad);
    append_str(&mut line, "  ");
    append_str(&mut line, detail);
    assert(line@ =~= row_line_of(mark, subject@, detail@, color));
    string_of(&line)
}

/// An indented continuation under a row — one imported artifact, one finding.
pub open spec fn detail_line_of(text: Seq<char>, color: bool) -> Seq<char> {
    "       "@ + painted(Paint::InkSoft, text, color)
}

/// The detail line of a chart.
pub fn detail_line(text: &str, color: bool) -> (s: String)
    ensures
        s@ == detail_line_of(text@, color),
{
    let t = chars_of(text);
    let mut line = chars_of("       ");
    append_chars(&mut line, &paint_chars(Paint::InkSoft, &t, color));
    string_of(&line)
}

/// The line that names the next command at the foot of a chart.
pub open spec fn next_line_of(next: Seq<char>, color: bool) -> Seq<char> {
    "  "@ + painted(Paint::InkSoft, "Next "@, color) + " "@ + painted(Paint::Drape, next, color)
}

/// The lines that close a chart: a rule, the one-line finding, the next
/// command when there is one, and an empty line.
pub open spec fn close_lines_of(finding: Seq<char>, next: Option<Seq<char>>, color: bool) -> Seq<
    Seq<char>,
> {
    let head = seq![rule_line_of(color), "  "@ + finding];
    match next {
        Some(n) => head.push(next_line_of(n, color)).push(seq![]),
        None => head.push(seq![]),
    }
}

/// The views of a list of strings.
pub open spec fn string_views(v: Seq<String>) -> Seq<Seq<char>> {
    v.map_values(|s: String| s@)
}

/// The closing lines of a chart.
pub fn close_lines(finding: &str, next: Option<&str>, color: bool) -> (lines: Vec<String>)
    ensures
        string_views(lines@) == close_lines_of(
            finding@,
            match next {
                Some(n) => Some(n@),
                None => None,
            },
            color,
        ),
{
    let mut out: Vec<String> = Vec::new();
    out.push(rule_line(color));
    let mut f = chars_of("  ");
    append_str(&mut f, finding);
    out.push(string_of(&f));
    if let Some(n) = next {
        let mut l = chars_of("  ");
        let soft = chars_of("Next ");
        append_chars(&mut l, &paint_chars(Paint::InkSoft, &soft, color));
        append_str(&mut l, " ");
        let nc = chars_of(n);
        append_chars(&mut l, &paint_chars(Paint::Drape, &nc, color));
        out.push(string_of(&l));
    }
    out.push(String::new());
    assert(string_views(out@) =~= close_lines_of(
        finding@,
        match next {
            Some(n) => Some(n@),
            None => None,
        },
        color,
    ));
    out
}

/// The lines of a failure report on stderr: what was being done, what went
/// wrong, and — where one exists — what to try next. Unruled and uncoloured.
pub open spec fn fault_lines_of(procedure: Seq<char>, message: Seq<char>, next: Option<Seq<char>>) -> Seq<
    Seq<char>,
> {
    let head = seq![seq![], "  "@ + uppercase(procedure) + " halted: "@ + message];
    match next {
        Some(n) => head.push("  Try  "@ + n).push(seq![]),
        None => head.push(seq![]),
    }
}

/// The lines of a failure report.
pub fn fault_lines(procedure: &str, message: &str, next: Option<&str>) -> (lines: Vec<String>)
    ensures
        string_views(lines@) == fault_lines_of(
            procedure@,
            message@,
            match next {
                Some(n) => Some(n@),
                None => None,
            },
        ),
{
    let mut out: Vec<String> = Vec::new();
    out.push(String::new());
    let upper = to_uppercase(procedure);
    let mut l = chars_of("  ");
    append_str(&mut l, upper.as_str());
    append_str(&mut l, " halted: ");
    append_str(&mut l, message);
    out.push(string_of(&l));
    if let Some(n) = next {
        let mut t = chars_of("  Try  ");
        append_str(&mut t, n);
        out.push(string_of(&t));
    }
    out.push(String::new());
    assert(string_views(out@) =~= fault_lines_of(
        procedure@,
        message@,
        match next {
            Some(n) => Some(n@),
            None => None,
        },
    ));
    out
}

// ── words ───────────────────────────────────────────────────────────────

/// Leading path separators (`'/'` or `'\\'`).
pub open spec fn lead_seps(s: Seq<char>) -> nat
    decreases s.len(),
{
    if s.len() > 0 && (s[0] == '/' || s[0] == '\\') {
        1 + lead_seps(s.drop_first())
    } else {
        0
    }
}

proof fn lemma_lead_seps_at(s: Seq<char>, i: int)
    requires
        0 <= i <= s.len(),
        forall|j: int| 0 <= j < i ==> (#[trigger] s[j] == '/' || s[j] == '\\'),
        i == s.len() || !(s[i] == '/' || s[i] == '\\'),
    ensures
        lead_seps(s) == i,
    decreases i,
{
    if i > 0 {
        let t = s.drop_first();
        assert forall|j: int| 0 <= j < i - 1 implies (#[trigger] t[j] == '/' || t[j] == '\\') by {
            assert(t[j] == s[j + 1]);
        }
        if i < s.len() {
            assert(t[i - 1] == s[i]);
        }
        lemma_lead_seps_at(t, i - 1);
    }
}

/// The labels and root paths of a root table.
pub open spec fn root_views(roots: Seq<(&str, &str)>) -> Seq<(Seq<char>, Seq<char>)> {
    roots.map_values(|r: (&str, &str)| (r.0@, r.1@))
}

/// A path rewritten against the first root it lies under: the
/// root's label, then `/` and the rest with leading separators dropped (the
/// bare label when nothing is left). Unrelated paths stay as they are.
/// `path` is `root` itself or lies inside it: it starts with `root`, and
/// what follows (if anything) starts with a separator.
pub open spec fn under_root(path: Seq<char>, root: Seq<char>) -> bool {
    starts_with(path, root) && (path.len() == root.len() || path[root.len() as int] == '/'
        || path[root.len() as int] == '\\')
}

pub open spec fn abbreviation(path: Seq<char>, roots: Seq<(Seq<char>, Seq<char>)>) -> Seq<char>
    decreases roots.len(),
{
    if roots.len() == 0 {
        path
    } else {
        let label = roots[0].0;
        let root = roots[0].1;
        if under_root(path, root) {
            let after = path.skip(root.len() as int);
            let rest = after.skip(lead_seps(after) as int);
            if rest.len() == 0 {
                label
            } else {
                label + "/"@ + rest
            }
        } else {
            abbreviation(path, roots.drop_first())
        }
    }
}

/// Shortens a path for the subject column by stripping a known root.
///
/// Doctor findings carry absolute paths, which are far too wide for a chart
/// column. Rewriting them against the Brain and tool roots keeps the record
/// aligned. The first matching root in `roots` wins.
pub fn abbreviate(path: &str, roots: &[(&str, &str)]) -> (s: String)
    ensures
        s@ == abbreviation(path@, root_views(roots@)),
{
    let p = chars_of(path);
    let ghost all = root_views(roots@);
    let mut i: usize = 0;
    proof {
        assert(all.skip(0) =~= all);
    }
    while i < roots.len()
        invariant
            i <= roots@.len(),
            p@ == path@,
            all == root_views(roots@),
            abbreviation(path@, all) == abbreviation(path@, all.skip(i as int)),
        decreases roots.len() - i,
    {
        let (label, root) = roots[i];
        let ghost rest_roots = all.skip(i as int);
        proof {
            assert(rest_roots[0] == (label@, root@));
            assert(rest_roots.drop_first() =~= all.skip(i + 1));
        }
        let r = chars_of(root);
        if r.len() <= p.len() && starts_with_chars(&p, &r) && (r.len() == p.len() || p[r.len()]
            == '/' || p[r.len()] == '\\') {
            assert(under_root(path@, root@));
            let mut k = r.len();
            while k < p.len() && (p[k] == '/' || p[k] == '\\')
                invariant
                    r@.len() <= k <= p@.len(),
                    forall|j: int| r@.len() <= j < k ==> (#[trigger] p@[j] == '/' || p@[j] == '\\'),
                decreases p.len() - k,
            {
                k = k + 1;
            }
            let ghost after = p@.skip(r@.len() as int);
            proof {
                assert forall|j: int| 0 <= j < k - r@.len() implies (#[trigger] after[j] == '/'
                    || after[j] == '\\') by {
                    assert(after[j] == p@[j + r@.len()]);
                }
                if k < p@.len() {
                    assert(after[k - r@.len()] == p@[k as int]);
                }
                lemma_lead_seps_at(after, k - r@.len());
                assert(after.skip(k - r@.len()) =~= p@.skip(k as int));
                assert(rest_roots.len() > 0);
                assert(under_root(path@, rest_roots[0].1));
                assert(abbreviation(path@, rest_roots) == if p@.skip(k as int).len() == 0 {
                    label@
                } else {
                    label@ + "/"@ + p@.skip(k as int)
                });
            }
            if k == p.len() {
                let l = chars_of(label);
                return string_of(&l);
            } else {
                let mut out = chars_of(label);
                append_str(&mut out, "/");
                let tail = slice_chars(&p, k, p.len());
                append_chars(&mut out, &tail);
                proof {
                    assert(tail@ =~= p@.skip(k as int));
                }
                return string_of(&out);
            }
        }
        i = i + 1;
    }
    proof {
        assert(all.skip(i as int) =~= Seq::<(Seq<char>, Seq<char>)>::empty());
    }
    string_of(&p)
}

/// Unrelated paths are left alone: a path that lies under no root (a
/// sibling directory that merely shares a root's prefix included) comes back
/// unchanged.
pub proof fn lemma_unrelated_path_unchanged(path: Seq<char>, roots: Seq<(Seq<char>, Seq<char>)>)
    requires
        forall|i: int| 0 <= i < roots.len() ==> !under_root(path, #[trigger] roots[i].1),
    ensures
        abbreviation(path, roots) == path,
    decreases roots.len(),
{
    if roots.len() > 0 {
        let rest = roots.drop_first();
        assert forall|i: int| 0 <= i < rest.len() implies !under_root(path, #[trigger] rest[i].1) by {
            assert(rest[i] == roots[i + 1]);
        }
        assert(!under_root(path, roots[0].1));
        lemma_unrelated_path_unchanged(path, rest);
    }
}

fn starts_with_chars(s: &Vec<char>, p: &Vec<char>) -> (b: bool)
    requires
        p@.len() <= s@.len(),
    ensures
        b == starts_with(s@, p@),
{
    let mut k: usize = 0;
    while k < p.len()
        invariant
            k <= p@.len() <= s@.len(),
            forall|j: int| 0 <= j < k ==> s@[j] == p@[j],
        decreases p.len() - k,
    {
        if s[k] != p[k] {
            assert(s@.subrange(0, p@.len() as int)[k as int] != p@[k as int]);
            return false;
        }
        k = k + 1;
    }
    assert(s@.subrange(0, p@.len() as int) =~= p@);
    true
}

/// `"1 tool"` / `"3 tools"`.
pub open spec fn plural_of(n: nat, noun: Seq<char>) -> Seq<char> {
    if n == 1 {
        decimal(n) + " "@ + noun
    } else {
        decimal(n) + " "@ + noun + "s"@
    }
}

/// Pluralises `noun` against `n` for the finding line — "1 tool" / "3 tools".
pub fn plural(n: usize, noun: &str) -> (s: String)
    ensures
        s@ == plural_of(n as nat, noun@),
{
    let mut v: Vec<char> = Vec::new();
    push_decimal(&mut v, n as u64);
    append_str(&mut v, " ");
    append_str(&mut v, noun);
    if n != 1 {
        append_str(&mut v, "s");
    }
    string_of(&v)
}

} // verus!
