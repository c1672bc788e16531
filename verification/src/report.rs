//! What the command line reports: where the Brain and the tool configs live,
//! the order of the intake chart's rows, and the findings that close the
//! intake charts.

use vstd::prelude::*;

use crate::chart::plural_of;
use crate::compression::opt_view;
use crate::text::{append_str, chars_of, decimal, join_path, owned, path_join, push_decimal, string_of};

verus! {

// ── where things live ───────────────────────────────────────────────────

/// The Brain directory: an explicit `--brain`, else `$NEUROSURGEON_BRAIN`,
/// else `AIBrain` in the home directory; an error only when none of these is
/// known.
pub open spec fn brain_root_of(
    explicit: Option<Seq<char>>,
    brain_env: Option<Seq<char>>,
    home: Option<Seq<char>>,
) -> Result<Seq<char>, Seq<char>> {
    match explicit {
        Some(p) => Ok(p),
        None => match brain_env {
            Some(p) => Ok(p),
            None => match home {
                Some(h) => Ok(path_join(h, "AIBrain"@)),
                None => Err("cannot locate a home directory; pass --brain <PATH>"@),
            },
        },
    }
}

/// Resolves the Brain directory from the `--brain` flag, `$NEUROSURGEON_BRAIN`
/// and the home directory (each `None` when absent).
pub fn resolve_brain_root(explicit: Option<&str>, brain_env: Option<&str>, home: Option<&str>) -> (r:
    Result<String, String>)
    ensures
        r matches Ok(p) ==> brain_root_of(opt_view(explicit), opt_view(brain_env), opt_view(home))
            == Ok::<Seq<char>, Seq<char>>(p@),
        r matches Err(m) ==> brain_root_of(opt_view(explicit), opt_view(brain_env), opt_view(home))
            == Err::<Seq<char>, Seq<char>>(m@),
{
    if let Some(p) = explicit {
        return Ok(owned(p));
    }
    if let Some(p) = brain_env {
        return Ok(owned(p));
    }
    match home {
        Some(h) => {
            let base = chars_of(h);
            let name = chars_of("AIBrain");
            Ok(string_of(&join_path(&base, &name)))
        },
        None => Err(owned("cannot locate a home directory; pass --brain <PATH>")),
    }
}

/// The tool config root: an explicit `--tool-root`, else
/// `$NEUROSURGEON_WORKSPACE_PATH`, else `$NEUROSURGEON_TOOL_ROOT`, else the
/// home directory.
pub open spec fn tool_root_of(
    explicit: Option<Seq<char>>,
    workspace_env: Option<Seq<char>>,
    tool_root_env: Option<Seq<char>>,
    home: Option<Seq<char>>,
) -> Result<Seq<char>, Seq<char>> {
    match explicit {
        Some(p) => Ok(p),
        None => match workspace_env {
            Some(p) => Ok(p),
            None => match tool_root_env {
                Some(p) => Ok(p),
                None => match home {
                    Some(h) => Ok(h),
                    None => Err("cannot locate a home directory; pass --tool-root <PATH>"@),
                },
            },
        },
    }
}

fn first_of(a: Option<&str>, b: Option<&str>) -> (r: Option<String>)
    ensures
        a matches Some(x) ==> (r matches Some(y) && y@ == x@),
        a is None ==> (b matches Some(x) ==> (r matches Some(y) && y@ == x@)),
        a is None && b is None ==> r is None,
{
    match a {
        Some(x) => Some(owned(x)),
        None => match b {
            Some(x) => Some(owned(x)),
            None => None,
        },
    }
}

/// Resolves the tool config root from the `--tool-root` flag, the two
/// environment variables and the home directory.
pub fn resolve_tool_root(
    explicit: Option<&str>,
    workspace_env: Option<&str>,
    tool_root_env: Option<&str>,
    home: Option<&str>,
) -> (r: Result<String, String>)
    ensures
        r matches Ok(p) ==> tool_root_of(
            opt_view(explicit),
            opt_view(workspace_env),
            opt_view(tool_root_env),
            opt_view(home),
        ) == Ok::<Seq<char>, Seq<char>>(p@),
        r matches Err(m) ==> tool_root_of(
            opt_view(explicit),
            opt_view(workspace_env),
            opt_view(tool_root_env),
            opt_view(home),
        ) == Err::<Seq<char>, Seq<char>>(m@),
{
    if let Some(p) = first_of(explicit, workspace_env) {
        return Ok(p);
    }
    if let Some(p) = tool_root_env {
        return Ok(owned(p));
    }
    match home {
        Some(h) => Ok(owned(h)),
        None => Err(owned("cannot locate a home directory; pass --tool-root <PATH>")),
    }
}

// ── the order of the intake rows ────────────────────────────────────────

/// `a` comes before `b` in code-point order (the order of `str`).
pub open spec fn text_lt(a: Seq<char>, b: Seq<char>) -> bool
    decreases a.len(),
{
    if a.len() == 0 {
        b.len() > 0
    } else if b.len() == 0 {
        false
    } else if a[0] != b[0] {
        (a[0] as int) < (b[0] as int)
    } else {
        text_lt(a.drop_first(), b.drop_first())
    }
}

/// A finding `(tool id, present)` is listed before `b`: present tools
/// first, then by id.
pub open spec fn listed_before(a: (Seq<char>, bool), b: (Seq<char>, bool)) -> bool {
    (a.1 && !b.1) || (a.1 == b.1 && text_lt(a.0, b.0))
}

/// Number of leading findings of `t` that are not listed after `e`.
pub open spec fn rows_before(t: Seq<(Seq<char>, bool)>, e: (Seq<char>, bool)) -> nat
    decreases t.len(),
{
    if t.len() > 0 && !listed_before(e, t[0]) {
        1 + rows_before(t.drop_first(), e)
    } else {
        0
    }
}

/// The findings in chart order: each one placed after every finding that is
/// not listed after it.
pub open spec fn chart_order(s: Seq<(Seq<char>, bool)>) -> Seq<(Seq<char>, bool)>
    decreases s.len(),
{
    if s.len() == 0 {
        s
    } else {
        let t = chart_order(s.drop_last());
        t.insert(rows_before(t, s.last()) as int, s.last())
    }
}

/// The views of the findings.
pub open spec fn finding_views(v: Seq<(String, bool)>) -> Seq<(Seq<char>, bool)> {
    v.map_values(|f: (String, bool)| (f.0@, f.1))
}

fn text_less(a: &Vec<char>, b: &Vec<char>) -> (r: bool)
    ensures
        r == text_lt(a@, b@),
{
    let mut i: usize = 0;
    proof {
        assert(a@.skip(0) =~= a@);
        assert(b@.skip(0) =~= b@);
    }
    while i < a.len() && i < b.len() && a[i] == b[i]
        invariant
            i <= a@.len(),
            i <= b@.len(),
            text_lt(a@, b@) == text_lt(a@.skip(i as int), b@.skip(i as int)),
        decreases a.len() - i,
    {
        proof {
            assert(a@.skip(i as int).drop_first() =~= a@.skip(i + 1));
            assert(b@.skip(i as int).drop_first() =~= b@.skip(i + 1));
        }
        i = i + 1;
    }
    proof {
        if i < a@.len() {
            assert(a@.skip(i as int)[0] == a@[i as int]);
        }
        if i < b@.len() {
            assert(b@.skip(i as int)[0] == b@[i as int]);
        }
    }
    if i == a.len() {
        i < b.len()
    } else if i == b.len() {
        false
    } else {
        a[i] < b[i]
    }
}

fn before(a: &(String, bool), b: &(String, bool)) -> (r: bool)
    ensures
        r == listed_before((a.0@, a.1), (b.0@, b.1)),
{
    if a.1 != b.1 {
        a.1
    } else {
        let x = chars_of(a.0.as_str());
        let y = chars_of(b.0.as_str());
        text_less(&x, &y)
    }
}

proof fn lemma_rows_before_at(t: Seq<(Seq<char>, bool)>, e: (Seq<char>, bool), k: int)
    requires
        0 <= k <= t.len(),
        forall|j: int| 0 <= j < k ==> !listed_before(e, #[trigger] t[j]),
        k == t.len() || listed_before(e, t[k]),
    ensures
        rows_before(t, e) == k,
    decreases k,
{
    if k > 0 {
        let u = t.drop_first();
        assert forall|j: int| 0 <= j < k - 1 implies !listed_before(e, #[trigger] u[j]) by {
            assert(u[j] == t[j + 1]);
        }
        if k < t.len() {
            assert(u[k - 1] == t[k]);
        }
        lemma_rows_before_at(u, e, k - 1);
    }
}

/// Orders the intake findings `(tool id, present)`: present tools first,
/// then the absent ones, each group by id.
pub fn order_findings(findings: Vec<(String, bool)>) -> (ordered: Vec<(String, bool)>)
    ensures
        finding_views(ordered@) == chart_order(finding_views(findings@)),
{
    let ghost all = finding_views(findings@);
    let mut out: Vec<(String, bool)> = Vec::new();
    let mut i: usize = 0;
    proof {
        assert(all.take(0) =~= Seq::<(Seq<char>, bool)>::empty());
        assert(finding_views(out@) =~= Seq::<(Seq<char>, bool)>::empty());
    }
    while i < findings.len()
        invariant
            i <= findings@.len(),
            all == finding_views(findings@),
            finding_views(out@) == chart_order(all.take(i as int)),
        decreases findings.len() - i,
    {
        let e = (findings[i].0.clone(), findings[i].1);
        let ghost ev = (e.0@, e.1);
        proof {
            assert(all.take(i + 1).drop_last() =~= all.take(i as int));
            assert(all.take(i + 1).last() == ev);
        }
        let mut k: usize = 0;
        while k < out.len() && !before(&e, &out[k])
            invariant
                k <= out@.len(),
                ev == (e.0@, e.1),
                forall|j: int| 0 <= j < k ==> !listed_before(ev, #[trigger] finding_views(out@)[j]),
            decreases out@.len() - k,
        {
            assert(finding_views(out@)[k as int] == (out@[k as int].0@, out@[k as int].1));
            k = k + 1;
        }
        let ghost t = finding_views(out@);
        proof {
            lemma_rows_before_at(t, ev, k as int);
        }
        out.insert(k, e);
        proof {
            assert(finding_views(out@) =~= t.insert(k as int, ev));
        }
        i = i + 1;
    }
    proof {
        assert(all.take(i as int) =~= all);
    }
    out
}

// ── ordering laws ───────────────────────────────────────────────────────

proof fn lemma_text_lt_irreflexive(a: Seq<char>)
    ensures
        !text_lt(a, a),
    decreases a.len(),
{
    if a.len() > 0 {
        lemma_text_lt_irreflexive(a.drop_first());
    }
}

proof fn lemma_text_lt_total(a: Seq<char>, b: Seq<char>)
    ensures
        a == b || text_lt(a, b) || text_lt(b, a),
    decreases a.len(),
{
    if a.len() > 0 && b.len() > 0 && a[0] == b[0] {
        lemma_text_lt_total(a.drop_first(), b.drop_first());
        if a.drop_first() == b.drop_first() {
            assert(a =~= seq![a[0]] + a.drop_first());
            assert(b =~= seq![b[0]] + b.drop_first());
        }
    } else if a.len() > 0 && b.len() > 0 {
        assert((a[0] as int) != (b[0] as int));
    } else if a.len() == 0 && b.len() == 0 {
        assert(a =~= b);
    }
}

proof fn lemma_text_lt_transitive(a: Seq<char>, b: Seq<char>, c: Seq<char>)
    requires
        text_lt(a, b),
        text_lt(b, c),
    ensures
        text_lt(a, c),
    decreases a.len(),
{
    if a.len() > 0 && b.len() > 0 && c.len() > 0 && a[0] == b[0] && b[0] == c[0] {
        lemma_text_lt_transitive(a.drop_first(), b.drop_first(), c.drop_first());
    }
}

proof fn lemma_before_asymmetric(a: (Seq<char>, bool), b: (Seq<char>, bool))
    requires
        listed_before(a, b),
    ensures
        !listed_before(b, a),
{
    if a.1 == b.1 && text_lt(a.0, b.0) && text_lt(b.0, a.0) {
        lemma_text_lt_transitive(a.0, b.0, a.0);
        lemma_text_lt_irreflexive(a.0);
    }
}

proof fn lemma_not_before_transitive(a: (Seq<char>, bool), b: (Seq<char>, bool), c: (Seq<char>, bool))
    requires
        !listed_before(b, a),
        !listed_before(c, b),
    ensures
        !listed_before(c, a),
{
    lemma_text_lt_total(a.0, b.0);
    lemma_text_lt_total(b.0, c.0);
    lemma_text_lt_total(a.0, c.0);
    if text_lt(c.0, a.0) && a.1 == b.1 && b.1 == c.1 {
        if text_lt(a.0, b.0) {
            if text_lt(b.0, c.0) {
                lemma_text_lt_transitive(a.0, b.0, c.0);
                lemma_text_lt_transitive(a.0, c.0, a.0);
                lemma_text_lt_irreflexive(a.0);
            } else {
                lemma_text_lt_transitive(a.0, c.0, a.0);
                lemma_text_lt_irreflexive(a.0);
            }
        } else if text_lt(b.0, c.0) {
            lemma_text_lt_transitive(b.0, c.0, a.0);
            lemma_text_lt_irreflexive(b.0);
        } else {
            lemma_text_lt_irreflexive(a.0);
        }
    }
}

proof fn lemma_rows_before_facts(t: Seq<(Seq<char>, bool)>, e: (Seq<char>, bool))
    ensures
        rows_before(t, e) <= t.len(),
        forall|j: int| 0 <= j < rows_before(t, e) ==> !listed_before(e, #[trigger] t[j]),
        rows_before(t, e) < t.len() ==> listed_before(e, t[rows_before(t, e) as int]),
    decreases t.len(),
{
    if t.len() > 0 && !listed_before(e, t[0]) {
        let u = t.drop_first();
        lemma_rows_before_facts(u, e);
        assert forall|j: int| 0 <= j < rows_before(t, e) implies !listed_before(e, #[trigger] t[j]) by {
            if j > 0 {
                assert(t[j] == u[j - 1]);
            }
        }
        if rows_before(t, e) < t.len() {
            assert(t[rows_before(t, e) as int] == u[rows_before(u, e) as int]);
        }
    }
}

/// The intake chart lists every finding once (the same findings, each as
/// often as given) and in order: no row is listed before one above it, so
/// present tools come first and each group runs by id.
pub proof fn lemma_chart_order_sorts(s: Seq<(Seq<char>, bool)>)
    ensures
        chart_order(s).to_multiset() == s.to_multiset(),
        chart_order(s).len() == s.len(),
        forall|i: int, j: int|
            0 <= i < j < chart_order(s).len() ==> !listed_before(
                #[trigger] chart_order(s)[j],
                #[trigger] chart_order(s)[i],
            ),
    decreases s.len(),
{
    if s.len() > 0 {
        let t = chart_order(s.drop_last());
        lemma_chart_order_sorts(s.drop_last());
        let e = s.last();
        let k = rows_before(t, e) as int;
        lemma_rows_before_facts(t, e);
        let r = t.insert(k, e);
        t.insert_ensures(k, e);
        assert forall|i: int, j: int| 0 <= i < j < r.len() implies !listed_before(
            #[trigger] r[j],
            #[trigger] r[i],
        ) by {
            if j < k {
            } else if j == k {
                assert(r[i] == t[i]);
            } else if i < k {
                assert(r[i] == t[i]);
                assert(r[j] == t[j - 1]);
                lemma_before_asymmetric(e, t[k]);
                if j - 1 > k {
                    assert(!listed_before(t[j - 1], t[k]));
                    lemma_not_before_transitive(e, t[k], t[j - 1]);
                }
                lemma_not_before_transitive(t[i], e, t[j - 1]);
            } else if i == k {
                assert(r[j] == t[j - 1]);
                lemma_before_asymmetric(e, t[k]);
                if j - 1 > k {
                    assert(!listed_before(t[j - 1], t[k]));
                    lemma_not_before_transitive(e, t[k], t[j - 1]);
                }
            } else {
                assert(r[i] == t[i - 1]);
                assert(r[j] == t[j - 1]);
            }
        }
        vstd::seq_lib::to_multiset_insert(t, k, e);
        vstd::seq_lib::to_multiset_build(s.drop_last(), e);
        assert(s.drop_last().push(e) =~= s);
    }
}

// ── intake findings ─────────────────────────────────────────────────────

/// `"<n> of <total>"`.
pub open spec fn count_of(n: nat, total: nat) -> Seq<char> {
    decimal(n) + " of "@ + decimal(total)
}

/// The intake chart's context, its closing finding and the next command: it
/// suggests a dry-run import only when some tool was found.
pub open spec fn scan_summary_of(detected: nat, total: nat) -> (Seq<char>, Seq<char>, Option<
    Seq<char>,
>) {
    (
        count_of(detected, total) + " present"@,
        count_of(detected, total) + " supported tools present."@,
        if detected == 0 {
            None
        } else {
            Some("synapse import --dry-run"@)
        },
    )
}

/// The context, finding and next command that frame a scan with `detected`
/// of `total` tools present.
pub fn scan_summary(detected: usize, total: usize) -> (r: (String, String, Option<String>))
    ensures
        ({
            let s = scan_summary_of(detected as nat, total as nat);
            &&& r.0@ == s.0
            &&& r.1@ == s.1
            &&& (r.2 matches Some(n) ==> s.2 == Some(n@))
            &&& (r.2 is None ==> s.2 is None)
        }),
{
    let mut count: Vec<char> = Vec::new();
    push_decimal(&mut count, detected as u64);
    append_str(&mut count, " of ");
    push_decimal(&mut count, total as u64);
    let mut context = count.clone();
    append_str(&mut context, " present");
    let mut finding = count;
    append_str(&mut finding, " supported tools present.");
    let next = if detected == 0 {
        None
    } else {
        Some(owned("synapse import --dry-run"))
    };
    (string_of(&context), string_of(&finding), next)
}

/// The finding that closes a dry-run import: what would enter the Brain and
/// from how many tools.
pub open spec fn dry_run_finding_of(skills: nat, agents: nat, servers: nat, tools: nat) -> Seq<char> {
    plural_of(skills, "skill"@) + ", "@ + plural_of(agents, "agent"@) + ", "@ + plural_of(
        servers,
        "mcp server"@,
    ) + " would enter the Brain from "@ + plural_of(tools, "tool"@) + ". Nothing was written."@
}

fn push_plural(out: &mut Vec<char>, n: usize, noun: &str)
    ensures
        final(out)@ == old(out)@ + plural_of(n as nat, noun@),
{
    let p = crate::chart::plural(n, noun);
    append_str(out, p.as_str());
}

/// The closing finding of a dry-run import.
pub fn dry_run_finding(skills: usize, agents: usize, servers: usize, tools: usize) -> (f: String)
    ensures
        f@ == dry_run_finding_of(skills as nat, agents as nat, servers as nat, tools as nat),
{
    let mut out: Vec<char> = Vec::new();
    push_plural(&mut out, skills, "skill");
    append_str(&mut out, ", ");
    push_plural(&mut out, agents, "agent");
    append_str(&mut out, ", ");
    push_plural(&mut out, servers, "mcp server");
    append_str(&mut out, " would enter the Brain from ");
    push_plural(&mut out, tools, "tool");
    append_str(&mut out, ". Nothing was written.");
    string_of(&out)
}

// ── the examination's conclusion ─────────────────────────────────────────────

/// How serious a doctor finding is.
#[derive(Debug, Clone, Copy, PartialEq, Eq, Structural)]
pub enum Severity {
    Info,
    Warning,
    Critical,
}

/// The mark a finding of each severity gets in the chart.
pub open spec fn severity_mark_of(s: Severity) -> crate::chart::Mark {
    match s {
        Severity::Critical => crate::chart::Mark::Critical,
        Severity::Warning => crate::chart::Mark::Warning,
        Severity::Info => crate::chart::Mark::Partial,
    }
}

/// The chart mark of a finding's severity.
pub fn severity_mark(s: Severity) -> (m: crate::chart::Mark)
    ensures
        m == severity_mark_of(s),
{
    match s {
        Severity::Critical => crate::chart::Mark::Critical,
        Severity::Warning => crate::chart::Mark::Warning,
        Severity::Info => crate::chart::Mark::Partial,
    }
}

/// Number of findings `(severity, auto-fixable)` of severity `s`.
pub open spec fn count_severity(f: Seq<(Severity, bool)>, s: Severity) -> nat
    decreases f.len(),
{
    if f.len() == 0 {
        0
    } else {
        count_severity(f.drop_last(), s) + if f.last().0 == s {
            1nat
        } else {
            0nat
        }
    }
}

/// Number of auto-fixable findings.
pub open spec fn count_fixable(f: Seq<(Severity, bool)>) -> nat
    decreases f.len(),
{
    if f.len() == 0 {
        0
    } else {
        count_fixable(f.drop_last()) + if f.last().1 {
            1nat
        } else {
            0nat
        }
    }
}

/// The examination's conclusion: the chart context, the closing finding, the
/// next command, and whether the run fails (while a critical finding
/// remains, so that scripts can stop on it).
pub open spec fn conclusion_of(f: Seq<(Severity, bool)>, fix: bool) -> (Seq<char>, Seq<char>, Option<
    Seq<char>,
>, bool) {
    let criticals = count_severity(f, Severity::Critical);
    let warnings = count_severity(f, Severity::Warning);
    let fixable = count_fixable(f);
    if f.len() == 0 {
        ("no findings"@, "Clean bill of health."@, Some("synapse sync --once"@), false)
    } else {
        (
            plural_of(f.len(), "finding"@),
            if criticals > 0 {
                plural_of(criticals, "critical finding"@) + " need a human. "@ + plural_of(
                    warnings,
                    "warning"@,
                ) + " can wait."@
            } else {
                "No critical findings. "@ + plural_of(f.len(), "observation"@) + " noted."@
            },
            if fixable > 0 && !fix {
                Some("synapse doctor --fix"@)
            } else if criticals > 0 {
                None
            } else {
                Some("synapse sync --once"@)
            },
            criticals > 0,
        )
    }
}

/// Judges an examination from its findings `(severity, auto-fixable)`; `fix`
/// tells whether fixes were applied before the findings were taken.
pub fn doctor_conclusion(findings: &Vec<(Severity, bool)>, fix: bool) -> (r: (
    String,
    String,
    Option<String>,
    bool,
))
    ensures
        ({
            let v = conclusion_of(findings@, fix);
            &&& r.0@ == v.0
            &&& r.1@ == v.1
            &&& (r.2 matches Some(n) ==> v.2 == Some(n@))
            &&& (r.2 is None ==> v.2 is None)
            &&& r.3 == v.3
        }),
{
    let mut criticals: usize = 0;
    let mut warnings: usize = 0;
    let mut fixable: usize = 0;
    let mut i: usize = 0;
    while i < findings.len()
        invariant
            i <= findings@.len(),
            criticals == count_severity(findings@.take(i as int), Severity::Critical),
            warnings == count_severity(findings@.take(i as int), Severity::Warning),
            fixable == count_fixable(findings@.take(i as int)),
            criticals <= i && warnings <= i && fixable <= i,
        decreases findings.len() - i,
    {
        proof {
            assert(findings@.take(i + 1).drop_last() =~= findings@.take(i as int));
        }
        let (sev, auto) = findings[i];
        match sev {
            Severity::Critical => {
                criticals = criticals + 1;
            },
            Severity::Warning => {
                warnings = warnings + 1;
            },
            Severity::Info => {},
        }
        if auto {
            fixable = fixable + 1;
        }
        i = i + 1;
    }
    proof {
        assert(findings@.take(i as int) =~= findings@);
    }
    if findings.len() == 0 {
        return (
            owned("no findings"),
            owned("Clean bill of health."),
            Some(owned("synapse sync --once")),
            false,
        );
    }
    let context = crate::chart::plural(findings.len(), "finding");
    let mut finding: Vec<char> = Vec::new();
    if criticals > 0 {
        push_plural(&mut finding, criticals, "critical finding");
        append_str(&mut finding, " need a human. ");
        push_plural(&mut finding, warnings, "warning");
        append_str(&mut finding, " can wait.");
    } else {
        append_str(&mut finding, "No critical findings. ");
        push_plural(&mut finding, findings.len(), "observation");
        append_str(&mut finding, " noted.");
    }
    let next = if fixable > 0 && !fix {
        Some(owned("synapse doctor --fix"))
    } else if criticals > 0 {
        None
    } else {
        Some(owned("synapse sync --once"))
    };
    (context, string_of(&finding), next, criticals > 0)
}

/// The `Fixed` field: how many diagnoses `--fix` applied.
pub open spec fn fixed_note_of(n: nat) -> Seq<char> {
    if n == 1 {
        decimal(n) + " diagnosis"@
    } else {
        decimal(n) + " diagnoses"@
    }
}

/// The `Fixed` field of an examination after `--fix`.
pub fn fixed_note(n: usize) -> (s: String)
    ensures
        s@ == fixed_note_of(n as nat),
{
    let mut v: Vec<char> = Vec::new();
    push_decimal(&mut v, n as u64);
    if n == 1 {
        append_str(&mut v, " diagnosis");
    } else {
        append_str(&mut v, " diagnoses");
    }
    string_of(&v)
}

} // verus!
