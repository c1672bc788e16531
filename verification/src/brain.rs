//! What an import writes into the Brain and what a projection reports: the
//! canonical paths of imported skills, agents and MCP servers, target
//! defaulting, the imported agent stub, the mapping records, the defaults of
//! Brain files read back, and the outcome of a projection over all tools.

use vstd::prelude::*;

use crate::model::{string_seq, Agent, McpServer, Skill};
use crate::text::{append_str, chars_of, owned, string_of};

verus! {

/// What an adapter's import found.
pub struct ImportResult {
    pub skills: Vec<Skill>,
    pub agents: Vec<Agent>,
    pub mcp_servers: Vec<McpServer>,
}

/// How a Brain file is kept in sync with its projection.
#[derive(Debug, Clone, Copy, PartialEq, Eq, Structural)]
pub enum ProjectionPolicy {
    Generate,
}

/// The record tying an imported skill to its place in the Brain and in the
/// tool.
pub struct MappingRecord {
    pub tool_id: String,
    pub canonical_path: String,
    pub projection_path: String,
    pub policy: ProjectionPolicy,
    pub content_sha256: String,
}

/// The mathematical value of a skill: id, version, triggers, targets,
/// source and content hash.
pub type SkillV = (Seq<char>, Seq<char>, Seq<Seq<char>>, Seq<Seq<char>>, Seq<char>, Seq<char>);

/// The mathematical value of a skill.
pub open spec fn skill_view(s: Skill) -> SkillV {
    (s.id@, s.version@, string_seq(s.triggers@), string_seq(s.targets@), s.source@, s.sha256@)
}

/// A skill's Brain file: `skills/<id>/SKILL.md`.
pub open spec fn skill_md_path(id: Seq<char>) -> Seq<char> {
    "skills/"@ + id + "/SKILL.md"@
}

/// A skill's metadata file: `skills/<id>/skill.yaml`.
pub open spec fn skill_yaml_path(id: Seq<char>) -> Seq<char> {
    "skills/"@ + id + "/skill.yaml"@
}

/// Where a skill is projected for agents: `.agents/skills/<id>/SKILL.md`.
pub open spec fn agents_projection_path(id: Seq<char>) -> Seq<char> {
    ".agents/skills/"@ + id + "/SKILL.md"@
}

/// An agent's Brain file: `agents/<slug>.md`.
pub open spec fn agent_brain_path(slug: Seq<char>) -> Seq<char> {
    "agents/"@ + slug + ".md"@
}

/// An MCP server's Brain file: `mcp_servers/<id>.json`.
pub open spec fn server_brain_path(id: Seq<char>) -> Seq<char> {
    "mcp_servers/"@ + id + ".json"@
}

/// The agent stub an import writes: its name and first model hint (`auto`
/// when there is none) as frontmatter, then a fixed line.
pub open spec fn agent_stub_of(slug: Seq<char>, hints: Seq<Seq<char>>) -> Seq<char> {
    "---\nname: "@ + slug + "\nmodel: "@ + (if hints.len() > 0 {
        hints[0]
    } else {
        "auto"@
    }) + "\n---\n\nImported agent definition.\n"@
}

/// Targets left empty mean every tool.
pub open spec fn default_targets(targets: Seq<Seq<char>>, all_ids: Seq<Seq<char>>) -> Seq<Seq<char>> {
    if targets.len() == 0 {
        all_ids
    } else {
        targets
    }
}

/// The views of a list of skills.
pub open spec fn skill_views(v: Seq<Skill>) -> Seq<SkillV> {
    v.map_values(|s: Skill| skill_view(s))
}

/// A skill made of plain parts, with one trigger and one target.
pub fn make_skill(id: String, trigger: &str, target: &str, source: String, sha256: String) -> (s:
    Skill)
    ensures
        skill_view(s) == (id@, "1.0.0"@, seq![trigger@], seq![target@], source@, sha256@),
{
    let mut triggers: Vec<String> = Vec::new();
    triggers.push(owned(trigger));
    let mut targets: Vec<String> = Vec::new();
    targets.push(owned(target));
    proof {
        assert(string_seq(triggers@) =~= seq![trigger@]);
        assert(string_seq(targets@) =~= seq![target@]);
    }
    Skill { id, version: owned("1.0.0"), triggers, targets, source, sha256 }
}

fn copy_strings(v: &Vec<String>) -> (out: Vec<String>)
    ensures
        string_seq(out@) == string_seq(v@),
{
    let mut out: Vec<String> = Vec::new();
    let mut i: usize = 0;
    while i < v.len()
        invariant
            i <= v@.len(),
            string_seq(out@) == string_seq(v@).take(i as int),
        decreases v.len() - i,
    {
        let ghost before = out@;
        let c = owned(v[i].as_str());
        out.push(c);
        proof {
            assert(string_seq(out@) =~= string_seq(before).push(c@));
            assert(string_seq(v@).take(i + 1) =~= string_seq(v@).take(i as int).push(v@[i as int]@));
        }
        i = i + 1;
    }
    proof {
        assert(string_seq(v@).take(i as int) =~= string_seq(v@));
    }
    out
}

/// The targets of an imported or read-back item: its own, or every tool
/// when it names none.
pub fn with_default_targets(targets: Vec<String>, all_ids: &Vec<String>) -> (t: Vec<String>)
    ensures
        string_seq(t@) == default_targets(string_seq(targets@), string_seq(all_ids@)),
{
    if targets.len() == 0 {
        copy_strings(all_ids)
    } else {
        targets
    }
}

fn text3(a: &str, b: &str, c: &str) -> (s: String)
    ensures
        s@ == a@ + b@ + c@,
{
    let mut v = chars_of(a);
    append_str(&mut v, b);
    append_str(&mut v, c);
    string_of(&v)
}

/// The stub an import writes for an agent.
pub fn agent_stub(agent: &Agent) -> (r: (String, String))
    ensures
        r.0@ == agent_brain_path(agent.slug@),
        r.1@ == agent_stub_of(agent.slug@, string_seq(agent.model_hints@)),
{
    let mut v = chars_of("---\nname: ");
    append_str(&mut v, agent.slug.as_str());
    append_str(&mut v, "\nmodel: ");
    if agent.model_hints.len() > 0 {
        append_str(&mut v, agent.model_hints[0].as_str());
        assert(string_seq(agent.model_hints@)[0] == agent.model_hints@[0]@);
    } else {
        append_str(&mut v, "auto");
    }
    append_str(&mut v, "\n---\n\nImported agent definition.\n");
    (text3("agents/", agent.slug.as_str(), ".md"), string_of(&v))
}

/// An imported skill with its targets defaulted, the Brain paths of its two
/// files, and its mapping record for the tool it came from.
pub fn import_skill(tool_id: &str, all_ids: &Vec<String>, skill: Skill) -> (r: (
    Skill,
    String,
    String,
    MappingRecord,
))
    ensures
        skill_view(r.0) == (
            skill.id@,
            skill.version@,
            string_seq(skill.triggers@),
            default_targets(string_seq(skill.targets@), string_seq(all_ids@)),
            skill.source@,
            skill.sha256@,
        ),
        r.1@ == skill_md_path(skill.id@),
        r.2@ == skill_yaml_path(skill.id@),
        r.3.tool_id@ == tool_id@,
        r.3.canonical_path@ == skill_md_path(skill.id@),
        r.3.projection_path@ == agents_projection_path(skill.id@),
        r.3.policy == ProjectionPolicy::Generate,
        r.3.content_sha256@ == skill.sha256@,
{
    let md = text3("skills/", skill.id.as_str(), "/SKILL.md");
    let yaml = text3("skills/", skill.id.as_str(), "/skill.yaml");
    let mapping = MappingRecord {
        tool_id: owned(tool_id),
        canonical_path: text3("skills/", skill.id.as_str(), "/SKILL.md"),
        projection_path: text3(".agents/skills/", skill.id.as_str(), "/SKILL.md"),
        policy: ProjectionPolicy::Generate,
        content_sha256: owned(skill.sha256.as_str()),
    };
    let Skill { id, version, triggers, targets, source, sha256 } = skill;
    let targets = with_default_targets(targets, all_ids);
    (Skill { id, version, triggers, targets, source, sha256 }, md, yaml, mapping)
}

/// The Brain file of an imported MCP server.
pub fn server_file(server: &McpServer) -> (p: String)
    ensures
        p@ == server_brain_path(server.id@),
{
    text3("mcp_servers/", server.id.as_str(), ".json")
}

/// The paths an import of one tool's result writes into the Brain, in the
/// order it reports them: each skill's `SKILL.md`, each agent, each server.
pub open spec fn imported_paths(res: ImportResult) -> Seq<Seq<char>> {
    res.skills@.map_values(|s: Skill| skill_md_path(s.id@)) + res.agents@.map_values(
        |a: Agent| agent_brain_path(a.slug@),
    ) + res.mcp_servers@.map_values(|m: McpServer| server_brain_path(m.id@))
}

/// The paths an import of `res` reports.
pub fn import_paths(res: &ImportResult) -> (paths: Vec<String>)
    ensures
        string_seq(paths@) == imported_paths(*res),
{
    let mut out: Vec<String> = Vec::new();
    let ghost a = res.skills@.map_values(|s: Skill| skill_md_path(s.id@));
    let ghost b = res.agents@.map_values(|x: Agent| agent_brain_path(x.slug@));
    let ghost c = res.mcp_servers@.map_values(|m: McpServer| server_brain_path(m.id@));
    let mut i: usize = 0;
    while i < res.skills.len()
        invariant
            i <= res.skills@.len(),
            a == res.skills@.map_values(|s: Skill| skill_md_path(s.id@)),
            string_seq(out@) == a.take(i as int),
        decreases res.skills.len() - i,
    {
        let ghost before = out@;
        let p = text3("skills/", res.skills[i].id.as_str(), "/SKILL.md");
        out.push(p);
        proof {
            assert(string_seq(out@) =~= string_seq(before).push(p@));
            assert(a.take(i + 1) =~= a.take(i as int).push(a[i as int]));
        }
        i = i + 1;
    }
    proof {
        assert(a.take(i as int) =~= a);
    }
    let mut j: usize = 0;
    while j < res.agents.len()
        invariant
            j <= res.agents@.len(),
            b == res.agents@.map_values(|x: Agent| agent_brain_path(x.slug@)),
            string_seq(out@) == a + b.take(j as int),
        decreases res.agents.len() - j,
    {
        let ghost before = out@;
        let p = text3("agents/", res.agents[j].slug.as_str(), ".md");
        out.push(p);
        proof {
            assert(string_seq(out@) =~= string_seq(before).push(p@));
            assert(a + b.take(j + 1) =~= (a + b.take(j as int)).push(b[j as int]));
        }
        j = j + 1;
    }
    proof {
        assert(b.take(j as int) =~= b);
    }
    let mut k: usize = 0;
    while k < res.mcp_servers.len()
        invariant
            k <= res.mcp_servers@.len(),
            c == res.mcp_servers@.map_values(|m: McpServer| server_brain_path(m.id@)),
            string_seq(out@) == a + b + c.take(k as int),
        decreases res.mcp_servers.len() - k,
    {
        let ghost before = out@;
        let p = server_file(&res.mcp_servers[k]);
        out.push(p);
        proof {
            assert(string_seq(out@) =~= string_seq(before).push(p@));
            assert(a + b + c.take(k + 1) =~= (a + b + c.take(k as int)).push(c[k as int]));
        }
        k = k + 1;
    }
    proof {
        assert(c.take(k as int) =~= c);
    }
    out
}

// ── reading the Brain back ──────────────────────────────────────────────

/// A skill found in the Brain as a bare `SKILL.md` (no metadata): named by
/// its directory, version `1.0.0`, triggered always, targeting every tool.
pub fn skill_from_markdown(dir_name: &str, raw: String, sha256: String, all_ids: &Vec<String>) -> (s:
    Skill)
    ensures
        skill_view(s) == (
            dir_name@,
            "1.0.0"@,
            seq!["*"@],
            string_seq(all_ids@),
            raw@,
            sha256@,
        ),
{
    let mut triggers: Vec<String> = Vec::new();
    triggers.push(owned("*"));
    proof {
        assert(string_seq(triggers@) =~= seq!["*"@]);
    }
    Skill {
        id: owned(dir_name),
        version: owned("1.0.0"),
        triggers,
        targets: copy_strings(all_ids),
        source: raw,
        sha256,
    }
}

/// An agent found in the Brain as `agents/<slug>.md`: every tool allowed,
/// model `auto`, targeting every tool.
pub fn agent_from_file(slug: &str, all_ids: &Vec<String>) -> (a: Agent)
    ensures
        a.slug@ == slug@,
        string_seq(a.tools@) == seq!["*"@],
        string_seq(a.model_hints@) == seq!["auto"@],
        string_seq(a.targets@) == string_seq(all_ids@),
{
    let mut tools: Vec<String> = Vec::new();
    tools.push(owned("*"));
    let mut hints: Vec<String> = Vec::new();
    hints.push(owned("auto"));
    proof {
        assert(string_seq(tools@) =~= seq!["*"@]);
        assert(string_seq(hints@) =~= seq!["auto"@]);
    }
    Agent { slug: owned(slug), tools, model_hints: hints, targets: copy_strings(all_ids) }
}

// ── the outcome of a projection ─────────────────────────────────────────

/// The outcome of projecting into every tool, from each tool's id and
/// result (the paths it wrote, or its error): every path written, in tool
/// order, or, when some tool failed, the last failure.
pub open spec fn projection_outcome_of(results: Seq<(Seq<char>, Result<Seq<Seq<char>>, Seq<char>>)>) -> Result<
    Seq<Seq<char>>,
    Seq<char>,
>
    decreases results.len(),
{
    if results.len() == 0 {
        Ok(seq![])
    } else {
        let (id, r) = results.last();
        match r {
            Err(e) => Err("Adapter "@ + id + " project failed: "@ + e),
            Ok(w) => match projection_outcome_of(results.drop_last()) {
                Ok(prev) => Ok(prev + w),
                Err(m) => Err(m),
            },
        }
    }
}

/// The views of the tools' results.
pub open spec fn result_views(v: Seq<(String, Result<Vec<String>, String>)>) -> Seq<
    (Seq<char>, Result<Seq<Seq<char>>, Seq<char>>),
> {
    v.map_values(
        |x: (String, Result<Vec<String>, String>)|
            (
                x.0@,
                match x.1 {
                    Ok(w) => Ok(string_seq(w@)),
                    Err(e) => Err(e@),
                },
            ),
    )
}

/// Concludes a projection over every tool.
pub fn projection_outcome(results: Vec<(String, Result<Vec<String>, String>)>) -> (r: Result<
    Vec<String>,
    String,
>)
    ensures
        match r {
            Ok(w) => projection_outcome_of(result_views(results@)) == Ok::<Seq<Seq<char>>, Seq<char>>(
                string_seq(w@),
            ),
            Err(e) => projection_outcome_of(result_views(results@)) == Err::<
                Seq<Seq<char>>,
                Seq<char>,
            >(e@),
        },
{
    let ghost rv = result_views(results@);
    let mut written: Vec<String> = Vec::new();
    let mut last_err: Option<String> = None;
    let mut i: usize = 0;
    proof {
        assert(rv.take(0) =~= Seq::<(Seq<char>, Result<Seq<Seq<char>>, Seq<char>>)>::empty());
        assert(string_seq(written@) =~= Seq::<Seq<char>>::empty());
    }
    while i < results.len()
        invariant
            i <= results@.len(),
            rv == result_views(results@),
            match last_err {
                None => projection_outcome_of(rv.take(i as int)) == Ok::<Seq<Seq<char>>, Seq<char>>(
                    string_seq(written@),
                ),
                Some(e) => projection_outcome_of(rv.take(i as int)) == Err::<
                    Seq<Seq<char>>,
                    Seq<char>,
                >(e@),
            },
        decreases results.len() - i,
    {
        proof {
            assert(rv.take(i + 1).drop_last() =~= rv.take(i as int));
            assert(rv.take(i + 1).last() == rv[i as int]);
        }
        match &results[i].1 {
            Ok(w) => {
                if last_err.is_none() {
                    let mut k: usize = 0;
                    let ghost start = string_seq(written@);
                    while k < w.len()
                        invariant
                            k <= w@.len(),
                            string_seq(written@) == start + string_seq(w@).take(k as int),
                        decreases w.len() - k,
                    {
                        let ghost before = written@;
                        let c = owned(w[k].as_str());
                        written.push(c);
                        proof {
                            assert(string_seq(written@) =~= string_seq(before).push(c@));
                            assert(start + string_seq(w@).take(k + 1) =~= (start + string_seq(
                                w@,
                            ).take(k as int)).push(w@[k as int]@));
                        }
                        k = k + 1;
                    }
                    proof {
                        assert(string_seq(w@).take(k as int) =~= string_seq(w@));
                    }
                }
            },
            Err(e) => {
                let mut m = chars_of("Adapter ");
                append_str(&mut m, results[i].0.as_str());
                append_str(&mut m, " project failed: ");
                append_str(&mut m, e.as_str());
                last_err = Some(string_of(&m));
            },
        }
        i = i + 1;
    }
    proof {
        assert(rv.take(i as int) =~= rv);
    }
    match last_err {
        Some(e) => Err(e),
        None => Ok(written),
    }
}

} // verus!
