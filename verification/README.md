# synapse

SYNAPSE keeps the instructions, skills, agents and MCP servers of many AI
coding tools in one canonical Brain and projects them back out to each tool.
It also compresses the terminal output of agent-run commands, spooling the
raw log so nothing is lost.

This crate is the verified core, written in Verus. Every executable function
in `src/` carries a `requires`/`ensures` contract that Verus proves, except
the few `external_body` wrappers around `std` string functions and
`serde_json`, whose contracts are trusted.

- `src/text.rs`: character-level text operations (lines, joins, trimming,
  splitting, decimal and hex rendering) with their specifications.
- `src/compression.rs`: stream classification, the per-dialect line filters,
  token estimates, spool ids and footers, spool listings and log queries.
- `src/chart.rs`: the clinical-record renderer: marks, colours and every
  chart line.
- `src/model.rs`: the canonical Brain model and MCP transport choice.
- `src/adapters/`: the path-traversal guard, file names as `Path` splits
  them, the aider config format, import and projection, and the import,
  projection and layout of tools that keep skills and agents as
  markdown files and MCP servers in `.mcp.json`.
- `src/json.rs`: JSON documents as the library reads and writes them, and
  the `.mcp.json` merge that keeps values a user filled in.
- `src/brain.rs`: what an import writes into the Brain (paths, target
  defaulting, agent stubs, mapping records) and how a projection over all
  tools concludes.
- `src/sync.rs`: sync outcomes, the three-way divergence test, the conflict
  queued for a skill, the lock path.
- `src/report.rs`: where the Brain and tool roots are, the order of the
  intake chart, and the findings that close the charts.
- `src/config.rs`: the desktop settings model and its paths.

`app/` is the command-line front end around the library: argument parsing,
files, processes and the terminal. It runs `exec`, `filter`, `spool`,
`scan` (over the aider adapter, the one tool adapter it carries) and
`project --dry-run`; the verbs that need the full tool-adapter registry,
content hashing, the doctor rules, git snapshots or the MCP and marketplace
clients report that this executable does not carry them. Imports are
verified in `src/` (`AiderAdapter::import_of`, `ToolLayout::import_of`) over
files the caller has read; symbolic links in a listing are skipped. `tests/` runs the library on concrete
inputs.

Laws proved in `src/` include: every line a dialect's filter always keeps
(`always_kept`: in every dialect each line that mentions an error, unless
it reports a passing test) survives compression; the strict level is silent
on a run whose process succeeded and shows no failure line; `abbreviate`
rewrites only paths that lie under a root; spool listings are newest first and lose no
entry; flat YAML written by the library reads back unchanged; projection
keeps unrelated config keys; agent frontmatter reads back as the same tools;
a slug with a `..` component never yields a path outside the tool root.
