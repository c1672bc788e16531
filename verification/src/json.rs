//! JSON values as the library reads and writes them: the `.mcp.json` files
//! that tools keep their MCP servers in.

use vstd::prelude::*;

use crate::adapters::agent_docs::{missing_env, missing_env_keys, McpEntry};
use crate::model::{string_seq, AdapterError};
use crate::text::owned;

verus! {

/// A JSON value. Numbers keep their text.
pub enum Json {
    Null,
    Bool(bool),
    Number(String),
    Str(String),
    Array(Vec<Json>),
    Object(Vec<(String, Json)>),
}

/// The mathematical value of a JSON document.
pub enum JsonV {
    Null,
    Bool(bool),
    Number(Seq<char>),
    Str(Seq<char>),
    Array(Seq<JsonV>),
    Object(Seq<(Seq<char>, JsonV)>),
}

impl Json {
    pub open spec fn view_of(self) -> JsonV
        decreases self, 0nat,
    {
        match self {
            Json::Null => JsonV::Null,
            Json::Bool(b) => JsonV::Bool(b),
            Json::Number(n) => JsonV::Number(n@),
            Json::Str(s) => JsonV::Str(s@),
            Json::Array(v) => JsonV::Array(views_of(v@)),
            Json::Object(m) => JsonV::Object(entries_of(m@)),
        }
    }
}

pub open spec fn views_of(s: Seq<Json>) -> Seq<JsonV>
    decreases s, 1nat,
{
    if s.len() == 0 {
        seq![]
    } else {
        views_of(s.subrange(0, s.len() - 1)).push(s[s.len() - 1].view_of())
    }
}

pub open spec fn entries_of(m: Seq<(String, Json)>) -> Seq<(Seq<char>, JsonV)>
    decreases m, 1nat,
{
    if m.len() == 0 {
        seq![]
    } else {
        entries_of(m.subrange(0, m.len() - 1)).push((m[m.len() - 1].0@, m[m.len() - 1].1.view_of()))
    }
}

/// `serde_json::Value`, carried through the conversions below.
#[verifier::external_type_specification]
#[verifier::external_body]
pub struct ExJsonValue(serde_json::Value);

/// Converts a `serde_json::Value` into the library's `Json`, one variant
/// for one (numbers by their text). Claims nothing: only `parse_json`
/// calls it.
#[verifier::external_body]
fn json_from_value(v: &serde_json::Value) -> Json {
    match v {
        serde_json::Value::Null => Json::Null,
        serde_json::Value::Bool(b) => Json::Bool(*b),
        serde_json::Value::Number(n) => Json::Number(n.to_string()),
        serde_json::Value::String(s) => Json::Str(s.clone()),
        serde_json::Value::Array(a) => Json::Array(a.iter().map(json_from_value).collect()),
        serde_json::Value::Object(m) => Json::Object(
            m.iter().map(|(k, x)| (k.clone(), json_from_value(x))).collect(),
        ),
    }
}

/// Converts the library's `Json` back into a `serde_json::Value`, one
/// variant for one. Claims nothing: only `json_pretty` calls it.
#[verifier::external_body]
fn value_of(j: &Json) -> serde_json::Value {
    match j {
        Json::Null => serde_json::Value::Null,
        Json::Bool(b) => serde_json::Value::Bool(*b),
        Json::Number(n) => n.parse().map(serde_json::Value::Number).unwrap_or(serde_json::Value::Null),
        Json::Str(s) => serde_json::Value::String(s.clone()),
        Json::Array(a) => serde_json::Value::Array(a.iter().map(value_of).collect()),
        Json::Object(m) => serde_json::Value::Object(
            m.iter().map(|(k, x)| (k.clone(), value_of(x))).collect(),
        ),
    }
}

/// What `serde_json::from_str::<Value>` makes of a text: the document, or
/// the message of the syntax error. A function of the text alone.
pub uninterp spec fn json_read(text: Seq<char>) -> Result<JsonV, Seq<char>>;

/// `serde_json::from_str::<serde_json::Value>`: parses a JSON document.
/// Claims only that the result, document or error message, is the named
/// `json_read` of the text.
#[verifier::external_body]
pub(crate) fn parse_json(text: &str) -> (r: Result<Json, String>)
    ensures
        json_read(text@) == match r {
            Ok(j) => Ok::<JsonV, Seq<char>>(j.view_of()),
            Err(m) => Err::<JsonV, Seq<char>>(m@),
        },
{
    match serde_json::from_str::<serde_json::Value>(text) {
        Ok(v) => Ok(json_from_value(&v)),
        Err(e) => Err(e.to_string()),
    }
}

/// What `serde_json::to_string_pretty` writes for a document (objects with
/// their keys in order, as serde_json's map keeps them). A function of the
/// document alone.
pub uninterp spec fn json_text(j: JsonV) -> Seq<char>;

/// `serde_json::to_string_pretty`: writes a document with two-space
/// indentation. Claims only that the text is the named `json_text` of the
/// document.
#[verifier::external_body]
pub(crate) fn json_pretty(j: &Json) -> (s: String)
    ensures
        s@ == json_text(j.view_of()),
{
    serde_json::to_string_pretty(&value_of(j)).unwrap_or_default()
}

// ── objects ─────────────────────────────────────────────────────────────

/// Index of the first member named `k`, or `m.len()`.
pub open spec fn key_pos(m: Seq<(Seq<char>, JsonV)>, k: Seq<char>) -> int
    decreases m.len(),
{
    if m.len() == 0 {
        0
    } else if m[0].0 == k {
        0
    } else {
        1 + key_pos(m.drop_first(), k)
    }
}

proof fn lemma_key_pos_at(m: Seq<(Seq<char>, JsonV)>, k: Seq<char>, i: int)
    requires
        0 <= i <= m.len(),
        forall|j: int| 0 <= j < i ==> (#[trigger] m[j]).0 != k,
        i == m.len() || m[i].0 == k,
    ensures
        key_pos(m, k) == i,
    decreases i,
{
    if i > 0 {
        let t = m.drop_first();
        assert forall|j: int| 0 <= j < i - 1 implies (#[trigger] t[j]).0 != k by {
            assert(t[j] == m[j + 1]);
        }
        if i < m.len() {
            assert(t[i - 1] == m[i]);
        }
        lemma_key_pos_at(t, k, i - 1);
    }
}

/// The members with `k` set to `v`: the old member named `k` (if any) taken
/// out, and `(k, v)` added last. (Serialised objects list their keys in
/// order, so the place does not show in the file.)
pub open spec fn put(m: Seq<(Seq<char>, JsonV)>, k: Seq<char>, v: JsonV) -> Seq<(Seq<char>, JsonV)> {
    let i = key_pos(m, k);
    if i < m.len() {
        m.remove(i).push((k, v))
    } else {
        m.push((k, v))
    }
}

/// The `env` members of an existing server entry: empty unless the entry is
/// an object whose `env` is an object.
pub open spec fn env_of(server: Option<JsonV>) -> Seq<(Seq<char>, JsonV)> {
    match server {
        Some(JsonV::Object(f)) => {
            let p = key_pos(f, "env"@);
            if p < f.len() {
                match f[p].1 {
                    JsonV::Object(e) => e,
                    _ => seq![],
                }
            } else {
                seq![]
            }
        },
        _ => seq![],
    }
}

/// The environment with every still-missing placeholder added as `""`.
pub open spec fn with_placeholders(env: Seq<(Seq<char>, JsonV)>, ph: Seq<Seq<char>>) -> Seq<
    (Seq<char>, JsonV),
> {
    env + missing_env_keys(env.map_values(|e: (Seq<char>, JsonV)| e.0), ph).map_values(
        |k: Seq<char>| (k, JsonV::Str(seq![])),
    )
}

/// A server entry: `{"command", "args", "env"}`.
pub open spec fn server_json(cmd: Seq<char>, args: Seq<Seq<char>>, env: Seq<(Seq<char>, JsonV)>) -> JsonV {
    JsonV::Object(
        seq![
            ("command"@, JsonV::Str(cmd)),
            ("args"@, JsonV::Array(args.map_values(|a: Seq<char>| JsonV::Str(a)))),
            ("env"@, JsonV::Object(env)),
        ],
    )
}

/// The `mcpServers` members after writing each entry `(id, command, args,
/// placeholders)` in turn, keeping the environment values already there.
pub open spec fn merge_servers(
    servers: Seq<(Seq<char>, JsonV)>,
    entries: Seq<(Seq<char>, Seq<char>, Seq<Seq<char>>, Seq<Seq<char>>)>,
) -> Seq<(Seq<char>, JsonV)>
    decreases entries.len(),
{
    if entries.len() == 0 {
        servers
    } else {
        let prev = merge_servers(servers, entries.drop_last());
        let e = entries.last();
        let p = key_pos(prev, e.0);
        let old = if p < prev.len() {
            Some(prev[p].1)
        } else {
            None
        };
        put(prev, e.0, server_json(e.1, e.2, with_placeholders(env_of(old), e.3)))
    }
}

/// The MCP config after writing `entries` into `existing` (an empty object
/// when there is none), or the message of why it cannot be written to.
pub open spec fn merged_mcp(
    existing: Option<JsonV>,
    entries: Seq<(Seq<char>, Seq<char>, Seq<Seq<char>>, Seq<Seq<char>>)>,
) -> Result<JsonV, Seq<char>> {
    let root = match existing {
        Some(j) => j,
        None => JsonV::Object(seq![]),
    };
    match root {
        JsonV::Object(top) => {
            let p = key_pos(top, "mcpServers"@);
            let servers = if p < top.len() {
                match top[p].1 {
                    JsonV::Object(s) => Some(s),
                    _ => None,
                }
            } else {
                Some(seq![])
            };
            match servers {
                Some(s) => Ok(JsonV::Object(put(top, "mcpServers"@, JsonV::Object(merge_servers(s, entries))))),
                None => Err("mcpServers is not an object"@),
            }
        },
        _ => Err(".mcp.json root is not an object"@),
    }
}

// ── the executable side ─────────────────────────────────────────────────

pub proof fn lemma_entries_index(m: Seq<(String, Json)>)
    ensures
        entries_of(m).len() == m.len(),
        forall|j: int| 0 <= j < m.len() ==> #[trigger] entries_of(m)[j] == (m[j].0@, m[j].1.view_of()),
    decreases m.len(),
{
    if m.len() > 0 {
        let f = m.subrange(0, m.len() - 1);
        lemma_entries_index(f);
        assert forall|j: int| 0 <= j < m.len() implies #[trigger] entries_of(m)[j] == (
            m[j].0@,
            m[j].1.view_of(),
        ) by {
            if j < m.len() - 1 {
                assert(f[j] == m[j]);
            }
        }
    }
}

proof fn lemma_views_index(v: Seq<Json>)
    ensures
        views_of(v).len() == v.len(),
        forall|j: int| 0 <= j < v.len() ==> #[trigger] views_of(v)[j] == v[j].view_of(),
    decreases v.len(),
{
    if v.len() > 0 {
        let f = v.subrange(0, v.len() - 1);
        lemma_views_index(f);
        assert forall|j: int| 0 <= j < v.len() implies #[trigger] views_of(v)[j] == v[j].view_of() by {
            if j < v.len() - 1 {
                assert(f[j] == v[j]);
            }
        }
    }
}

fn find_key(m: &Vec<(String, Json)>, k: &str) -> (i: usize)
    ensures
        i as int == key_pos(entries_of(m@), k@),
        i <= m@.len(),
{
    proof {
        lemma_entries_index(m@);
    }
    let ghost ev = entries_of(m@);
    let mut i: usize = 0;
    while i < m.len()
        invariant
            i <= m@.len(),
            ev == entries_of(m@),
            ev.len() == m@.len(),
            forall|j: int| 0 <= j < m@.len() ==> #[trigger] ev[j] == (m@[j].0@, m@[j].1.view_of()),
            forall|j: int| 0 <= j < i ==> (#[trigger] ev[j]).0 != k@,
        decreases m.len() - i,
    {
        let a = crate::text::chars_of(m[i].0.as_str());
        let b = crate::text::chars_of(k);
        if crate::text::equals_chars(&a, &b) {
            proof {
                lemma_key_pos_at(ev, k@, i as int);
            }
            return i;
        }
        assert(ev[i as int].0 == m@[i as int].0@);
        i = i + 1;
    }
    proof {
        lemma_key_pos_at(ev, k@, i as int);
    }
    i
}

/// Takes out the member at `i`.
fn take_member(m: &mut Vec<(String, Json)>, i: usize) -> (x: (String, Json))
    requires
        i < old(m)@.len(),
    ensures
        entries_of(final(m)@) == entries_of(old(m)@).remove(i as int),
        (x.0@, x.1.view_of()) == entries_of(old(m)@)[i as int],
{
    let ghost before = m@;
    let x = m.remove(i);
    proof {
        lemma_entries_index(before);
        lemma_entries_index(m@);
        assert(entries_of(m@) =~= entries_of(before).remove(i as int));
    }
    x
}

/// Adds a member last.
fn push_member(m: &mut Vec<(String, Json)>, k: String, v: Json)
    ensures
        entries_of(final(m)@) == entries_of(old(m)@).push((k@, v.view_of())),
{
    let ghost before = m@;
    m.push((k, v));
    proof {
        lemma_entries_index(before);
        lemma_entries_index(m@);
        assert(entries_of(m@) =~= entries_of(before).push((k@, v.view_of())));
    }
}

/// Sets member `k` to `v` as `put` does.
fn put_member(m: &mut Vec<(String, Json)>, k: &str, v: Json)
    ensures
        entries_of(final(m)@) == put(entries_of(old(m)@), k@, v.view_of()),
{
    proof {
        lemma_entries_index(old(m)@);
    }
    let i = find_key(m, k);
    if i < m.len() {
        let _ = take_member(m, i);
    }
    push_member(m, owned(k), v);
}

fn env_from(old: Option<Json>) -> (e: Vec<(String, Json)>)
    ensures
        entries_of(e@) == env_of(
            match old {
                Some(j) => Some(j.view_of()),
                None => None,
            },
        ),
{
    match old {
        Some(Json::Object(f)) => {
            let mut f = f;
            proof {
                lemma_entries_index(f@);
            }
            let p = find_key(&f, "env");
            if p < f.len() {
                let (_, v) = take_member(&mut f, p);
                match v {
                    Json::Object(e) => e,
                    _ => Vec::new(),
                }
            } else {
                Vec::new()
            }
        },
        _ => Vec::new(),
    }
}

fn copy_text(s: &String) -> (c: String)
    ensures
        c@ == s@,
{
    owned(s.as_str())
}

fn env_with_placeholders(env: Vec<(String, Json)>, ph: &Vec<String>) -> (out: Vec<(String, Json)>)
    ensures
        entries_of(out@) == with_placeholders(entries_of(env@), string_seq(ph@)),
{
    let ghost ev = entries_of(env@);
    proof {
        lemma_entries_index(env@);
    }
    let mut keys: Vec<String> = Vec::new();
    let mut i: usize = 0;
    while i < env.len()
        invariant
            i <= env@.len(),
            ev == entries_of(env@),
            ev.len() == env@.len(),
            forall|j: int| 0 <= j < env@.len() ==> #[trigger] ev[j] == (env@[j].0@, env@[j].1.view_of()),
            string_seq(keys@) == ev.map_values(|e: (Seq<char>, JsonV)| e.0).take(i as int),
        decreases env.len() - i,
    {
        let ghost before = keys@;
        let k = copy_text(&env[i].0);
        keys.push(k);
        proof {
            assert(string_seq(keys@) =~= string_seq(before).push(k@));
            assert(ev.map_values(|e: (Seq<char>, JsonV)| e.0).take(i + 1) =~= ev.map_values(
                |e: (Seq<char>, JsonV)| e.0,
            ).take(i as int).push(ev[i as int].0));
        }
        i = i + 1;
    }
    proof {
        assert(ev.map_values(|e: (Seq<char>, JsonV)| e.0).take(i as int) =~= ev.map_values(
            |e: (Seq<char>, JsonV)| e.0,
        ));
    }
    let missing = missing_env(&keys, ph);
    let ghost mv = string_seq(missing@);
    let mut out = env;
    let mut k: usize = 0;
    while k < missing.len()
        invariant
            k <= missing@.len(),
            mv == string_seq(missing@),
            entries_of(out@) == ev + mv.take(k as int).map_values(
                |x: Seq<char>| (x, JsonV::Str(seq![])),
            ),
        decreases missing.len() - k,
    {
        let name = copy_text(&missing[k]);
        push_member(&mut out, name, Json::Str(String::new()));
        proof {
            assert(mv[k as int] == missing@[k as int]@);
            assert(ev + mv.take(k + 1).map_values(|x: Seq<char>| (x, JsonV::Str(seq![]))) =~= (ev
                + mv.take(k as int).map_values(|x: Seq<char>| (x, JsonV::Str(seq![])))).push(
                (name@, JsonV::Str(seq![])),
            ));
        }
        k = k + 1;
    }
    proof {
        assert(mv.take(k as int) =~= mv);
    }
    out
}

fn server_entry(cmd: &String, args: &Vec<String>, env: Vec<(String, Json)>) -> (j: Json)
    ensures
        j.view_of() == server_json(cmd@, string_seq(args@), entries_of(env@)),
{
    let mut arr: Vec<Json> = Vec::new();
    let mut i: usize = 0;
    while i < args.len()
        invariant
            i <= args@.len(),
            views_of(arr@) == string_seq(args@).take(i as int).map_values(|a: Seq<char>| JsonV::Str(a)),
        decreases args.len() - i,
    {
        let ghost before = arr@;
        let a = Json::Str(copy_text(&args[i]));
        arr.push(a);
        proof {
            lemma_views_index(before);
            lemma_views_index(arr@);
            assert(views_of(arr@) =~= views_of(before).push(a.view_of()));
            assert(string_seq(args@).take(i + 1).map_values(|a: Seq<char>| JsonV::Str(a)) =~= string_seq(
                args@,
            ).take(i as int).map_values(|a: Seq<char>| JsonV::Str(a)).push(JsonV::Str(args@[i as int]@)));
        }
        i = i + 1;
    }
    proof {
        assert(string_seq(args@).take(i as int) =~= string_seq(args@));
    }
    let mut fields: Vec<(String, Json)> = Vec::new();
    push_member(&mut fields, owned("command"), Json::Str(copy_text(cmd)));
    push_member(&mut fields, owned("args"), Json::Array(arr));
    push_member(&mut fields, owned("env"), Json::Object(env));
    let j = Json::Object(fields);
    proof {
        assert(entries_of(fields@) =~= seq![
            ("command"@, JsonV::Str(cmd@)),
            ("args"@, JsonV::Array(string_seq(args@).map_values(|a: Seq<char>| JsonV::Str(a)))),
            ("env"@, JsonV::Object(entries_of(env@))),
        ]);
    }
    j
}

/// Writes MCP server entries into a tool's MCP config (`existing`, or an
/// empty object when the file does not exist yet): each server under
/// `mcpServers` gets its command, arguments and environment, where values a
/// user already filled in are kept and missing placeholders are added
/// empty. A config whose root or `mcpServers` is not an object is refused.
pub fn merged_mcp_json(existing: Option<Json>, entries: &[McpEntry]) -> (r: Result<Json, AdapterError>)
    ensures
        ({
            let want = merged_mcp(
                match existing {
                    Some(j) => Some(j.view_of()),
                    None => None,
                },
                crate::adapters::agent_docs::entry_views(entries@),
            );
            match r {
                Ok(j) => want == Ok::<JsonV, Seq<char>>(j.view_of()),
                Err(e) => e matches AdapterError::Malformed(m) && want == Err::<JsonV, Seq<char>>(m@),
            }
        }),
{
    let root = match existing {
        Some(j) => j,
        None => Json::Object(Vec::new()),
    };
    let mut top = match root {
        Json::Object(t) => t,
        _ => {
            return Err(AdapterError::Malformed(owned(".mcp.json root is not an object")));
        },
    };
    let ghost top0 = entries_of(top@);
    proof {
        lemma_entries_index(top@);
    }
    let p = find_key(&top, "mcpServers");
    let mut servers: Vec<(String, Json)> = if p < top.len() {
        let (_, v) = take_member(&mut top, p);
        match v {
            Json::Object(s) => s,
            _ => {
                return Err(AdapterError::Malformed(owned("mcpServers is not an object")));
            },
        }
    } else {
        Vec::new()
    };
    let ghost s0 = entries_of(servers@);
    let ghost ev = crate::adapters::agent_docs::entry_views(entries@);
    let mut i: usize = 0;
    proof {
        assert(ev.take(0) =~= Seq::<(Seq<char>, Seq<char>, Seq<Seq<char>>, Seq<Seq<char>>)>::empty());
    }
    while i < entries.len()
        invariant
            i <= entries@.len(),
            ev == crate::adapters::agent_docs::entry_views(entries@),
            entries_of(servers@) == merge_servers(s0, ev.take(i as int)),
        decreases entries.len() - i,
    {
        proof {
            assert(ev.take(i + 1).drop_last() =~= ev.take(i as int));
            assert(ev.take(i + 1).last() == ev[i as int]);
        }
        let e = &entries[i];
        let ghost prev = entries_of(servers@);
        proof {
            lemma_entries_index(servers@);
            assert(ev[i as int] == (e.id@, e.command@, string_seq(e.args@), string_seq(
                e.env_placeholders@,
            )));
        }
        let q = find_key(&servers, e.id.as_str());
        let old = if q < servers.len() {
            let (_, v) = take_member(&mut servers, q);
            Some(v)
        } else {
            None
        };
        let env = env_with_placeholders(env_from(old), &e.env_placeholders);
        let server = server_entry(&e.command, &e.args, env);
        push_member(&mut servers, copy_text(&e.id), server);
        i = i + 1;
    }
    proof {
        assert(ev.take(i as int) =~= ev);
    }
    push_member(&mut top, owned("mcpServers"), Json::Object(servers));
    Ok(Json::Object(top))
}

// ── reading MCP servers ─────────────────────────────────────────────────

/// The server table of an MCP config: the object under `mcpServers`, else
/// under `mcp_servers`; empty when the first of these that exists is not an
/// object, or when neither does.
pub open spec fn server_table(doc: JsonV) -> Seq<(Seq<char>, JsonV)> {
    match doc {
        JsonV::Object(top) => {
            let p = key_pos(top, "mcpServers"@);
            let q = key_pos(top, "mcp_servers"@);
            let v = if p < top.len() {
                Some(top[p].1)
            } else if q < top.len() {
                Some(top[q].1)
            } else {
                None
            };
            match v {
                Some(JsonV::Object(m)) => m,
                _ => seq![],
            }
        },
        _ => seq![],
    }
}

/// What reading a tool's MCP config file named `file` gives: its server
/// table, or the message for text that is not JSON.
pub open spec fn server_table_of(text: Seq<char>, file: Seq<char>) -> Result<
    Seq<(Seq<char>, JsonV)>,
    Seq<char>,
> {
    match json_read(text) {
        Ok(j) => Ok(server_table(j)),
        Err(e) => Err("Invalid JSON in "@ + file + ": "@ + e),
    }
}

/// The server table from the result of parsing a tool's MCP config file
/// named `file`: the table of the document, or the message for a parse
/// error.
pub fn server_table_from(doc: Result<Json, String>, file: &str) -> (r: Result<
    Vec<(String, Json)>,
    AdapterError,
>)
    ensures
        ({
            let want: Result<Seq<(Seq<char>, JsonV)>, Seq<char>> = match doc {
                Ok(j) => Ok(server_table(j.view_of())),
                Err(e) => Err("Invalid JSON in "@ + file@ + ": "@ + e@),
            };
            match r {
                Ok(t) => want == Ok::<Seq<(Seq<char>, JsonV)>, Seq<char>>(entries_of(t@)),
                Err(e) => e matches AdapterError::Malformed(m) && want == Err::<
                    Seq<(Seq<char>, JsonV)>,
                    Seq<char>,
                >(m@),
            }
        }),
{
    let doc = match doc {
        Ok(j) => j,
        Err(e) => {
            let mut m = crate::text::chars_of("Invalid JSON in ");
            crate::text::append_str(&mut m, file);
            crate::text::append_str(&mut m, ": ");
            crate::text::append_str(&mut m, e.as_str());
            return Err(AdapterError::Malformed(crate::text::string_of(&m)));
        },
    };
    match doc {
        Json::Object(top) => {
            let mut top = top;
            proof {
                lemma_entries_index(top@);
            }
            let p = find_key(&top, "mcpServers");
            let q = find_key(&top, "mcp_servers");
            let v = if p < top.len() {
                let (_, v) = take_member(&mut top, p);
                Some(v)
            } else if q < top.len() {
                let (_, v) = take_member(&mut top, q);
                Some(v)
            } else {
                None
            };
            match v {
                Some(Json::Object(m)) => Ok(m),
                _ => Ok(Vec::new()),
            }
        },
        _ => Ok(Vec::new()),
    }
}

/// Reads the MCP server table, `(id, entry)` in order, out of the text of a
/// tool's MCP config file named `file`.
pub fn mcp_server_table(text: &str, file: &str) -> (r: Result<Vec<(String, Json)>, AdapterError>)
    ensures
        match r {
            Ok(t) => server_table_of(text@, file@) == Ok::<Seq<(Seq<char>, JsonV)>, Seq<char>>(
                entries_of(t@),
            ),
            Err(e) => e matches AdapterError::Malformed(m) && server_table_of(text@, file@) == Err::<
                Seq<(Seq<char>, JsonV)>,
                Seq<char>,
            >(m@),
        },
{
    server_table_from(parse_json(text), file)
}

} // verus!
