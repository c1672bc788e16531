//! The canonical Brain model: skills, agents and MCP servers as the adapters
//! read and write them.

use vstd::prelude::*;

use crate::text::{chars_of, owned, starts_with, starts_with_str};

verus! {

/// A skill: a piece of instruction text, the tools it targets and its
/// content hash.
#[derive(Debug, Clone, PartialEq, Eq)]
pub struct Skill {
    pub id: String,
    pub version: String,
    pub triggers: Vec<String>,
    pub targets: Vec<String>,
    pub source: String,
    pub sha256: String,
}

/// An agent definition: its slug, allowed tools, model hints and targets.
#[derive(Debug, Clone, PartialEq, Eq)]
pub struct Agent {
    pub slug: String,
    pub tools: Vec<String>,
    pub model_hints: Vec<String>,
    pub targets: Vec<String>,
}

/// The last known health of an MCP server.
#[derive(Debug, Clone, Copy, PartialEq, Eq, Structural)]
pub enum HealthStatus {
    Unknown,
    Healthy,
    Unreachable,
}

/// An MCP server: a stdio command line or a URL, the environment variables
/// it needs, and the tools it is projected to.
#[derive(Debug, Clone, PartialEq, Eq)]
pub struct McpServer {
    pub id: String,
    pub transport: String,
    pub command_or_url: String,
    pub env_placeholders: Vec<String>,
    pub targets: Vec<String>,
    pub health: HealthStatus,
}

/// Errors an adapter reports.
#[derive(Debug, Clone, PartialEq, Eq)]
pub enum AdapterError {
    /// A file could not be read or written.
    Io(String),
    /// A config file or an input does not have the expected shape.
    Malformed(String),
}

/// The views of a list of strings.
pub open spec fn string_seq(v: Seq<String>) -> Seq<Seq<char>> {
    v.map_values(|s: String| s@)
}

/// Whether `targets` names the tool `id`.
pub open spec fn targets_tool(targets: Seq<String>, id: Seq<char>) -> bool {
    exists|i: int| 0 <= i < targets.len() && #[trigger] targets[i]@ == id
}

/// Whether a server is reached over the network: its target is an
/// `http://` or `https://` URL.
pub open spec fn is_remote(command_or_url: Seq<char>) -> bool {
    starts_with(command_or_url, "http://"@) || starts_with(command_or_url, "https://"@)
}

/// The transport of a server given by a command line or a URL:
/// `streamable-http` for an `http(s)://` URL, `stdio` for anything else.
pub fn transport_for(command_or_url: &str) -> (t: String)
    ensures
        t@ == (if is_remote(command_or_url@) { "streamable-http"@ } else { "stdio"@ }),
{
    let c = chars_of(command_or_url);
    if starts_with_str(&c, "http://") || starts_with_str(&c, "https://") {
        owned("streamable-http")
    } else {
        owned("stdio")
    }
}

} // verus!
