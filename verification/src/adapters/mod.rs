//! Tool adapters: the config formats of the AI tools the Brain projects to.

pub mod agent_docs;
pub mod aider;
pub mod paths;
