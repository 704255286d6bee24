//! What can be added to the agent: skills and tool servers.

pub mod frontmatter;
pub mod install;
pub mod mcp;
pub mod naming;
pub mod paths;
pub mod skill_document;
pub mod skill_removal;
pub mod skill_resources;
pub mod skills;
pub mod triggers;
