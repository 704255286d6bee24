//! Verified core of a coding agent.

pub mod agent;
pub mod auto;
pub mod cli;
pub mod config;
pub mod extensions;
pub(crate) mod ident;
pub mod json;
pub mod magi;
pub mod memory;
pub mod providers;
pub mod text;
pub mod text_map;
