//! The agent loop: tool chains, context, compression, retries.

pub mod compression;
pub mod context;
pub mod error_withholding;
pub mod forge;
pub mod forge_run;
pub mod forge_turn;
pub mod stream;
pub mod stream_turn;
pub mod tool_chain;
pub mod tool_loop;
