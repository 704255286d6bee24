//! What is remembered: messages as they were, facts taken from them, and patterns
//! that the facts make.

pub mod fact;
pub mod fts;
pub mod pattern;
pub mod raw;
pub mod scribe;
pub mod store;
