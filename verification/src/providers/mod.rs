//! What is exchanged with a language model provider.

pub mod trait_def;
