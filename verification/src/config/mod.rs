//! Settings, channels and credentials.

pub mod atomic;
pub mod credentials;
pub mod patch;
pub mod providers;
pub mod settings;
