//! Rounds of review, execution and evaluation on one subtask.

pub mod execute;
pub mod promote;
pub mod scheduler;
pub mod scrutinize;
