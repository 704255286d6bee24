//! Working through a task without being asked: subtasks, their order, progress.

pub mod decomposer;
pub mod runner;
pub mod stall;
pub mod subtask;
