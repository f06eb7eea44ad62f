//! A declarative task runner core: a dependency graph over named,
//! shell-backed tasks, a validator that certifies the graph well-formed,
//! a scheduler that computes deterministic run orders, an execution
//! planner, and the debounce state machine behind file watchers.
pub mod model;
pub mod schedule;
pub mod validate;
pub mod execution;
pub mod watch;
