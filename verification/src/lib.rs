//! A personal task list that orders work items by a priority that erodes
//! over time: each scheduling step services the most urgent task and boosts
//! the longest-waiting one, so that no task starves.
//!
//! `task` holds the single work item and its priority rules, `order` the
//! comparison rule and a verified stable sort, and `scheduler` the collection
//! with its `step`, `step_and_finish`, `add`, `remove`, `toggle_pause` and
//! load operations. Reading and writing the persisted document is left to
//! the caller; every mutating operation reports whether the collection must
//! be written out afterwards.

mod clock;
pub mod order;
pub mod scheduler;
pub mod task;
