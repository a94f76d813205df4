//! Records of the REST interface and the forest built from them.
pub mod arena;
mod builder;
mod finish;
pub mod forest;
pub mod laws;
pub mod order;
pub mod outcome;
pub mod steps;
pub mod task;

pub use task::{
    forest_view, zero_to_none, BuildError, DueDate, ExactTime, LabelID, Priority, ProjectID,
    SectionID, TableTask, Task, TaskID, TaskTree, Timestamp, TreeView, UserID, ZonedTimestamp,
};
