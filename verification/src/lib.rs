//! Task records of a hierarchical task tracker, and the forest that their
//! parent references describe.
pub mod api;
pub mod close;
pub mod list;
pub mod text;
