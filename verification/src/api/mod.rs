//! The records that the task service hands out, and the tools to work with them.
pub mod rest;
