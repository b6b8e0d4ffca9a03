//! The first form of the task manager, with explicitly added groups.

pub mod manager;
