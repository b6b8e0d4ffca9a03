//! Task groups arranged in a tree: a group is stopped together with every
//! group below it.

pub mod error;
pub mod lineage;
pub mod manager;
pub mod signal;
pub mod tree;
pub mod v1;

pub use error::{TaskError, TmResult};
pub use manager::TaskManager;
pub use signal::StopSignal;
