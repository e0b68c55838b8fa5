//! A transaction log kept as a linked list of string entries.
//!
//! Nodes live in a slot arena and refer to their neighbours by slot number,
//! so a node can be reached from both sides without shared ownership.

pub mod arena;
pub mod better_log;
pub mod chain;
pub mod log;
pub mod model;
pub mod node;
pub mod tracker;

pub use crate::arena::NodeArena;
pub use crate::better_log::BetterTransactionLog;
pub use crate::log::TransactionLog;
pub use crate::node::{Link, Node};
pub use crate::tracker::ListIteratorTracker;
