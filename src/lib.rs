//! Bounded, iterative, breadth-first directory traversal.
//!
//! The traversal engine is a state machine: it decides, one step at a time,
//! which filesystem operation comes next (open a directory, read its next
//! item, read an item's metadata) and what the caller receives, while the
//! operations themselves are carried out by a driver that hands each answer
//! back as an event. Every decision, every resource bound and the cycle
//! guard live here and are verified: `walker` follows the state machine of
//! `model` step for step; `laws` proves what holds of every step and of one
//! directory read, and `tree_walk` what holds of a whole walk of a tree.
pub mod config;
pub mod entry;
pub mod error;
pub mod laws;
pub mod model;
pub mod tree_walk;
pub mod walker;

pub use config::WalkConfig;
pub use entry::{DirEntry, FileKind};
pub use error::WalkError;
pub use model::DirIdentity;
pub use walker::{walk_dir, walk_dir_max_depth, DirWalker, Event, Step};
