//! Core of a concurrent directory-tree replicator.
//!
//! The library holds the verified logic of the replicator: mapping source
//! paths to destination paths, deciding what to do with each directory entry,
//! the policy that says when a drained source directory may be removed, and
//! the bounded work queue that drives the traversal. A model filesystem lets
//! the whole engine run, and be proved correct, on in-memory trees; the
//! surrounding binary performs the same steps against the real filesystem.

pub mod engine;
pub mod fsmodel;
pub mod guard;
pub mod paths;
pub mod plan;
pub mod sched;
