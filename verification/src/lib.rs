//! A persistent, reorganization-safe view of a tree whose ground truth is an
//! append-only log of insertion events emitted by an external ledger.
//!
//! The core is the [`tree_lib::Tree`] value: vertices keyed by insertion
//! index, with ancestor-at-depth lookup, a deepest-branch query and subtree
//! pruning.  Around it sit the event projector and the sync/fold engine that
//! rebuild snapshots from ledger logs, plus a plain table codec for
//! persistence.  Network access, JSON transport and service wiring live
//! outside this crate; they hand plain values in and take plain values back.

pub mod bloom;
pub mod engine;
pub mod error;
pub mod persist;
pub mod tree_codec;
pub mod tree_delegate;
pub mod tree_fold;
pub mod tree_lib;
