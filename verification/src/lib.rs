//! The storage of a blockchain ledger: a block-oriented, Merkle-authenticated
//! key-value engine, and the rules of the accounts that are built into it.
//!
//! Writes are staged in a write log, flushed to an ordered byte store as one
//! atomic batch per block, and mirrored into a sparse Merkle tree whose root
//! commits to the whole state. Every block leaves behind the records needed
//! to read the state, and to rebuild the tree, as of any retained height.
//!
//! - [`storage`] is the engine; [`store`], [`write_log`], [`merkle`] and
//!   [`key`] are what it is made of.
//! - [`layout`], [`commit`], [`snapshot`] and [`prune`] say what the engine
//!   writes to the byte store and what the stored records mean.
//! - [`soundness`] and [`laws`] state what holds of the engine across its
//!   operations.
//! - [`governance`], [`ibc`], [`conversions`] and [`conversion_state`] hold
//!   the rules by which changes to the state of the built-in accounts are
//!   judged and made.

pub mod bytes;
pub mod commit;
pub mod conversion_state;
pub mod conversions;
pub mod ordered;
pub mod digest;
pub mod encoding;
pub mod error;
pub mod gas;
pub mod governance;
pub mod header;
pub mod ibc;
pub mod image;
pub mod soundness;
pub mod key;
pub mod laws;
pub mod layout;
pub mod merkle;
pub mod prefix_iter;
pub mod prune;
pub mod snapshot;
pub mod storage;
pub mod store;
pub mod write_log;
