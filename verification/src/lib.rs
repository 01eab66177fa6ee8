//! Which extrinsics have changed a storage key, and in which blocks?
//!
//! Every block has a changes trie that lists the extrinsics of the block by the keys that they
//! changed. Some blocks are digests too: their tries list the earlier blocks in which a key was
//! changed, so that a query over a long range reads few tries. This library answers such queries,
//! makes proofs of the answers and checks them.
//!
//! - [`changes`] has the queries themselves.
//! - [`surface`] finds the digests that span a range, and [`drilldown`] follows them down to the
//!   extrinsics, by way of a [`queue`] of blocks.
//! - [`storage`], [`nodes`], [`trie`] and [`codec`] are about what is read.
//! - [`model`] says what a query finds, and [`digests`], [`faithful`], [`descent`], [`laws`] and
//!   [`truthful`] say what follows from that.

pub mod arith;
pub mod changes;
pub mod codec;
pub mod descent;
pub mod digests;
pub mod drilldown;
pub mod faithful;
pub mod laws;
pub mod model;
pub mod nodes;
pub mod order;
pub mod queue;
pub mod storage;
pub mod surface;
pub mod trie;
pub mod truthful;
pub mod types;
