//! Plain values that the rest of the library speaks of.

use vstd::prelude::*;

verus! {

/// How often digests of the changes are built.
///
/// Every `digest_interval`-th block is a digest of level one. It lists the blocks of its interval
/// in which a key has been changed. Every `digest_interval`-th digest of some level is a digest of
/// the next level too, up to `digest_levels`.
#[derive(Clone, Copy, Debug, PartialEq, Eq)]
pub struct Configuration {
    pub digest_interval: u32,
    pub digest_levels: u32,
}

/// Hash of a trie node or of a block, a Keccak-256 one for nodes.
pub type H256 = [u8; 32];

/// The block at which a query is anchored: roots are looked up on the fork that ends in it.
#[derive(Clone, Copy, Debug, PartialEq, Eq)]
pub struct AnchorBlockId {
    pub hash: H256,
    pub number: u64,
}

} // verus!
