//! Trie nodes and the database that holds them by their hash.

use crate::types::H256;
use hash_db::{HashDB, Hasher, EMPTY_PREFIX};
use keccak_hasher::KeccakHasher;
use memory_db::{HashKey, MemoryDB};
use vstd::multiset::Multiset;
use vstd::prelude::*;

verus! {

/// Trie nodes by their hash.
pub type Nodes = Map<Seq<u8>, Seq<u8>>;

/// The hash of `data`: what `keccak_hasher::KeccakHasher` computes.
pub uninterp spec fn keccak_256(data: Seq<u8>) -> Seq<u8>;

/// The node of an empty trie.
pub open spec fn null_node() -> Seq<u8> {
    seq![0u8]
}

/// A database that holds nothing but the node of an empty trie.
pub open spec fn empty_nodes() -> Nodes {
    Map::empty().insert(keccak_256(null_node()), null_node())
}

/// `nodes` and one more node. What is already there under its hash stays.
pub open spec fn with_node(nodes: Nodes, node: Seq<u8>) -> Nodes {
    if nodes.contains_key(keccak_256(node)) {
        nodes
    } else {
        nodes.insert(keccak_256(node), node)
    }
}

/// The nodes of `list` and the empty node.
pub open spec fn nodes_of(list: Seq<Seq<u8>>) -> Nodes
    decreases list.len(),
{
    if list.len() == 0 {
        empty_nodes()
    } else {
        with_node(nodes_of(list.drop_last()), list.last())
    }
}

/// Every node is stored under its own hash, and the hash of the empty node leads to no other.
pub open spec fn nodes_by_hash(nodes: Nodes) -> bool {
    &&& forall|hash: Seq<u8>| #[trigger]
        nodes.contains_key(hash) ==> keccak_256(nodes[hash]) == hash
    &&& nodes.contains_key(keccak_256(null_node())) ==> nodes[keccak_256(null_node())]
        == null_node()
}

/// The part of `nodes` that is stored by hash.
pub open spec fn by_hash(nodes: Nodes) -> Nodes {
    Map::new(
        |hash: Seq<u8>|
            nodes.contains_key(hash) && keccak_256(nodes[hash]) == hash && (hash == keccak_256(
                null_node(),
            ) ==> nodes[hash] == null_node()),
        |hash: Seq<u8>| nodes[hash],
    )
}

pub proof fn lemma_nodes_of_by_hash(list: Seq<Seq<u8>>)
    ensures
        nodes_by_hash(nodes_of(list)),
        nodes_of(list).contains_key(keccak_256(null_node())),
    decreases list.len(),
{
    if list.len() > 0 {
        lemma_nodes_of_by_hash(list.drop_last());
    }
}

/// A database of listed nodes holds each of them under its hash, the first one if two have the same
/// hash, and the node of an empty trie, which is a single zero. It holds nothing else.
pub proof fn law_nodes_of(list: Seq<Seq<u8>>)
    ensures
        nodes_of(list).contains_key(keccak_256(seq![0u8])),
        nodes_of(list)[keccak_256(seq![0u8])] == seq![0u8],
        forall|i: int|
            0 <= i < list.len() ==> nodes_of(list).contains_key(keccak_256(#[trigger] list[i])),
        forall|i: int|
            0 <= i < list.len() && keccak_256(list[i]) != keccak_256(seq![0u8]) && (forall|j: int|
                0 <= j < i ==> keccak_256(#[trigger] list[j]) != keccak_256(list[i]))
                ==> nodes_of(list)[keccak_256(#[trigger] list[i])] == list[i],
        forall|hash: Seq<u8>| #[trigger]
            nodes_of(list).contains_key(hash) ==> {
                ||| hash == keccak_256(seq![0u8])
                ||| exists|i: int| 0 <= i < list.len() && keccak_256(#[trigger] list[i]) == hash
            },
    decreases list.len(),
{
    assert(null_node() == seq![0u8]);
    if list.len() > 0 {
        let less = list.drop_last();
        let n = list.len() - 1;
        law_nodes_of(less);
        assert forall|i: int| 0 <= i < list.len() implies nodes_of(list).contains_key(
            keccak_256(#[trigger] list[i]),
        ) by {
            if i < n {
                assert(less[i] == list[i]);
            }
        }
        assert forall|i: int|
            0 <= i < list.len() && keccak_256(list[i]) != keccak_256(seq![0u8]) && (forall|j: int|
                0 <= j < i ==> keccak_256(#[trigger] list[j]) != keccak_256(
                    list[i],
                )) implies nodes_of(list)[keccak_256(#[trigger] list[i])] == list[i] by {
            if i < n {
                assert(less[i] == list[i]);
                assert forall|j: int| 0 <= j < i implies keccak_256(#[trigger] less[j])
                    != keccak_256(less[i]) by {
                    assert(less[j] == list[j]);
                }
                assert(nodes_of(less).contains_key(keccak_256(less[i])));
            } else if nodes_of(less).contains_key(keccak_256(list[i])) {
                let j = choose|j: int|
                    0 <= j < less.len() && keccak_256(#[trigger] less[j]) == keccak_256(list[i]);
                assert(less[j] == list[j]);
            }
        }
        assert forall|hash: Seq<u8>| #[trigger] nodes_of(list).contains_key(hash) implies hash
            == keccak_256(seq![0u8]) || (exists|i: int|
            0 <= i < list.len() && keccak_256(#[trigger] list[i]) == hash) by {
            if nodes_of(less).contains_key(hash) && hash != keccak_256(seq![0u8]) {
                let i = choose|i: int|
                    0 <= i < less.len() && keccak_256(#[trigger] less[i]) == hash;
                assert(keccak_256(list[i]) == hash);
            } else if hash != keccak_256(seq![0u8]) {
                assert(keccak_256(list[n]) == hash);
            }
        }
    }
}

/// The contents of byte strings are as many as the strings, and in the same order.
pub proof fn law_contents(strings: Seq<Vec<u8>>)
    ensures
        contents(strings).len() == strings.len(),
        forall|i: int| 0 <= i < strings.len() ==> #[trigger] contents(strings)[i] == strings[i]@,
{
}

/// The contents of byte strings.
pub open spec fn contents(strings: Seq<Vec<u8>>) -> Seq<Seq<u8>> {
    strings.map_values(|string: Vec<u8>| string@)
}

/// An in-memory database of trie nodes, a `memory_db::MemoryDB`.
#[verifier::external_body]
pub struct NodeDb {
    db: MemoryDB<KeccakHasher, HashKey<KeccakHasher>, Vec<u8>>,
}

/// The nodes that can be read from a database.
pub uninterp spec fn db_nodes(db: NodeDb) -> Map<Seq<u8>, Seq<u8>>;

/// How often each hash has been referred to in a database. The empty node is known without being
/// counted.
pub uninterp spec fn db_references(db: NodeDb) -> Multiset<Seq<u8>>;

pub open spec fn found(node: Option<Vec<u8>>) -> Option<Seq<u8>> {
    match node {
        Some(node) => Some(node@),
        None => None,
    }
}

pub open spec fn node_at(nodes: Nodes, hash: Seq<u8>) -> Option<Seq<u8>> {
    if nodes.contains_key(hash) {
        Some(nodes[hash])
    } else {
        None
    }
}

/// The references after `node` has been inserted.
pub open spec fn counted(references: Multiset<Seq<u8>>, node: Seq<u8>) -> Multiset<Seq<u8>> {
    if node == null_node() {
        references
    } else {
        references.insert(keccak_256(node))
    }
}

/// Calls `hash_db::Hasher::hash` of `keccak_hasher::KeccakHasher`.
#[verifier::external_body]
fn hash_node(node: &Vec<u8>) -> (hash: H256)
    ensures
        hash@ == keccak_256(node@),
{
    KeccakHasher::hash(node)
}

impl NodeDb {
    /// Calls `memory_db::MemoryDB::default`, whose result knows the empty node and no other, and
    /// has counted none.
    #[verifier::external_body]
    pub(crate) fn new() -> (db: NodeDb)
        ensures
            db_nodes(db) == empty_nodes(),
            db_references(db) == Multiset::<Seq<u8>>::empty(),
    {
        NodeDb { db: MemoryDB::default() }
    }

    /// Calls `hash_db::HashDB::insert` of the database with the empty prefix. It puts the node
    /// under its hash, unless there is a node already, and returns the hash. It raises the
    /// reference count of that hash, an `i32`, by one, and leaves the database alone if the node
    /// is the empty one.
    #[verifier::external_body]
    pub(crate) fn insert(&mut self, node: &Vec<u8>) -> (hash: H256)
        requires
            db_references(*old(self)).count(keccak_256(node@)) < i32::MAX,
        ensures
            hash@ == keccak_256(node@),
            db_nodes(*final(self)) == with_node(db_nodes(*old(self)), node@),
            db_references(*final(self)) == counted(db_references(*old(self)), node@),
    {
        self.db.insert(EMPTY_PREFIX, node)
    }

    /// Calls `hash_db::HashDB::get` of the database with the empty prefix, which returns the node
    /// under a hash.
    #[verifier::external_body]
    pub(crate) fn get(&self, hash: &H256) -> (node: Option<Vec<u8>>)
        ensures
            found(node) == node_at(db_nodes(*self), hash@),
    {
        HashDB::get(&self.db, hash, EMPTY_PREFIX)
    }

    /// The database of the nodes of `list`. A node that is already there is not inserted again.
    pub(crate) fn of(list: &Vec<Vec<u8>>) -> (db: NodeDb)
        ensures
            db_nodes(db) == nodes_of(contents(list@)),
    {
        let mut db = NodeDb::new();
        let mut i: usize = 0;
        while i < list.len()
            invariant
                i <= list@.len(),
                forall|hash: Seq<u8>| #[trigger]
                    db_references(db).count(hash) > 0 ==> db_nodes(db).contains_key(hash),
                db_nodes(db) == nodes_of(contents(list@.take(i as int))),
            decreases list@.len() - i,
        {
            let hash = hash_node(&list[i]);
            if db.get(&hash).is_none() {
                db.insert(&list[i]);
            }
            i += 1;
            proof {
                let taken = contents(list@.take(i as int));
                assert(taken.drop_last() =~= contents(list@.take(i - 1)));
            }
        }
        proof {
            assert(list@.take(i as int) =~= list@);
        }
        db
    }
}

} // verus!
