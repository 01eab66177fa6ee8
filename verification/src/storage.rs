//! Where roots and nodes of changes tries come from.

use crate::nodes::{
    by_hash, contents, db_nodes, found, keccak_256, lemma_nodes_of_by_hash, node_at, nodes_by_hash,
    nodes_of, NodeDb, Nodes,
};
use crate::types::{AnchorBlockId, H256};
use std::collections::BTreeMap;
use vstd::prelude::*;

verus! {

broadcast use vstd::std_specs::btree::group_btree_axioms;

pub open spec fn root_reply(reply: Result<Option<H256>, String>) -> Result<
    Option<Seq<u8>>,
    Seq<char>,
> {
    match reply {
        Ok(Some(root)) => Ok(Some(root@)),
        Ok(None) => Ok(None),
        Err(message) => Err(message@),
    }
}

/// Changes tries roots storage. Provides access to roots of changes tries.
///
/// For as long as a storage is borrowed it answers a question in the same way.
pub trait RootsStorage {
    /// What `root` answers.
    spec fn root_at(&self, anchor: AnchorBlockId, block: u64) -> Result<
        Option<Seq<u8>>,
        Seq<char>,
    >;

    /// Get changes trie root for the block with given number which is an ancestor (or the block
    /// itself) of the anchor block.
    fn root(&self, anchor: &AnchorBlockId, block: u64) -> (reply: Result<Option<H256>, String>)
        ensures
            root_reply(reply) == self.root_at(*anchor, block),
            match self.root_at(*anchor, block) {
                Ok(Some(root)) => reply matches Ok(Some(known)) && known@ == root,
                Ok(None) => reply matches Ok(None),
                Err(message) => reply matches Err(error) && error@ == message,
            },
    ;
}

/// Changes tries storage. Provides access to roots and to trie nodes.
pub trait Storage: RootsStorage {
    /// The nodes that can be read, by their hash.
    spec fn nodes(&self) -> Nodes;

    /// Nodes are stored by their hash.
    proof fn lemma_nodes_by_hash(&self)
        ensures
            nodes_by_hash(self.nodes()),
    ;

    /// Get the trie node with given hash. A node that cannot be read counts as missing.
    fn get(&self, hash: &H256) -> (reply: Result<Option<Vec<u8>>, String>)
        ensures
            match reply {
                Ok(Some(node)) => {
                    &&& self.nodes().contains_key(hash@)
                    &&& node@ == self.nodes()[hash@]
                },
                _ => !self.nodes().contains_key(hash@),
            },
    ;
}

/// In-memory storage of changes tries.
pub struct InMemoryStorage {
    db: NodeDb,
    roots: BTreeMap<u64, H256>,
}

/// The roots in `list`. A later one takes the place of an earlier one of the same block.
pub open spec fn roots_of(list: Seq<(u64, H256)>) -> Map<u64, H256>
    decreases list.len(),
{
    if list.len() == 0 {
        Map::empty()
    } else {
        roots_of(list.drop_last()).insert(list.last().0, list.last().1)
    }
}

/// Of several roots of one block the last one in the list counts.
pub proof fn law_last_root_counts(list: Seq<(u64, H256)>, i: int)
    requires
        0 <= i < list.len(),
        forall|j: int| i < j < list.len() ==> (#[trigger] list[j]).0 != list[i].0,
    ensures
        roots_of(list).contains_key(list[i].0),
        roots_of(list)[list[i].0] == list[i].1,
    decreases list.len(),
{
    let less = list.drop_last();
    if i < less.len() {
        assert(list[less.len() as int].0 != list[i].0);
        assert forall|j: int| i < j < less.len() implies (#[trigger] less[j]).0 != less[i].0 by {
            assert(less[j] == list[j]);
        }
        law_last_root_counts(less, i);
    }
}

/// No root is known of a block that is not in the list.
pub proof fn law_no_other_roots(list: Seq<(u64, H256)>, block: u64)
    requires
        forall|i: int| 0 <= i < list.len() ==> (#[trigger] list[i]).0 != block,
    ensures
        !roots_of(list).contains_key(block),
    decreases list.len(),
{
    if list.len() > 0 {
        let less = list.drop_last();
        assert forall|i: int| 0 <= i < less.len() implies (#[trigger] less[i]).0 != block by {
            assert(less[i] == list[i]);
        }
        law_no_other_roots(less, block);
        assert(list[list.len() - 1].0 != block);
    }
}

impl InMemoryStorage {
    #[verifier::type_invariant]
    spec fn stores_by_hash(&self) -> bool {
        nodes_by_hash(db_nodes(self.db))
    }

    /// The root of the trie of each block.
    pub closed spec fn roots(&self) -> Map<u64, H256> {
        self.roots@
    }

    /// Creates the storage of given trie nodes and roots.
    pub fn new(nodes: &Vec<Vec<u8>>, roots: &Vec<(u64, H256)>) -> (storage: InMemoryStorage)
        ensures
            storage.nodes() == nodes_of(contents(nodes@)),
            storage.roots() == roots_of(roots@),
            forall|anchor: AnchorBlockId, i: int|
                #![trigger storage.root_at(anchor, roots@[i].0)]
                0 <= i < roots@.len() && (forall|j: int|
                    i < j < roots@.len() ==> (#[trigger] roots@[j]).0 != roots@[i].0)
                    ==> storage.root_at(anchor, roots@[i].0) == Ok::<Option<Seq<u8>>, Seq<char>>(
                    Some(roots@[i].1@),
                ),
            forall|anchor: AnchorBlockId, block: u64|
                (forall|i: int| 0 <= i < roots@.len() ==> (#[trigger] roots@[i]).0 != block) ==> (
                #[trigger] storage.root_at(anchor, block)) == Ok::<Option<Seq<u8>>, Seq<char>>(
                    None,
                ),
    {
        let db = NodeDb::of(nodes);
        let mut map: BTreeMap<u64, H256> = BTreeMap::new();
        let mut i: usize = 0;
        while i < roots.len()
            invariant
                i <= roots@.len(),
                map@ == roots_of(roots@.take(i as int)),
            decreases roots@.len() - i,
        {
            let (block, root) = roots[i];
            map.insert(block, root);
            i += 1;
            proof {
                assert(roots@.take(i as int).drop_last() =~= roots@.take(i - 1));
            }
        }
        proof {
            assert(roots@.take(i as int) =~= roots@);
            assert forall|i: int|
                0 <= i < roots@.len() && (forall|j: int|
                    i < j < roots@.len() ==> (#[trigger] roots@[j]).0
                        != roots@[i].0) implies roots_of(roots@).contains_key(
                (#[trigger] roots@[i]).0,
            ) && roots_of(roots@)[roots@[i].0] == roots@[i].1 by {
                law_last_root_counts(roots@, i);
            }
            assert forall|block: u64|
                (forall|i: int| 0 <= i < roots@.len() ==> (#[trigger] roots@[i]).0
                    != block) implies !(#[trigger] roots_of(roots@).contains_key(block)) by {
                law_no_other_roots(roots@, block);
            }
            lemma_nodes_of_by_hash(contents(nodes@));
            assert(by_hash(db_nodes(db)) =~= db_nodes(db));
        }
        InMemoryStorage { db, roots: map }
    }

    /// Creates the storage of the nodes in `db`, without any root.
    pub(crate) fn with_db(db: NodeDb) -> (storage: InMemoryStorage)
        requires
            nodes_by_hash(db_nodes(db)),
        ensures
            storage.nodes() == db_nodes(db),
            storage.roots() == roots_of(Seq::empty()),
    {
        proof {
            assert(by_hash(db_nodes(db)) =~= db_nodes(db));
        }
        InMemoryStorage { db, roots: BTreeMap::new() }
    }

    /// Forgets all nodes. The roots stay.
    pub fn clear_storage(&mut self)
        ensures
            final(self).nodes() == nodes_of(Seq::empty()),
            final(self).nodes() == Map::<Seq<u8>, Seq<u8>>::empty().insert(
                keccak_256(seq![0u8]),
                seq![0u8],
            ),
            final(self).roots() == old(self).roots(),
            forall|anchor: AnchorBlockId, block: u64| #[trigger]
                final(self).root_at(anchor, block) == old(self).root_at(anchor, block),
    {
        let db = NodeDb::new();
        proof {
            lemma_nodes_of_by_hash(Seq::empty());
            assert(by_hash(db_nodes(db)) =~= db_nodes(db));
        }
        self.db = db;
    }
}

impl RootsStorage for InMemoryStorage {
    open spec fn root_at(&self, anchor: AnchorBlockId, block: u64) -> Result<
        Option<Seq<u8>>,
        Seq<char>,
    > {
        if self.roots().contains_key(block) {
            Ok(Some(self.roots()[block]@))
        } else {
            Ok(None)
        }
    }

    fn root(&self, _anchor: &AnchorBlockId, block: u64) -> (reply: Result<Option<H256>, String>) {
        match self.roots.get(&block) {
            Some(root) => Ok(Some(*root)),
            None => Ok(None),
        }
    }
}

impl Storage for InMemoryStorage {
    closed spec fn nodes(&self) -> Nodes {
        by_hash(db_nodes(self.db))
    }

    proof fn lemma_nodes_by_hash(&self) {
    }

    fn get(&self, hash: &H256) -> (reply: Result<Option<Vec<u8>>, String>) {
        proof {
            use_type_invariant(self);
            assert(by_hash(db_nodes(self.db)) =~= db_nodes(self.db));
        }
        let node = self.db.get(hash);
        assert(found(node) == node_at(self.nodes(), hash@));
        Ok(node)
    }
}

} // verus!
