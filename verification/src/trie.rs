//! Reading values from a trie whose nodes lie in a storage.

use crate::nodes::{contents, found, node_at, nodes_by_hash, Nodes};
use crate::storage::Storage;
use crate::types::H256;
use hash_db::{HashDBRef, Prefix};
use keccak_hasher::KeccakHasher;
use reference_trie::RefTrieDB;
use trie_db::{Recorder, Trie};
use vstd::prelude::*;

verus! {

/// The hasher by which nodes are addressed.
#[verifier::external_type_specification]
#[verifier::external_body]
pub struct ExKeccakHasher(keccak_hasher::KeccakHasher);

/// The list of nodes that lookups have passed through.
#[verifier::external_type_specification]
#[verifier::external_body]
#[verifier::reject_recursive_types(HO)]
pub struct ExRecorder<HO>(trie_db::Recorder<HO>);

/// Presents a storage to the trie as a read-only database of nodes.
pub struct TrieBackendAdapter<'a, S: Storage> {
    storage: &'a S,
}

impl<'a, S: Storage> TrieBackendAdapter<'a, S> {
    pub closed spec fn nodes(&self) -> Nodes {
        self.storage.nodes()
    }

    pub fn new(storage: &'a S) -> (adapter: Self)
        ensures
            adapter.nodes() == storage.nodes(),
    {
        TrieBackendAdapter { storage }
    }
}

impl<'a, S: Storage> HashDBRef<KeccakHasher, Vec<u8>> for TrieBackendAdapter<'a, S> {
    fn get(&self, key: &[u8; 32], _prefix: Prefix) -> (node: Option<Vec<u8>>)
        ensures
            found(node) == node_at(self.nodes(), key@),
            match node {
                Some(node) => self.nodes().contains_key(key@) && node@ == self.nodes()[key@],
                None => !self.nodes().contains_key(key@),
            },
    {
        match self.storage.get(key) {
            Ok(node) => node,
            Err(_) => None,
        }
    }

    fn contains(&self, key: &[u8; 32], _prefix: Prefix) -> (present: bool)
        ensures
            present == self.nodes().contains_key(key@),
    {
        match self.storage.get(key) {
            Ok(Some(_)) => true,
            _ => false,
        }
    }
}

/// The value under `key` in the trie with `root`, if `nodes` are the nodes that can be read, or
/// the message of the error that stops the lookup.
pub uninterp spec fn trie_value(
    nodes: Map<Seq<u8>, Seq<u8>>,
    root: Seq<u8>,
    key: Seq<u8>,
) -> Result<Option<Seq<u8>>, Seq<char>>;

/// The nodes, with their hashes, that the lookup of `key` in the trie with `root` reads on its way,
/// if `nodes` are the nodes that can be read.
pub uninterp spec fn trie_path(
    nodes: Map<Seq<u8>, Seq<u8>>,
    root: Seq<u8>,
    key: Seq<u8>,
) -> Seq<(Seq<u8>, Seq<u8>)>;

pub open spec fn value_reply(reply: Result<Option<Vec<u8>>, String>) -> Result<
    Option<Seq<u8>>,
    Seq<char>,
> {
    match reply {
        Ok(Some(value)) => Ok(Some(value@)),
        Ok(None) => Ok(None),
        Err(message) => Err(message@),
    }
}

/// The nodes that a recorder holds, with their hashes, in the order in which they were passed.
pub uninterp spec fn recorded_nodes(recorder: Recorder<[u8; 32]>) -> Seq<(Seq<u8>, Seq<u8>)>;

/// The depth above which a recorder leaves nodes out.
pub uninterp spec fn recorder_depth(recorder: Recorder<[u8; 32]>) -> nat;

/// `nodes` holds all of `list`.
pub open spec fn holds(nodes: Nodes, list: Seq<(Seq<u8>, Seq<u8>)>) -> bool {
    forall|i: int|
        0 <= i < list.len() ==> nodes.contains_key((#[trigger] list[i]).0) && nodes[list[i].0]
            == list[i].1
}

/// Wherever the nodes of `path` can be read, the value under `key` is `value`.
pub open spec fn determined_by(
    path: Seq<(Seq<u8>, Seq<u8>)>,
    root: Seq<u8>,
    key: Seq<u8>,
    value: Result<Option<Seq<u8>>, Seq<char>>,
) -> bool {
    forall|other: Nodes| holds(other, path) ==> #[trigger] trie_value(other, root, key) == value
}

/// Wherever `nodes` and possibly more can be read, the value under `key` is `value`.
pub open spec fn stays_with_more(
    nodes: Nodes,
    root: Seq<u8>,
    key: Seq<u8>,
    value: Result<Option<Seq<u8>>, Seq<char>>,
) -> bool {
    forall|other: Nodes|
        nodes.submap_of(other) ==> #[trigger] trie_value(other, root, key) == value
}

/// What was recorded in `after` behind what `before` holds.
pub open spec fn newly_recorded(
    before: Recorder<[u8; 32]>,
    after: Recorder<[u8; 32]>,
) -> Seq<(Seq<u8>, Seq<u8>)> {
    recorded_nodes(after).skip(recorded_nodes(before).len() as int)
}

/// What holds two lists holds the one that they make up.
proof fn lemma_holds_both(
    nodes: Nodes,
    first: Seq<(Seq<u8>, Seq<u8>)>,
    second: Seq<(Seq<u8>, Seq<u8>)>,
)
    ensures
        holds(nodes, first + second) <==> holds(nodes, first) && holds(nodes, second),
{
    let both = first + second;
    if holds(nodes, both) {
        assert forall|i: int| 0 <= i < first.len() implies nodes.contains_key(
            (#[trigger] first[i]).0,
        ) && nodes[first[i].0] == first[i].1 by {
            assert(first[i] == both[i]);
        }
        assert forall|i: int| 0 <= i < second.len() implies nodes.contains_key(
            (#[trigger] second[i]).0,
        ) && nodes[second[i].0] == second[i].1 by {
            assert(second[i] == both[i + first.len()]);
        }
    }
}

/// Calls `trie_db::Trie::get` of the `trie_db::TrieDB` with `root` over the nodes of the storage,
/// in the node format of `reference_trie`. What it returns depends on those nodes, the root and
/// the key alone. A successful lookup meets no missing node, so it gives the same where more nodes
/// can be read. It fails if the node of the root is missing. Nodes have to be stored by their hash:
/// the lookup follows hashes from node to node and could go round in a circle otherwise. That
/// decoding a node does not overflow is meant of machines whose `usize` has 64 bits.
#[verifier::external_body]
fn lookup<S: Storage>(storage: &S, root: &H256, key: &Vec<u8>) -> (reply: Result<
    Option<Vec<u8>>,
    String,
>)
    requires
        nodes_by_hash(storage.nodes()),
    ensures
        value_reply(reply) == trie_value(storage.nodes(), root@, key@),
        reply is Ok ==> storage.nodes().contains_key(root@),
        reply is Ok ==> stays_with_more(storage.nodes(), root@, key@, value_reply(reply)),
{
    let db = TrieBackendAdapter::new(storage);
    RefTrieDB::new(&db, root).and_then(|trie| trie.get(key)).map_err(|e| e.to_string())
}

/// Calls `trie_db::Trie::get_with` of the `trie_db::TrieDB` with `root` over the nodes of the
/// storage, with a recorder. It returns what the lookup without a recorder returns, and appends
/// each node that it reads to the recorder. Which nodes these are depends on the nodes of the
/// storage, the root and the key alone. It reads no others, so a successful lookup gives the same
/// wherever these are. That decoding a node does not overflow is meant of machines whose `usize`
/// has 64 bits.
#[verifier::external_body]
fn lookup_recorded<S: Storage>(
    storage: &S,
    root: &H256,
    key: &Vec<u8>,
    recorder: &mut Recorder<[u8; 32]>,
) -> (reply: Result<Option<Vec<u8>>, String>)
    requires
        nodes_by_hash(storage.nodes()),
        recorder_depth(*old(recorder)) == 0,
    ensures
        value_reply(reply) == trie_value(storage.nodes(), root@, key@),
        reply is Ok ==> storage.nodes().contains_key(root@),
        recorder_depth(*final(recorder)) == 0,
        recorded_nodes(*final(recorder)) == recorded_nodes(*old(recorder)) + trie_path(
            storage.nodes(),
            root@,
            key@,
        ),
        holds(storage.nodes(), newly_recorded(*old(recorder), *final(recorder))),
        reply is Ok ==> determined_by(
            newly_recorded(*old(recorder), *final(recorder)),
            root@,
            key@,
            value_reply(reply),
        ),
{
    let db = TrieBackendAdapter::new(storage);
    RefTrieDB::new(&db, root).and_then(|trie| trie.get_with(key, recorder)).map_err(
        |e| e.to_string(),
    )
}

/// Calls `trie_db::Recorder::new`, which records nodes at every depth.
#[verifier::external_body]
fn new_recorder() -> (recorder: Recorder<[u8; 32]>)
    ensures
        recorded_nodes(recorder).len() == 0,
        recorder_depth(recorder) == 0,
{
    Recorder::new()
}

/// The data of nodes, without their hashes.
pub open spec fn node_data(list: Seq<(Seq<u8>, Seq<u8>)>) -> Seq<Seq<u8>> {
    list.map_values(|node: (Seq<u8>, Seq<u8>)| node.1)
}

/// The data of nodes are as many as the nodes, and in the same order.
pub proof fn law_node_data(list: Seq<(Seq<u8>, Seq<u8>)>)
    ensures
        node_data(list).len() == list.len(),
        forall|i: int| 0 <= i < list.len() ==> #[trigger] node_data(list)[i] == list[i].1,
{
}

/// Calls `trie_db::Recorder::drain`, which hands out all that was recorded, in order.
#[verifier::external_body]
fn drain(recorder: &mut Recorder<[u8; 32]>) -> (data: Vec<Vec<u8>>)
    ensures
        contents(data@) == node_data(recorded_nodes(*old(recorder))),
        recorded_nodes(*final(recorder)).len() == 0,
        recorder_depth(*final(recorder)) == recorder_depth(*old(recorder)),
{
    recorder.drain().into_iter().map(|node| node.data).collect()
}

/// What reading from tries gives, as a function of the nodes that can be read, the root and the
/// key.
pub struct Reading {
    /// The value, or the message of an error.
    pub value: spec_fn(Nodes, Seq<u8>, Seq<u8>) -> Result<Option<Seq<u8>>, Seq<char>>,
    /// The nodes, with their hashes, that are read on the way.
    pub path: spec_fn(Nodes, Seq<u8>, Seq<u8>) -> Seq<(Seq<u8>, Seq<u8>)>,
}

/// Reading by looking keys up in the tries themselves.
pub open spec fn trie_reading() -> Reading {
    Reading {
        value: |nodes: Nodes, root: Seq<u8>, key: Seq<u8>| trie_value(nodes, root, key),
        path: |nodes: Nodes, root: Seq<u8>, key: Seq<u8>| trie_path(nodes, root, key),
    }
}

/// A way of reading values from the tries in a storage.
pub trait TrieReader {
    /// What this reader reads.
    spec fn reading(&self) -> Reading;

    /// Whether all that this reader has read successfully so far from a storage with `nodes` is
    /// the same when `other` are the nodes.
    spec fn agrees(&self, nodes: Nodes, other: Nodes) -> bool;

    /// Whether this reader keeps the nodes that it reads.
    spec fn records(&self) -> bool;

    /// The nodes that were kept, with their hashes, in the order in which they were read.
    spec fn recorded(&self) -> Seq<(Seq<u8>, Seq<u8>)>;

    /// Reads the value under `key` in the trie with `root`.
    fn read<S: Storage>(&mut self, storage: &S, root: &H256, key: &Vec<u8>) -> (reply: Result<
        Option<Vec<u8>>,
        String,
    >)
        requires
            old(self).agrees(storage.nodes(), storage.nodes()),
        ensures
            value_reply(reply) == (old(self).reading().value)(storage.nodes(), root@, key@),
            match (old(self).reading().value)(storage.nodes(), root@, key@) {
                Ok(Some(bytes)) => reply matches Ok(Some(value)) && value@ == bytes,
                Ok(None) => reply matches Ok(None),
                Err(message) => reply matches Err(error) && error@ == message,
            },
            final(self).reading() == old(self).reading(),
            final(self).records() == old(self).records(),
            final(self).recorded() == if old(self).records() {
                old(self).recorded() + (old(self).reading().path)(storage.nodes(), root@, key@)
            } else {
                old(self).recorded()
            },
            final(self).agrees(storage.nodes(), storage.nodes()),
            forall|other: Nodes| #[trigger]
                final(self).agrees(storage.nodes(), other) ==> old(self).agrees(
                    storage.nodes(),
                    other,
                ) && (reply is Ok ==> (old(self).reading().value)(other, root@, key@)
                    == value_reply(reply)),
    ;
}

/// Reads values and keeps nothing.
pub struct PlainReader;

impl TrieReader for PlainReader {
    open spec fn reading(&self) -> Reading {
        trie_reading()
    }

    open spec fn agrees(&self, nodes: Nodes, other: Nodes) -> bool {
        nodes.submap_of(other)
    }

    open spec fn records(&self) -> bool {
        false
    }

    open spec fn recorded(&self) -> Seq<(Seq<u8>, Seq<u8>)> {
        Seq::empty()
    }

    fn read<S: Storage>(&mut self, storage: &S, root: &H256, key: &Vec<u8>) -> (reply: Result<
        Option<Vec<u8>>,
        String,
    >) {
        proof {
            storage.lemma_nodes_by_hash();
        }
        lookup(storage, root, key)
    }
}

/// Reads values and records the nodes that it comes through.
pub struct RecordingReader {
    recorder: Recorder<[u8; 32]>,
}

impl RecordingReader {
    #[verifier::type_invariant]
    spec fn records_all(&self) -> bool {
        recorder_depth(self.recorder) == 0
    }

    pub fn new() -> (reader: RecordingReader)
        ensures
            reader.recorded().len() == 0,
    {
        RecordingReader { recorder: new_recorder() }
    }

    /// Hands out the data of the recorded nodes in the order of recording.
    pub fn into_nodes(self) -> (data: Vec<Vec<u8>>)
        ensures
            contents(data@) == node_data(self.recorded()),
    {
        let mut recorder = self.recorder;
        drain(&mut recorder)
    }
}

impl TrieReader for RecordingReader {
    open spec fn reading(&self) -> Reading {
        trie_reading()
    }

    open spec fn agrees(&self, nodes: Nodes, other: Nodes) -> bool {
        holds(nodes, self.recorded()) && holds(other, self.recorded())
    }

    open spec fn records(&self) -> bool {
        true
    }

    closed spec fn recorded(&self) -> Seq<(Seq<u8>, Seq<u8>)> {
        recorded_nodes(self.recorder)
    }

    fn read<S: Storage>(&mut self, storage: &S, root: &H256, key: &Vec<u8>) -> (reply: Result<
        Option<Vec<u8>>,
        String,
    >) {
        proof {
            storage.lemma_nodes_by_hash();
            use_type_invariant(&*self);
        }
        let mut recorder = new_recorder();
        std::mem::swap(&mut recorder, &mut self.recorder);
        let reply = lookup_recorded(storage, root, key, &mut recorder);
        self.recorder = recorder;
        proof {
            let before = old(self).recorded();
            let path = trie_path(storage.nodes(), root@, key@);
            assert((before + path).skip(before.len() as int) =~= path);
            lemma_holds_both(storage.nodes(), before, path);
            assert forall|other: Nodes| #[trigger] self.agrees(storage.nodes(), other) implies old(
                self,
            ).agrees(storage.nodes(), other) && (reply is Ok ==> trie_value(other, root@, key@)
                == value_reply(reply)) by {
                lemma_holds_both(other, before, path);
            }
        }
        reply
    }
}

} // verus!
