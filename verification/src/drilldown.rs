//! The drilldown: from the digests on the surface down to the extrinsics.

use crate::codec::{
    blocks_value, decode_blocks, decode_extrinsics, digest_key, extrinsic_key, extrinsics_value,
    is_trie_key, lemma_trie_key_unique, DigestIndex, ExtrinsicIndex,
};
use crate::model::{
    after_visits, blocks_at, changes_in, decimal, drawn, extrinsics_at, followed_up, hand_out,
    is_done, is_next, items_left, lemma_done, lemma_drawn, lemma_first_change, lemma_next_block,
    lemma_reads_both, lemma_reads_one, lemma_seek_skip, lemma_step, lemma_visited,
    lemma_with_listed_last, lemma_with_none, none_behind, points_up_to, query_of, reads,
    reads_left, resume, root_not_found, step, visit, visit_reads, visited, visits_left,
    with_listed, Item, Pending, Query,
};
use crate::nodes::Nodes;
use crate::queue::{BlockQueue, Levels};
use crate::storage::{RootsStorage, Storage};
use crate::surface::{lemma_points_descend, points_descend, SurfaceIterator, SurfaceState};
use crate::trie::{trie_reading, Reading, TrieReader};
use crate::types::{AnchorBlockId, H256};
use std::collections::VecDeque;
use vstd::prelude::*;
use vstd::slice::slice_to_vec;

verus! {

/// Returns a digit as a string.
fn digit(d: u64) -> (digit: &'static str)
    requires
        d < 10,
    ensures
        digit@ == seq![('0' as u32 + d) as char],
{
    proof {
        reveal_strlit("0");
        reveal_strlit("1");
        reveal_strlit("2");
        reveal_strlit("3");
        reveal_strlit("4");
        reveal_strlit("5");
        reveal_strlit("6");
        reveal_strlit("7");
        reveal_strlit("8");
        reveal_strlit("9");
    }
    let digit = match d {
        0 => "0",
        1 => "1",
        2 => "2",
        3 => "3",
        4 => "4",
        5 => "5",
        6 => "6",
        7 => "7",
        8 => "8",
        _ => "9",
    };
    assert(digit@ =~= seq![('0' as u32 + d) as char]);
    digit
}

/// `block` is one of those that a digest of `level` in block `digest` lists, and one to be looked
/// at: it comes before the digest, the digest is one of level one at least, and on level one the
/// block is in the range of `q`.
pub open spec fn is_pushed(
    q: Query,
    digest: u64,
    level: u32,
    blocks: Seq<u64>,
    block: u64,
) -> bool {
    &&& blocks.contains(block)
    &&& block < digest
    &&& level >= 2 || (level == 1 && q.begin <= block <= q.end)
}

/// Writes a number in decimal digits.
fn decimal_string(n: u64) -> (digits: String)
    ensures
        digits@ == decimal(n as nat),
    decreases n,
{
    if n < 10 {
        return digit(n).to_owned();
    }
    let mut digits = decimal_string(n / 10);
    digits.append(digit(n % 10));
    assert(digits@ =~= decimal(n as nat));
    digits
}

fn root_not_found_message(block: u64) -> (message: String)
    ensures
        message@ == root_not_found(block),
{
    let mut message = "Changes trie root for block ".to_owned();
    message.append(decimal_string(block).as_str());
    message.append(" is not found");
    message
}

pub open spec fn item_view(item: Result<(u64, u32), String>) -> Item {
    match item {
        Ok(change) => Ok(change),
        Err(message) => Err(message@),
    }
}

/// What a reader keeps of the nodes that it reads.
pub open spec fn kept<R: TrieReader>(reader: R, path: Seq<(Seq<u8>, Seq<u8>)>) -> Seq<
    (Seq<u8>, Seq<u8>),
> {
    if reader.records() {
        path
    } else {
        Seq::empty()
    }
}

/// `item` is the first of `before`, and `after` is the rest of it.
pub open spec fn yields(
    before: Seq<Item>,
    item: Option<Result<(u64, u32), String>>,
    after: Seq<Item>,
) -> bool {
    match item {
        Some(item) => before == seq![item_view(item)] + after,
        None => before.len() == 0 && after.len() == 0,
    }
}

/// Drilldown iterator - receives 'digest points' from surface iterator and explores
/// every point until extrinsic is found.
pub struct DrilldownIteratorEssence<'a, RS: RootsStorage, S: Storage> {
    key: &'a [u8],
    roots_storage: &'a RS,
    storage: &'a S,
    begin: u64,
    end: &'a AnchorBlockId,
    surface: SurfaceIterator<'a>,
    extrinsics: VecDeque<(u64, u32)>,
    blocks: BlockQueue,
}

impl<'a, RS: RootsStorage, S: Storage> DrilldownIteratorEssence<'a, RS, S> {
    pub closed spec fn wf(&self) -> bool {
        &&& self.surface.wf()
        &&& self.blocks.wf()
        &&& self.key@.len() <= u32::MAX
    }

    /// The nodes of the storage that tries are read from.
    pub closed spec fn nodes(&self) -> Nodes {
        self.storage.nodes()
    }

    /// The query, if `nodes` were the nodes of the storage and read in this way.
    pub closed spec fn query(&self, reading: Reading, nodes: Nodes) -> Query {
        Query {
            reading,
            ..query_of(*self.roots_storage, nodes, self.key@, self.begin, *self.end)
        }
    }

    /// Where the surface stands.
    pub closed spec fn surface(&self) -> SurfaceState {
        self.surface@
    }

    /// Changes that are found and not yet handed out.
    pub closed spec fn pending_changes(&self) -> Seq<(u64, u32)> {
        self.extrinsics@
    }

    /// Blocks that are to be looked at, with their levels.
    pub closed spec fn pending_blocks(&self) -> Levels {
        self.blocks@
    }

    /// What is still to be done.
    pub open spec fn pending(&self) -> Pending {
        Pending {
            changes: self.pending_changes(),
            blocks: self.pending_blocks(),
            points: self.surface().points(),
        }
    }

    /// All that is still to come, if `nodes` were the nodes of the storage and read in this way.
    pub open spec fn remaining(&self, reading: Reading, nodes: Nodes) -> Seq<Item> {
        items_left(self.query(reading, nodes), self.pending())
    }

    /// The blocks that are still to be looked at.
    pub open spec fn visits(&self, reading: Reading) -> Seq<u64> {
        visits_left(self.query(reading, self.nodes()), self.pending())
    }

    /// The trie nodes that are still to be read.
    pub open spec fn reads(&self, reading: Reading) -> Seq<(Seq<u8>, Seq<u8>)> {
        reads_left(self.query(reading, self.nodes()), self.pending())
    }

    /// Nothing but what is pending differs from `other`.
    pub open spec fn same_query(&self, other: &Self) -> bool {
        &&& self.nodes() == other.nodes()
        &&& forall|reading: Reading, nodes: Nodes| #[trigger]
            self.query(reading, nodes) == other.query(reading, nodes)
    }

    /// Creates the drilldown below the digests of `surface`.
    pub fn new(
        key: &'a [u8],
        roots_storage: &'a RS,
        storage: &'a S,
        begin: u64,
        end: &'a AnchorBlockId,
        surface: SurfaceIterator<'a>,
    ) -> (essence: Self)
        requires
            key@.len() <= u32::MAX,
            surface.wf(),
        ensures
            essence.wf(),
            essence.nodes() == storage.nodes(),
            forall|reading: Reading, nodes: Nodes| #[trigger]
                essence.query(reading, nodes) == (Query {
                    reading,
                    ..query_of(*roots_storage, nodes, key@, begin, *end)
                }),
            essence.pending_changes().len() == 0,
            essence.pending_blocks() == Levels::empty(),
            essence.surface() == surface@,
    {
        DrilldownIteratorEssence {
            key,
            roots_storage,
            storage,
            begin,
            end,
            surface,
            extrinsics: VecDeque::new(),
            blocks: BlockQueue::new(),
        }
    }

    /// Adds the extrinsics that changed the key in `block`, the last one first.
    pub fn push_extrinsics(&mut self, block: u64, extrinsics: &Vec<u32>)
        ensures
            final(self).wf() == old(self).wf(),
            final(self).same_query(old(self)),
            final(self).surface() == old(self).surface(),
            final(self).pending_blocks() == old(self).pending_blocks(),
            final(self).pending_changes() == old(self).pending_changes() + changes_in(
                block,
                extrinsics@,
            ),
            ({
                let before = old(self).pending_changes();
                let after = final(self).pending_changes();
                let n = extrinsics@.len();
                &&& after.len() == before.len() + n
                &&& forall|i: int| 0 <= i < before.len() ==> #[trigger] after[i] == before[i]
                &&& forall|i: int|
                    0 <= i < n ==> #[trigger] after[before.len() + i] == (
                        block,
                        extrinsics@[n - 1 - i],
                    )
            }),
    {
        let mut i: usize = extrinsics.len();
        while i > 0
            invariant
                i <= extrinsics@.len(),
                self.key == old(self).key,
                self.roots_storage == old(self).roots_storage,
                self.storage == old(self).storage,
                self.begin == old(self).begin,
                self.end == old(self).end,
                self.surface == old(self).surface,
                self.blocks == old(self).blocks,
                self.extrinsics@ =~= old(self).extrinsics@ + changes_in(block, extrinsics@).take(
                    extrinsics@.len() - i,
                ),
            decreases i,
        {
            i -= 1;
            self.extrinsics.push_back((block, extrinsics[i]));
        }
        proof {
            let all = changes_in(block, extrinsics@);
            assert(all.take(extrinsics@.len() - i) =~= all);
        }
    }

    /// Adds the blocks that the digest of `level` in block `digest` lists, if they are to be looked
    /// at.
    pub fn push_blocks(&mut self, digest: u64, level: u32, blocks: &Vec<u64>)
        requires
            old(self).wf(),
        ensures
            final(self).wf(),
            final(self).same_query(old(self)),
            final(self).surface() == old(self).surface(),
            final(self).pending_changes() == old(self).pending_changes(),
            forall|reading: Reading, nodes: Nodes|
                final(self).pending_blocks() == with_listed(
                    #[trigger] old(self).query(reading, nodes),
                    old(self).pending_blocks(),
                    digest,
                    level,
                    blocks@,
                ),
            ({
                let q = old(self).query(trie_reading(), old(self).nodes());
                let before = old(self).pending_blocks();
                let after = final(self).pending_blocks();
                &&& forall|block: u64| #[trigger]
                    after.contains_key(block) <==> before.contains_key(block) || is_pushed(
                        q,
                        digest,
                        level,
                        blocks@,
                        block,
                    )
                &&& forall|block: u64| #[trigger]
                    after.contains_key(block) ==> {
                        let pushed = is_pushed(q, digest, level, blocks@, block);
                        &&& before.contains_key(block) ==> before[block] <= after[block]
                        &&& pushed ==> level - 1 <= after[block]
                        &&& {
                            ||| before.contains_key(block) && before[block] == after[block]
                            ||| pushed && level - 1 == after[block]
                        }
                    }
            }),
    {
        let begin: u64 = self.begin;
        let end: u64 = self.end.number;
        let ghost q = self.query(trie_reading(), self.nodes());
        let ghost before = self.blocks@;
        let mut i: usize = 0;
        proof {
            lemma_with_none(q, before, digest, level, blocks@.take(0));
        }
        while i < blocks.len()
            invariant
                i <= blocks@.len(),
                begin == q.begin,
                end == q.end,
                self.key == old(self).key,
                self.roots_storage == old(self).roots_storage,
                self.storage == old(self).storage,
                self.begin == old(self).begin,
                self.end == old(self).end,
                self.surface == old(self).surface,
                self.extrinsics == old(self).extrinsics,
                self.blocks.wf(),
                self.blocks@ == with_listed(q, before, digest, level, blocks@.take(i as int)),
            decreases blocks@.len() - i,
        {
            let block: u64 = blocks[i];
            proof {
                lemma_with_listed_last(q, before, digest, level, blocks@, i + 1);
            }
            // digest block changes could also list out-of-range blocks
            if level > 0 && block < digest && (level > 1 || (block >= begin && block <= end)) {
                self.blocks.raise(block, level - 1);
            }
            i += 1;
        }
        proof {
            assert(blocks@.take(i as int) =~= blocks@);
            assert forall|reading: Reading, nodes: Nodes|
                self.pending_blocks() == with_listed(
                    #[trigger] old(self).query(reading, nodes),
                    old(self).pending_blocks(),
                    digest,
                    level,
                    blocks@,
                ) by {
                lemma_same_range(
                    q,
                    old(self).query(reading, nodes),
                    before,
                    digest,
                    level,
                    blocks@,
                );
            }
        }
    }

    /// Reads which extrinsics of `block` changed the key, from the trie with `root`.
    fn read_extrinsics<R: TrieReader>(
        &self,
        root: &H256,
        block: u64,
        trie_reader: &mut R,
    ) -> (reply: Result<Vec<u32>, String>)
        requires
            self.wf(),
            old(trie_reader).agrees(self.nodes(), self.nodes()),
        ensures
            extrinsics_reply(reply) == extrinsics_at(
                self.query(old(trie_reader).reading(), self.nodes()),
                root@,
                block,
            ),
            ({
                let q = self.query(old(trie_reader).reading(), self.nodes());
                forall|trie_key: Seq<u8>| #[trigger]
                    is_trie_key(trie_key, 1, block, q.key) ==> match (q.reading.value)(
                        q.nodes,
                        root@,
                        trie_key,
                    ) {
                        Ok(Some(bytes)) => match extrinsics_value(bytes) {
                            Some(list) => reply matches Ok(read) && read@ == list,
                            None => reply matches Ok(read) && read@.len() == 0,
                        },
                        Ok(None) => reply matches Ok(read) && read@.len() == 0,
                        Err(message) => reply matches Err(error) && error@ == message,
                    }
            }),
            final(trie_reader).reading() == old(trie_reader).reading(),
            final(trie_reader).records() == old(trie_reader).records(),
            ({
                let q = self.query(old(trie_reader).reading(), self.nodes());
                final(trie_reader).recorded() == old(trie_reader).recorded() + kept(
                    *old(trie_reader),
                    (q.reading.path)(q.nodes, root@, extrinsic_key(block, q.key)),
                )
            }),
            final(trie_reader).agrees(self.nodes(), self.nodes()),
            forall|other: Nodes| #[trigger]
                final(trie_reader).agrees(self.nodes(), other) ==> old(trie_reader).agrees(
                    self.nodes(),
                    other,
                ) && (reply is Ok ==> extrinsics_at(
                    self.query(old(trie_reader).reading(), other),
                    root@,
                    block,
                ) == extrinsics_reply(reply)),
    {
        let index = ExtrinsicIndex { block, key: slice_to_vec(self.key) };
        proof {
            assert forall|trie_key: Seq<u8>| #[trigger]
                is_trie_key(trie_key, 1, block, self.key@) implies trie_key == extrinsic_key(
                block,
                self.key@,
            ) by {
                lemma_trie_key_unique(trie_key, 1, block, self.key@);
            }
        }
        let extrinsics_key = index.encode();
        match trie_reader.read(self.storage, root, &extrinsics_key) {
            Ok(Some(bytes)) => match decode_extrinsics(&bytes) {
                Some(extrinsics) => Ok(extrinsics),
                None => Ok(Vec::new()),
            },
            Ok(None) => Ok(Vec::new()),
            Err(message) => Err(message),
        }
    }

    /// Reads which blocks the digest in `block` lists for the key, from the trie with `root`.
    fn read_blocks<R: TrieReader>(&self, root: &H256, block: u64, trie_reader: &mut R) -> (reply:
        Result<Vec<u64>, String>)
        requires
            self.wf(),
            old(trie_reader).agrees(self.nodes(), self.nodes()),
        ensures
            blocks_reply(reply) == blocks_at(
                self.query(old(trie_reader).reading(), self.nodes()),
                root@,
                block,
            ),
            ({
                let q = self.query(old(trie_reader).reading(), self.nodes());
                forall|trie_key: Seq<u8>| #[trigger]
                    is_trie_key(trie_key, 2, block, q.key) ==> match (q.reading.value)(
                        q.nodes,
                        root@,
                        trie_key,
                    ) {
                        Ok(Some(bytes)) => match blocks_value(bytes) {
                            Some(list) => reply matches Ok(read) && read@ == list,
                            None => reply matches Ok(read) && read@.len() == 0,
                        },
                        Ok(None) => reply matches Ok(read) && read@.len() == 0,
                        Err(message) => reply matches Err(error) && error@ == message,
                    }
            }),
            final(trie_reader).reading() == old(trie_reader).reading(),
            final(trie_reader).records() == old(trie_reader).records(),
            ({
                let q = self.query(old(trie_reader).reading(), self.nodes());
                final(trie_reader).recorded() == old(trie_reader).recorded() + kept(
                    *old(trie_reader),
                    (q.reading.path)(q.nodes, root@, digest_key(block, q.key)),
                )
            }),
            final(trie_reader).agrees(self.nodes(), self.nodes()),
            forall|other: Nodes| #[trigger]
                final(trie_reader).agrees(self.nodes(), other) ==> old(trie_reader).agrees(
                    self.nodes(),
                    other,
                ) && (reply is Ok ==> blocks_at(
                    self.query(old(trie_reader).reading(), other),
                    root@,
                    block,
                ) == blocks_reply(reply)),
    {
        let index = DigestIndex { block, key: slice_to_vec(self.key) };
        proof {
            assert forall|trie_key: Seq<u8>| #[trigger]
                is_trie_key(trie_key, 2, block, self.key@) implies trie_key == digest_key(
                block,
                self.key@,
            ) by {
                lemma_trie_key_unique(trie_key, 2, block, self.key@);
            }
        }
        let blocks_key = index.encode();
        match trie_reader.read(self.storage, root, &blocks_key) {
            Ok(Some(bytes)) => match decode_blocks(&bytes) {
                Some(blocks) => Ok(blocks),
                None => Ok(Vec::new()),
            },
            Ok(None) => Ok(Vec::new()),
            Err(message) => Err(message),
        }
    }

    /// Looks at `block`, a digest of `level`, and adds what it finds to what is pending.
    fn visit_block<R: TrieReader>(&mut self, block: u64, level: u32, trie_reader: &mut R) -> (done:
        Result<(), String>)
        requires
            old(self).wf(),
            old(trie_reader).agrees(old(self).nodes(), old(self).nodes()),
        ensures
            final(self).wf(),
            final(self).same_query(old(self)),
            final(self).surface() == old(self).surface(),
            final(trie_reader).reading() == old(trie_reader).reading(),
            final(trie_reader).records() == old(trie_reader).records(),
            final(trie_reader).agrees(old(self).nodes(), old(self).nodes()),
            ({
                let reading = old(trie_reader).reading();
                let q = old(self).query(reading, old(self).nodes());
                let v = visit(q, block);
                &&& final(self).pending_changes() == old(self).pending_changes() + changes_in(
                    block,
                    v.extrinsics,
                )
                &&& final(self).pending_blocks() == with_listed(
                    q,
                    old(self).pending_blocks(),
                    block,
                    level,
                    v.blocks,
                )
                &&& final(trie_reader).recorded() == old(trie_reader).recorded() + kept(
                    *old(trie_reader),
                    visit_reads(q, block),
                )
                &&& match done {
                    Ok(_) => v.failure is None,
                    Err(message) => v.failure == Some(message@),
                }
                &&& forall|other: Nodes| #[trigger]
                    final(trie_reader).agrees(old(self).nodes(), other) ==> old(
                        trie_reader,
                    ).agrees(old(self).nodes(), other) && (done is Ok ==> visit(
                        old(self).query(reading, other),
                        block,
                    ) == v)
            }),
    {
        let ghost q = self.query(trie_reader.reading(), self.nodes());
        proof {
            lemma_with_none(q, self.pending_blocks(), block, level, Seq::empty());
            assert(changes_in(block, Seq::empty()) =~= Seq::empty());
            assert(self.pending_changes() + Seq::<(u64, u32)>::empty() =~= self.pending_changes());
        }
        // not having a changes trie root is an error because:
        // we never query roots for future blocks
        // AND trie roots for old blocks are known (both on full + light node)
        let trie_root: H256 = match self.roots_storage.root(self.end, block) {
            Ok(Some(root)) => root,
            Ok(None) => {
                return Err(root_not_found_message(block));
            },
            Err(message) => {
                return Err(message);
            },
        };
        // a digest below the range lists nothing but blocks below the range
        if block < self.begin {
            return Ok(());
        }
        // only return extrinsics for blocks up to the end of the range
        // most of blocks will be filtered out before pushing to `self.blocks`
        // here we just throwing away changes at digest blocks we're processing
        if block <= self.end.number {
            match self.read_extrinsics(&trie_root, block, trie_reader) {
                Ok(extrinsics) => self.push_extrinsics(block, &extrinsics),
                Err(message) => {
                    return Err(message);
                },
            }
        }
        match self.read_blocks(&trie_root, block, trie_reader) {
            Ok(blocks) => self.push_blocks(block, level, &blocks),
            Err(message) => {
                return Err(message);
            },
        }
        Ok(())
    }

    /// Takes the last of the pending blocks and looks at it.
    fn follow_block<R: TrieReader>(
        &mut self,
        trie_reader: &mut R,
        Ghost(block): Ghost<u64>,
    ) -> (done: Result<(), String>)
        requires
            old(self).wf(),
            old(self).pending_changes().len() == 0,
            old(self).pending_blocks().contains_key(block),
            none_behind(old(self).pending_blocks(), block as int),
            points_up_to(old(self).surface().points(), block - 1),
            old(trie_reader).agrees(old(self).nodes(), old(self).nodes()),
        ensures
            final(self).wf(),
            final(self).same_query(old(self)),
            final(self).surface() == old(self).surface(),
            final(trie_reader).reading() == old(trie_reader).reading(),
            final(trie_reader).records() == old(trie_reader).records(),
            final(trie_reader).agrees(old(self).nodes(), old(self).nodes()),
            ({
                let q = old(self).query(old(trie_reader).reading(), old(self).nodes());
                &&& final(self).pending() == visited(q, old(self).pending(), block)
                &&& final(trie_reader).recorded() == old(trie_reader).recorded() + kept(
                    *old(trie_reader),
                    visit_reads(q, block),
                )
                &&& match done {
                    Ok(_) => visit(q, block).failure is None,
                    Err(message) => visit(q, block).failure == Some(message@),
                }
            }),
            forall|other: Nodes| #[trigger]
                final(trie_reader).agrees(old(self).nodes(), other) ==> {
                    &&& old(trie_reader).agrees(old(self).nodes(), other)
                    &&& done is Ok ==> old(self).remaining(old(trie_reader).reading(), other)
                        == final(self).remaining(old(trie_reader).reading(), other)
                },
    {
        let ghost nodes = self.nodes();
        let ghost reading = trie_reader.reading();
        let ghost q = self.query(reading, nodes);
        let ghost pending = self.pending();
        if let Some((last, level)) = self.blocks.pop() {
            let ghost v = visit(q, block);
            assert(last == block);
            let done = self.visit_block(last, level, trie_reader);
            proof {
                assert(self.pending() =~= visited(q, pending, block));
                if done is Ok {
                    assert forall|other: Nodes| #[trigger]
                        trie_reader.agrees(nodes, other) implies old(self).remaining(reading, other)
                        == self.remaining(reading, other) by {
                        let p = old(self).query(reading, other);
                        assert(self.query(reading, other) == p);
                        lemma_visited(p, pending, block);
                        lemma_same_range(
                            q,
                            p,
                            pending.blocks.remove(block),
                            block,
                            pending.blocks[block],
                            v.blocks,
                        );
                        assert(visited(p, pending, block) == visited(q, pending, block));
                    }
                }
            }
            done
        } else {
            Ok(())
        }
    }

    /// Looks at blocks until a change or an error is found, or nothing is left. Whatever comes
    /// next of the pending blocks and of the surface is taken first, so that the last block comes
    /// first.
    #[verifier::rlimit(60)]
    fn do_next<R: TrieReader>(&mut self, trie_reader: &mut R) -> (result: Result<
        Option<(u64, u32)>,
        String,
    >)
        requires
            old(self).wf(),
            old(trie_reader).agrees(old(self).nodes(), old(self).nodes()),
        ensures
            final(self).wf(),
            final(self).same_query(old(self)),
            final(trie_reader).reading() == old(trie_reader).reading(),
            final(trie_reader).records() == old(trie_reader).records(),
            final(trie_reader).agrees(old(self).nodes(), old(self).nodes()),
            goes_on(*old(self), *old(trie_reader), flip(result), *final(self), *final(trie_reader)),
            hands_out_first(
                *old(self),
                *old(trie_reader),
                flip(result),
                *final(self),
                *final(trie_reader),
            ),
            looks_at_next(*old(self), *old(trie_reader), flip(result), *final(self)),
            ends(*old(self), *old(trie_reader), flip(result), *final(self), *final(trie_reader)),
            forall|other: Nodes| #[trigger]
                final(trie_reader).agrees(old(self).nodes(), other) ==> {
                    &&& old(trie_reader).agrees(old(self).nodes(), other)
                    &&& result is Ok ==> yields(
                        old(self).remaining(old(trie_reader).reading(), other),
                        flip(result),
                        final(self).remaining(old(trie_reader).reading(), other),
                    )
                },
    {
        let ghost nodes = self.nodes();
        let ghost reading = trie_reader.reading();
        let ghost q = self.query(reading, nodes);
        let ghost start = self.pending();
        let ghost total = step(q, start);
        let ghost mut looked: Seq<u64> = Seq::empty();
        let ghost mut draws: nat = 0;
        let ghost mut n: int = u64::MAX as int;
        let ghost mut started = false;
        proof {
            lemma_points_descend(self.surface());
            assert forall|block: u64| #[trigger] is_next(start, block) implies looking_gives(
                q,
                start,
                block,
            ) by {
                lemma_looking_gives(q, start, block);
            }
            assert(after_visits(looked, total) =~= total);
            assert(trie_reader.recorded() + kept(*trie_reader, reads(q, looked))
                =~= trie_reader.recorded());
        }
        loop
            invariant
                nodes == old(self).nodes(),
                reading == old(trie_reader).reading(),
                q == old(self).query(reading, nodes),
                start == old(self).pending(),
                total == step(q, start),
                forall|block: u64| #[trigger]
                    is_next(start, block) ==> looking_gives(q, start, block),
                self.wf(),
                self.same_query(old(self)),
                trie_reader.agrees(nodes, nodes),
                trie_reader.reading() == reading,
                trie_reader.records() == old(trie_reader).records(),
                trie_reader.recorded() == old(trie_reader).recorded() + kept(
                    *old(trie_reader),
                    reads(q, looked),
                ),
                -1 <= n <= u64::MAX,
                none_behind(self.pending_blocks(), n),
                points_up_to(self.surface().points(), n),
                points_descend(self.surface().points()),
                total == after_visits(looked, resume(q, self.pending(), n)),
                self.surface() == advanced(old(self).surface(), draws),
                start.points.len() == draws + self.surface().points().len(),
                !started ==> {
                    &&& self.pending() == start
                    &&& *trie_reader == *old(trie_reader)
                    &&& draws == 0
                    &&& n == u64::MAX
                },
                started ==> start.changes.len() == 0 && !is_done(start),
                forall|other: Nodes| #[trigger]
                    trie_reader.agrees(nodes, other) ==> old(trie_reader).agrees(nodes, other)
                        && old(self).remaining(reading, other) == self.remaining(reading, other),
            decreases n + 1, self.surface().points().len(),
        {
            let ghost before = *self;
            let ghost p = self.pending();
            if let Some(change) = self.extrinsics.pop_front() {
                proof {
                    assert(self.pending() =~= hand_out(p).pending);
                    assert forall|other: Nodes| #[trigger]
                        trie_reader.agrees(nodes, other) implies yields(
                        before.remaining(reading, other),
                        Some(Ok(change)),
                        self.remaining(reading, other),
                    ) by {
                        assert(self.query(reading, other) == before.query(reading, other));
                        lemma_first_change(self.query(reading, other), p);
                    }
                    assert(looked + Seq::<u64>::empty() =~= looked);
                }
                return Ok(Some(change));
            }
            assert(self.pending() =~= p);
            proof {
                lemma_points_descend(self.surface());
            }
            let last: Option<u64> = self.blocks.last();
            let draw: bool = match self.surface.peek() {
                Some(point) => match last {
                    Some(block) => point >= block,
                    None => true,
                },
                None => false,
            };
            if draw {
                match self.surface.next() {
                    Some(Ok((block, level))) => {
                        self.blocks.raise(block, level);
                        proof {
                            assert(self.pending() =~= drawn(p));
                            assert(none_behind(p.blocks, block as int));
                            assert(points_up_to(p.points, block as int)) by {
                                assert forall|i: int| 0 <= i < p.points.len() implies (
                                #[trigger] p.points[i]).0 <= block by {
                                    if i > 0 {
                                        assert(p.points[0].0 > p.points[i].0);
                                    }
                                }
                            }
                            assert(p.points[0].0 <= n);
                            lemma_seek_skip(q, p, n, block as int);
                            lemma_drawn(p, block as int);
                            assert(points_up_to(self.surface().points(), block as int)) by {
                                assert forall|i: int|
                                    0 <= i < drawn(p).points.len() implies (
                                #[trigger] drawn(p).points[i]).0 <= block by {}
                            }
                            draws = draws + 1;
                            n = block as int;
                            started = true;
                        }
                        continue ;
                    },
                    Some(Err(message)) => {
                        return Err(message);
                    },
                    None => {},
                }
            }
            match last {
                Some(block) => {
                    proof {
                        assert(points_up_to(p.points, block - 1)) by {
                            assert forall|i: int| 0 <= i < p.points.len() implies (
                            #[trigger] p.points[i]).0 <= block - 1 by {
                                if i > 0 {
                                    assert(p.points[0].0 > p.points[i].0);
                                }
                            }
                        }
                        assert(points_up_to(p.points, block as int)) by {
                            assert forall|i: int| 0 <= i < p.points.len() implies (
                            #[trigger] p.points[i]).0 <= block by {}
                        }
                        lemma_seek_skip(q, p, n, block as int);
                        lemma_visited(q, p, block);
                        lemma_reads_both(q, looked, seq![block]);
                        lemma_reads_one(q, block);
                    }
                    let ghost ahead = resume(q, visited(q, p, block), block - 1);
                    let done = self.follow_block(trie_reader, Ghost(block));
                    proof {
                        assert(trie_reader.recorded() =~= old(trie_reader).recorded() + kept(
                            *old(trie_reader),
                            reads(q, looked + seq![block]),
                        ));
                        assert(looked + (seq![block] + ahead.visits) =~= (looked + seq![block])
                            + ahead.visits);
                        assert(looked + (seq![block] + Seq::<u64>::empty()) =~= looked
                            + seq![block]);
                    }
                    match done {
                        Ok(_) => {
                            proof {
                                looked = looked + seq![block];
                                n = block - 1;
                                started = true;
                            }
                        },
                        Err(message) => {
                            proof {
                                lemma_with_none(
                                    q,
                                    p.blocks.remove(block),
                                    block,
                                    p.blocks[block],
                                    Seq::empty(),
                                );
                            }
                            return Err(message);
                        },
                    }
                },
                None => {
                    proof {
                        lemma_done(q, self.pending());
                        lemma_seek_skip(q, p, u64::MAX as int, n);
                        assert(looked + Seq::<u64>::empty() =~= looked);
                        assert forall|other: Nodes| #[trigger]
                            trie_reader.agrees(nodes, other) implies yields(
                            old(self).remaining(reading, other),
                            None,
                            self.remaining(reading, other),
                        ) by {
                            lemma_done(self.query(reading, other), self.pending());
                        }
                    }
                    return Ok(None);
                },
            }
        }
    }

    /// Returns the next change, or the next error. Iterating can go on after an error.
    pub fn next<R: TrieReader>(&mut self, trie_reader: &mut R) -> (item: Option<
        Result<(u64, u32), String>,
    >)
        requires
            old(self).wf(),
            old(trie_reader).agrees(old(self).nodes(), old(self).nodes()),
        ensures
            final(self).wf(),
            final(self).same_query(old(self)),
            final(trie_reader).reading() == old(trie_reader).reading(),
            final(trie_reader).records() == old(trie_reader).records(),
            final(trie_reader).agrees(old(self).nodes(), old(self).nodes()),
            goes_on(*old(self), *old(trie_reader), item, *final(self), *final(trie_reader)),
            hands_out_first(*old(self), *old(trie_reader), item, *final(self), *final(trie_reader)),
            looks_at_next(*old(self), *old(trie_reader), item, *final(self)),
            ends(*old(self), *old(trie_reader), item, *final(self), *final(trie_reader)),
            ({
                let before = old(self).remaining(old(trie_reader).reading(), old(self).nodes());
                let after = final(self).remaining(old(trie_reader).reading(), old(self).nodes());
                match item {
                    Some(Ok(change)) => {
                        &&& before.len() == after.len() + 1
                        &&& before[0] == Ok::<(u64, u32), Seq<char>>(change)
                        &&& forall|i: int| 0 <= i < after.len() ==> after[i] == before[i + 1]
                    },
                    Some(Err(message)) => {
                        &&& before.len() == after.len() + 1
                        &&& before[0] == Err::<(u64, u32), Seq<char>>(message@)
                        &&& forall|i: int| 0 <= i < after.len() ==> after[i] == before[i + 1]
                    },
                    None => before.len() == 0 && after.len() == 0,
                }
            }),
            ({
                let reading = old(trie_reader).reading();
                let q = old(self).query(reading, old(self).nodes());
                let s = step(q, old(self).pending());
                &&& yields(
                    old(self).remaining(reading, old(self).nodes()),
                    item,
                    final(self).remaining(reading, old(self).nodes()),
                )
                &&& old(self).visits(reading) == s.visits + final(self).visits(reading)
                &&& old(self).reads(reading) == reads(q, s.visits) + final(self).reads(reading)
            }),
            forall|other: Nodes| #[trigger]
                final(trie_reader).agrees(old(self).nodes(), other) ==> {
                    &&& old(trie_reader).agrees(old(self).nodes(), other)
                    &&& !(item matches Some(Err(_))) ==> yields(
                        old(self).remaining(old(trie_reader).reading(), other),
                        item,
                        final(self).remaining(old(trie_reader).reading(), other),
                    )
                },
    {
        proof {
            let q = self.query(trie_reader.reading(), self.nodes());
            lemma_points_descend(self.surface());
            lemma_step(q, self.pending());
        }
        match self.do_next(trie_reader) {
            Ok(Some(change)) => Some(Ok(change)),
            Ok(None) => {
                proof {
                    let q = self.query(trie_reader.reading(), self.nodes());
                    lemma_done(q, self.pending());
                }
                None
            },
            Err(message) => Some(Err(message)),
        }
    }
}

/// Where a surface stands after `n` more digests.
pub open spec fn advanced(surface: SurfaceState, n: nat) -> SurfaceState
    decreases n,
{
    if n == 0 {
        surface
    } else {
        advanced(surface, (n - 1) as nat).after()
    }
}

/// What looking at the next block gives, if it fails or finds a change.
spec fn looking_gives(q: Query, p: Pending, block: u64) -> bool {
    let s = step(q, p);
    let v = visit(q, block);
    let changes = changes_in(block, v.extrinsics);
    &&& v.failure matches Some(message) ==> {
        &&& s.item == Some(Err::<(u64, u32), Seq<char>>(message))
        &&& s.pending == Pending { changes, blocks: p.blocks.remove(block), points: p.points }
    }
    &&& v.failure is None && v.extrinsics.len() > 0 ==> {
        &&& s.item == Some(Ok::<(u64, u32), Seq<char>>((block, v.extrinsics.last())))
        &&& s.pending == Pending {
            changes: changes.drop_first(),
            blocks: followed_up(q, p.blocks, block),
            points: p.points,
        }
    }
}

proof fn lemma_looking_gives(q: Query, p: Pending, block: u64)
    requires
        is_next(p, block),
    ensures
        looking_gives(q, p, block),
{
    lemma_next_block(q, p, block);
    lemma_with_none(q, p.blocks.remove(block), block, p.blocks[block], Seq::empty());
}

/// Which digests count as listed does not depend on the nodes.
proof fn lemma_same_range(
    q: Query,
    p: Query,
    blocks: Levels,
    digest: u64,
    level: u32,
    listed: Seq<u64>,
)
    requires
        p.begin == q.begin,
        p.end == q.end,
    ensures
        with_listed(q, blocks, digest, level, listed) == with_listed(
            p,
            blocks,
            digest,
            level,
            listed,
        ),
{
    assert(with_listed(q, blocks, digest, level, listed) =~= with_listed(
        p,
        blocks,
        digest,
        level,
        listed,
    ));
}

/// The item that is handed out.
pub open spec fn handed_out(item: Option<Result<(u64, u32), String>>) -> Option<Item> {
    match item {
        Some(item) => Some(item_view(item)),
        None => None,
    }
}

/// What a call hands out, what is pending after it, how far the surface has come and what was read
/// for it.
pub open spec fn goes_on<'a, RS: RootsStorage, S: Storage, R: TrieReader>(
    before: DrilldownIteratorEssence<'a, RS, S>,
    reader_before: R,
    item: Option<Result<(u64, u32), String>>,
    after: DrilldownIteratorEssence<'a, RS, S>,
    reader_after: R,
) -> bool {
    let q = before.query(reader_before.reading(), before.nodes());
    let s = step(q, before.pending());
    &&& handed_out(item) == s.item
    &&& after.pending() == s.pending
    &&& after.pending().points.len() <= before.pending().points.len()
    &&& after.surface() == advanced(
        before.surface(),
        (before.pending().points.len() - after.pending().points.len()) as nat,
    )
    &&& reader_after.recorded() == reader_before.recorded() + kept(
        reader_before,
        reads(q, s.visits),
    )
}

/// A change that is pending is handed out, and nothing else is done for it.
pub open spec fn hands_out_first<'a, RS: RootsStorage, S: Storage, R: TrieReader>(
    before: DrilldownIteratorEssence<'a, RS, S>,
    reader_before: R,
    item: Option<Result<(u64, u32), String>>,
    after: DrilldownIteratorEssence<'a, RS, S>,
    reader_after: R,
) -> bool {
    before.pending_changes().len() > 0 ==> {
        &&& item == Some(Ok::<(u64, u32), String>(before.pending_changes()[0]))
        &&& after.pending_changes() == before.pending_changes().drop_first()
        &&& after.pending_blocks() == before.pending_blocks()
        &&& after.surface() == before.surface()
        &&& reader_after == reader_before
    }
}

/// If looking at the next block fails, the error is handed out and the block is dropped. Only
/// changes of that very block can be pending then, and none if its root or its extrinsics could
/// not be read. If it succeeds and the block has changes, the last of them is handed out and the
/// others are pending, and so are the blocks that it lists. Either way the surface is left alone.
pub open spec fn looks_at_next<'a, RS: RootsStorage, S: Storage, R: TrieReader>(
    before: DrilldownIteratorEssence<'a, RS, S>,
    reader_before: R,
    item: Option<Result<(u64, u32), String>>,
    after: DrilldownIteratorEssence<'a, RS, S>,
) -> bool {
    let q = before.query(reader_before.reading(), before.nodes());
    forall|block: u64| #[trigger]
        is_next(before.pending(), block) ==> {
            let v = visit(q, block);
            let changes = changes_in(block, v.extrinsics);
            &&& v.failure matches Some(message) ==> {
                &&& handed_out(item) == Some(Err::<(u64, u32), Seq<char>>(message))
                &&& after.pending_changes() == changes
                &&& after.pending_blocks() == before.pending_blocks().remove(block)
                &&& after.surface() == before.surface()
            }
            &&& v.failure is None && v.extrinsics.len() > 0 ==> {
                &&& item == Some(Ok::<(u64, u32), String>((block, v.extrinsics.last())))
                &&& after.pending_changes() == changes.drop_first()
                &&& after.pending_blocks() == with_listed(
                    q,
                    before.pending_blocks().remove(block),
                    block,
                    before.pending_blocks()[block],
                    v.blocks,
                )
                &&& after.surface() == before.surface()
            }
        }
}

/// If no item is left, nothing is pending and the surface is at its end. Where this is so, no item
/// is left and nothing changes.
pub open spec fn ends<'a, RS: RootsStorage, S: Storage, R: TrieReader>(
    before: DrilldownIteratorEssence<'a, RS, S>,
    reader_before: R,
    item: Option<Result<(u64, u32), String>>,
    after: DrilldownIteratorEssence<'a, RS, S>,
    reader_after: R,
) -> bool {
    &&& item is None ==> {
        &&& is_done(after.pending())
        &&& after.surface().current is None
        &&& after.visits(reader_before.reading()).len() == 0
        &&& after.reads(reader_before.reading()).len() == 0
    }
    &&& is_done(before.pending()) ==> {
        &&& item is None
        &&& after.pending() == before.pending()
        &&& after.surface() == before.surface()
        &&& reader_after == reader_before
    }
}

/// A result of an option as an option of a result.
pub open spec fn flip(result: Result<Option<(u64, u32)>, String>) -> Option<
    Result<(u64, u32), String>,
> {
    match result {
        Ok(Some(change)) => Some(Ok(change)),
        Ok(None) => None,
        Err(message) => Some(Err(message)),
    }
}

pub open spec fn extrinsics_reply(reply: Result<Vec<u32>, String>) -> Result<
    Seq<u32>,
    Seq<char>,
> {
    match reply {
        Ok(extrinsics) => Ok(extrinsics@),
        Err(message) => Err(message@),
    }
}

pub open spec fn blocks_reply(reply: Result<Vec<u64>, String>) -> Result<Seq<u64>, Seq<char>> {
    match reply {
        Ok(blocks) => Ok(blocks@),
        Err(message) => Err(message@),
    }
}

} // verus!
