//! What a query for the changes of a key finds, stated over what the storage holds.

use crate::codec::{blocks_value, digest_key, extrinsic_key, extrinsics_value};
use crate::nodes::Nodes;
use crate::queue::{raised, Levels};
use crate::storage::RootsStorage;
use crate::surface::{invalid_range, points_descend, surface_points};
use crate::trie::{trie_reading, Reading};
use crate::types::{AnchorBlockId, Configuration};
use vstd::prelude::*;

verus! {

/// What a query yields one by one: a block and the index of an extrinsic in it that changed the
/// key, or the message of an error.
pub type Item = Result<(u64, u32), Seq<char>>;

/// What a query asks for, and what it reads the answer from.
pub struct Query {
    /// The root of the changes trie of each block, as the storage answers it.
    pub roots: spec_fn(u64) -> Result<Option<Seq<u8>>, Seq<char>>,
    /// How tries are read.
    pub reading: Reading,
    /// The trie nodes that can be read.
    pub nodes: Nodes,
    /// The storage key.
    pub key: Seq<u8>,
    /// The first block of the range.
    pub begin: u64,
    /// The last block of the range.
    pub end: u64,
}

/// The answers of a roots storage for one anchor.
pub open spec fn roots_at<RS: RootsStorage>(storage: RS, anchor: AnchorBlockId) -> spec_fn(
    u64,
) -> Result<Option<Seq<u8>>, Seq<char>> {
    |block: u64| storage.root_at(anchor, block)
}

/// The query for the changes of `key` from block `begin` to the anchor block.
pub open spec fn query_of<RS: RootsStorage>(
    storage: RS,
    nodes: Nodes,
    key: Seq<u8>,
    begin: u64,
    end: AnchorBlockId,
) -> Query {
    Query {
        roots: roots_at(storage, end),
        reading: trie_reading(),
        nodes,
        key,
        begin,
        end: end.number,
    }
}

/// The same query, answered from other nodes.
pub open spec fn with_nodes(q: Query, nodes: Nodes) -> Query {
    Query { nodes, ..q }
}

pub open spec fn in_range(q: Query, block: u64) -> bool {
    q.begin <= block <= q.end
}

/// `n` in decimal digits.
pub open spec fn decimal(n: nat) -> Seq<char>
    decreases n,
{
    if n < 10 {
        seq![('0' as u32 + n) as char]
    } else {
        decimal(n / 10).push(('0' as u32 + n % 10) as char)
    }
}

/// The message for a block without a known changes trie root.
pub open spec fn root_not_found(block: u64) -> Seq<char> {
    "Changes trie root for block "@ + decimal(block as nat) + " is not found"@
}

/// The extrinsics that a block's trie lists for the key. An entry that is missing or cannot be
/// decoded lists none.
pub open spec fn extrinsics_at(q: Query, root: Seq<u8>, block: u64) -> Result<
    Seq<u32>,
    Seq<char>,
> {
    match (q.reading.value)(q.nodes, root, extrinsic_key(block, q.key)) {
        Ok(Some(bytes)) => match extrinsics_value(bytes) {
            Some(extrinsics) => Ok(extrinsics),
            None => Ok(Seq::empty()),
        },
        Ok(None) => Ok(Seq::empty()),
        Err(message) => Err(message),
    }
}

/// The blocks that a digest block's trie lists for the key. An entry that is missing or cannot be
/// decoded lists none.
pub open spec fn blocks_at(q: Query, root: Seq<u8>, block: u64) -> Result<Seq<u64>, Seq<char>> {
    match (q.reading.value)(q.nodes, root, digest_key(block, q.key)) {
        Ok(Some(bytes)) => match blocks_value(bytes) {
            Some(blocks) => Ok(blocks),
            None => Ok(Seq::empty()),
        },
        Ok(None) => Ok(Seq::empty()),
        Err(message) => Err(message),
    }
}

/// What looking at one block gives.
pub struct Visit {
    /// The extrinsics of the block that changed the key, if the block is in range.
    pub extrinsics: Seq<u32>,
    /// The error that stopped the visit.
    pub failure: Option<Seq<char>>,
    /// The blocks that the digest in this block lists.
    pub blocks: Seq<u64>,
}

pub open spec fn failed(message: Seq<char>) -> Visit {
    Visit { extrinsics: Seq::empty(), failure: Some(message), blocks: Seq::empty() }
}

/// Looks at one block: its root has to be known, and its trie is read if it is not below the range.
pub open spec fn visit(q: Query, block: u64) -> Visit {
    match (q.roots)(block) {
        Err(message) => failed(message),
        Ok(None) => failed(root_not_found(block)),
        Ok(Some(root)) => if block < q.begin {
            Visit { extrinsics: Seq::empty(), failure: None, blocks: Seq::empty() }
        } else {
            let extrinsics = if block <= q.end {
                extrinsics_at(q, root, block)
            } else {
                Ok(Seq::empty())
            };
            match extrinsics {
                Err(message) => failed(message),
                Ok(extrinsics) => match blocks_at(q, root, block) {
                    Err(message) => Visit {
                        extrinsics,
                        failure: Some(message),
                        blocks: Seq::empty(),
                    },
                    Ok(blocks) => Visit { extrinsics, failure: None, blocks },
                },
            }
        },
    }
}

/// The changes in one block, the last extrinsic first.
pub open spec fn changes_in(block: u64, extrinsics: Seq<u32>) -> Seq<(u64, u32)> {
    extrinsics.reverse().map_values(|extrinsic: u32| (block, extrinsic))
}

pub open spec fn found_items(changes: Seq<(u64, u32)>) -> Seq<Item> {
    changes.map_values(|change: (u64, u32)| Ok::<(u64, u32), Seq<char>>(change))
}

/// What a block itself yields. An error comes before the changes that were found in front of it.
pub open spec fn own_items(block: u64, v: Visit) -> Seq<Item> {
    let found = found_items(changes_in(block, v.extrinsics));
    match v.failure {
        Some(message) => seq![Err(message)] + found,
        None => found,
    }
}

/// Which of the blocks that the digest of `level` in block `digest` lists are looked at. Those of
/// the lowest level are single blocks, and only the ones in range matter. A block of level zero is
/// no digest, and no digest lists blocks behind it.
pub open spec fn is_followed(q: Query, digest: u64, level: u32, block: u64) -> bool {
    &&& level > 0
    &&& block < digest
    &&& level > 1 || in_range(q, block)
}

/// `block` is to be looked at because the digest of `level` in block `digest` lists it.
pub open spec fn is_listed(
    q: Query,
    digest: u64,
    level: u32,
    listed: Seq<u64>,
    block: u64,
) -> bool {
    listed.contains(block) && is_followed(q, digest, level, block)
}

/// `blocks` and those that the digest of `level` in block `digest` lists, which are taken one
/// level below it. A block that is there already keeps the higher level.
pub open spec fn with_listed(
    q: Query,
    blocks: Levels,
    digest: u64,
    level: u32,
    listed: Seq<u64>,
) -> Levels {
    Map::new(
        |block: u64| blocks.contains_key(block) || is_listed(q, digest, level, listed, block),
        |block: u64|
            if is_listed(q, digest, level, listed, block) && !(blocks.contains_key(block)
                && blocks[block] >= level - 1) {
                (level - 1) as u32
            } else {
                blocks[block]
            },
    )
}

/// The blocks that are to be looked at after `block`, which is one of `blocks`.
pub open spec fn followed_up(q: Query, blocks: Levels, block: u64) -> Levels {
    with_listed(q, blocks.remove(block), block, blocks[block], visit(q, block).blocks)
}

/// The blocks up to `n` that are looked at if `blocks` are to be looked at, in this order: the last
/// one first. A block is looked at if it is one of them, or if a digest that has been looked at
/// lists it. The root of each of them is asked for, and of no others.
pub open spec fn visits_from(q: Query, blocks: Levels, n: int) -> Seq<u64>
    decreases n + 1,
{
    if n < 0 {
        Seq::empty()
    } else if blocks.contains_key(n as u64) {
        seq![n as u64] + visits_from(q, followed_up(q, blocks, n as u64), n - 1)
    } else {
        visits_from(q, blocks, n - 1)
    }
}

/// All blocks that are looked at if `blocks` are to be looked at.
pub open spec fn visits(q: Query, blocks: Levels) -> Seq<u64> {
    visits_from(q, blocks, u64::MAX as int)
}

/// `blocks` and the digests of `points`. Each block has the highest of its levels.
pub open spec fn with_points(blocks: Levels, points: Seq<(u64, u32)>) -> Levels
    decreases points.len(),
{
    if points.len() == 0 {
        blocks
    } else {
        with_points(raised(blocks, points[0].0, points[0].1), points.drop_first())
    }
}

/// The surface of a query. No digest behind the end of the range is used: the query is anchored
/// there.
pub open spec fn query_points(config: Configuration, q: Query) -> Seq<(u64, u32)> {
    surface_points(config, q.end as int, q.begin as int, q.end as int)
}

/// All blocks that a query looks at, in the order of looking.
pub open spec fn query_visits(config: Configuration, q: Query) -> Seq<u64> {
    visits(q, with_points(Map::empty(), query_points(config, q)))
}

/// What looking at `blocks` yields.
pub open spec fn items_of(q: Query, blocks: Seq<u64>) -> Seq<Item>
    decreases blocks.len(),
{
    if blocks.len() == 0 {
        Seq::empty()
    } else {
        own_items(blocks[0], visit(q, blocks[0])) + items_of(q, blocks.drop_first())
    }
}

/// All that a query yields.
pub open spec fn query_items(config: Configuration, q: Query) -> Seq<Item> {
    items_of(q, query_visits(config, q))
}

/// The changes up to the first error, or that error.
pub open spec fn collected(items: Seq<Item>) -> Result<Seq<(u64, u32)>, Seq<char>>
    decreases items.len(),
{
    if items.len() == 0 {
        Ok(Seq::empty())
    } else {
        match items[0] {
            Err(message) => Err(message),
            Ok(change) => match collected(items.drop_first()) {
                Err(message) => Err(message),
                Ok(changes) => Ok(seq![change] + changes),
            },
        }
    }
}

/// The trie nodes, with their hashes, that looking at one block reads.
pub open spec fn visit_reads(q: Query, block: u64) -> Seq<(Seq<u8>, Seq<u8>)> {
    match (q.roots)(block) {
        Ok(Some(root)) => if block < q.begin {
            Seq::empty()
        } else if block > q.end {
            (q.reading.path)(q.nodes, root, digest_key(block, q.key))
        } else if extrinsics_at(q, root, block) is Err {
            (q.reading.path)(q.nodes, root, extrinsic_key(block, q.key))
        } else {
            (q.reading.path)(q.nodes, root, extrinsic_key(block, q.key)) + (q.reading.path)(
                q.nodes,
                root,
                digest_key(block, q.key),
            )
        },
        _ => Seq::empty(),
    }
}

/// The trie nodes, with their hashes, that looking at `blocks` reads, in the order of reading.
pub open spec fn reads(q: Query, blocks: Seq<u64>) -> Seq<(Seq<u8>, Seq<u8>)>
    decreases blocks.len(),
{
    if blocks.len() == 0 {
        Seq::empty()
    } else {
        visit_reads(q, blocks[0]) + reads(q, blocks.drop_first())
    }
}

/// All trie nodes, with their hashes, that a query reads, in the order of reading.
pub open spec fn query_reads(config: Configuration, q: Query) -> Seq<(Seq<u8>, Seq<u8>)> {
    reads(q, query_visits(config, q))
}

/// What a query is answered when `max` is the best known block: all that it yields and the trie
/// nodes that it reads, or that its range is upside down or reaches beyond `max`.
pub open spec fn query_answer(config: Configuration, q: Query, max: u64) -> Result<
    (Seq<Item>, Seq<(Seq<u8>, Seq<u8>)>),
    Seq<char>,
> {
    if q.begin > q.end || q.end > max {
        Err(invalid_range())
    } else {
        Ok((query_items(config, q), query_reads(config, q)))
    }
}

/// What a drilldown under way still has to do.
#[verifier::ext_equal]
pub struct Pending {
    /// Changes that are found and not yet handed out.
    pub changes: Seq<(u64, u32)>,
    /// Blocks that are to be looked at, with their levels.
    pub blocks: Levels,
    /// Digests of the surface that are still to come.
    pub points: Seq<(u64, u32)>,
}

/// The blocks that are still to be looked at.
pub open spec fn visits_left(q: Query, p: Pending) -> Seq<u64> {
    visits(q, with_points(p.blocks, p.points))
}

/// All that is still to come.
pub open spec fn items_left(q: Query, p: Pending) -> Seq<Item> {
    found_items(p.changes) + items_of(q, visits_left(q, p))
}

/// The trie nodes, with their hashes, that are still to be read.
pub open spec fn reads_left(q: Query, p: Pending) -> Seq<(Seq<u8>, Seq<u8>)> {
    reads(q, visits_left(q, p))
}

/// Nothing is left to do.
pub open spec fn is_done(p: Pending) -> bool {
    p.changes.len() == 0 && p.blocks == Levels::empty() && p.points.len() == 0
}

/// What is pending after a digest has been taken from the surface.
pub open spec fn drawn(p: Pending) -> Pending {
    Pending {
        changes: p.changes,
        blocks: raised(p.blocks, p.points[0].0, p.points[0].1),
        points: p.points.drop_first(),
    }
}

/// What is pending after `block`, one of the pending ones, has been looked at.
pub open spec fn visited(q: Query, p: Pending, block: u64) -> Pending {
    Pending {
        changes: changes_in(block, visit(q, block).extrinsics),
        blocks: followed_up(q, p.blocks, block),
        points: p.points,
    }
}

/// What asking a drilldown for the next item does.
#[verifier::ext_equal]
pub struct Step {
    /// The item, if there was one left.
    pub item: Option<Item>,
    /// What is pending then.
    pub pending: Pending,
    /// The blocks that were looked at for it.
    pub visits: Seq<u64>,
}

/// Hands out the first change that was found.
pub open spec fn hand_out(p: Pending) -> Step {
    Step {
        item: Some(Ok(p.changes[0])),
        pending: Pending { changes: p.changes.drop_first(), ..p },
        visits: Seq::empty(),
    }
}

/// `first` was looked at before what `s` did.
pub open spec fn after_visits(first: Seq<u64>, s: Step) -> Step {
    Step { visits: first + s.visits, ..s }
}

/// Looks at the pending blocks up to `n`, the last one first, for a change or an error. A digest is
/// taken from the surface when it is its turn.
pub open spec fn seek(q: Query, p: Pending, n: int) -> Step
    decreases n + 1, p.points.len(),
{
    if n < 0 {
        Step { item: None, pending: p, visits: Seq::empty() }
    } else if p.points.len() > 0 && p.points[0].0 == n {
        seek(q, drawn(p), n)
    } else if !p.blocks.contains_key(n as u64) {
        seek(q, p, n - 1)
    } else {
        let next = visited(q, p, n as u64);
        after_visits(
            seq![n as u64],
            match visit(q, n as u64).failure {
                Some(message) => Step {
                    item: Some(Err(message)),
                    pending: next,
                    visits: Seq::empty(),
                },
                None => if next.changes.len() > 0 {
                    hand_out(next)
                } else {
                    seek(q, next, n - 1)
                },
            },
        )
    }
}

/// `block` is the one that is looked at next: no change is pending, the block is, and nothing is
/// behind it, neither pending nor on the surface.
pub open spec fn is_next(p: Pending, block: u64) -> bool {
    &&& p.changes.len() == 0
    &&& p.blocks.contains_key(block)
    &&& none_behind(p.blocks, block as int)
    &&& points_up_to(p.points, block - 1)
}

/// Goes on with what is pending, if nothing behind `n` is.
pub open spec fn resume(q: Query, p: Pending, n: int) -> Step {
    if p.changes.len() > 0 {
        hand_out(p)
    } else {
        seek(q, p, n)
    }
}

/// Asks for the next item: the first change that was found, or else the first that is found or the
/// first error that is met by looking at one block after the other, the last one first.
pub open spec fn step(q: Query, p: Pending) -> Step {
    resume(q, p, u64::MAX as int)
}

pub proof fn lemma_reads_both(q: Query, first: Seq<u64>, second: Seq<u64>)
    ensures
        reads(q, first + second) == reads(q, first) + reads(q, second),
    decreases first.len(),
{
    if first.len() == 0 {
        assert(first + second =~= second);
        assert(reads(q, first) + reads(q, second) =~= reads(q, second));
    } else {
        lemma_reads_both(q, first.drop_first(), second);
        assert((first + second).drop_first() =~= first.drop_first() + second);
        assert(reads(q, first + second) =~= reads(q, first) + reads(q, second));
    }
}

pub proof fn lemma_reads_one(q: Query, block: u64)
    ensures
        reads(q, seq![block]) == visit_reads(q, block),
{
    assert(seq![block].drop_first() =~= Seq::empty());
    assert(reads(q, Seq::empty()) =~= Seq::empty());
    assert(reads(q, seq![block]) =~= visit_reads(q, block));
}

pub proof fn lemma_items_both(q: Query, first: Seq<u64>, second: Seq<u64>)
    ensures
        items_of(q, first + second) == items_of(q, first) + items_of(q, second),
    decreases first.len(),
{
    if first.len() == 0 {
        assert(first + second =~= second);
        assert(items_of(q, first) + items_of(q, second) =~= items_of(q, second));
    } else {
        lemma_items_both(q, first.drop_first(), second);
        assert((first + second).drop_first() =~= first.drop_first() + second);
        assert(items_of(q, first + second) =~= items_of(q, first) + items_of(q, second));
    }
}

pub proof fn lemma_items_one(q: Query, block: u64)
    ensures
        items_of(q, seq![block]) == own_items(block, visit(q, block)),
{
    assert(seq![block].drop_first() =~= Seq::empty());
    assert(items_of(q, Seq::empty()) =~= Seq::empty());
    assert(items_of(q, seq![block]) =~= own_items(block, visit(q, block)));
}

/// No block behind `n` is to be looked at.
pub open spec fn none_behind(blocks: Levels, n: int) -> bool {
    forall|block: u64| #[trigger] blocks.contains_key(block) ==> block <= n
}

/// No digest of `points` is behind `n`.
pub open spec fn points_up_to(points: Seq<(u64, u32)>, n: int) -> bool {
    forall|i: int| 0 <= i < points.len() ==> (#[trigger] points[i]).0 <= n
}

/// Where no block is to be looked at, looking starts further down.
pub proof fn lemma_visits_skip(q: Query, blocks: Levels, n: int, m: int)
    requires
        -1 <= m <= n <= u64::MAX,
        none_behind(blocks, m),
    ensures
        visits_from(q, blocks, n) == visits_from(q, blocks, m),
    decreases n - m,
{
    if m < n {
        assert(!blocks.contains_key(n as u64));
        lemma_visits_skip(q, blocks, n - 1, m);
    }
}

/// The same of looking for an item.
pub proof fn lemma_seek_skip(q: Query, p: Pending, n: int, m: int)
    requires
        -1 <= m <= n <= u64::MAX,
        none_behind(p.blocks, m),
        points_up_to(p.points, m),
    ensures
        seek(q, p, n) == seek(q, p, m),
    decreases n - m,
{
    if m < n {
        assert(!p.blocks.contains_key(n as u64));
        if p.points.len() > 0 {
            assert(p.points[0].0 <= m);
        }
        lemma_seek_skip(q, p, n - 1, m);
    }
}

/// What a digest lists, with the last one taken apart.
pub proof fn lemma_with_listed_last(
    q: Query,
    blocks: Levels,
    digest: u64,
    level: u32,
    listed: Seq<u64>,
    k: int,
)
    requires
        0 < k <= listed.len(),
    ensures
        with_listed(q, blocks, digest, level, listed.take(k)) == if is_followed(
            q,
            digest,
            level,
            listed[k - 1],
        ) {
            raised(
                with_listed(q, blocks, digest, level, listed.take(k - 1)),
                listed[k - 1],
                (level - 1) as u32,
            )
        } else {
            with_listed(q, blocks, digest, level, listed.take(k - 1))
        },
{
    let all = listed.take(k);
    let less = listed.take(k - 1);
    assert forall|block: u64| all.contains(block) <==> less.contains(block) || block == listed[k
        - 1] by {
        if all.contains(block) {
            let i = choose|i: int| 0 <= i < all.len() && all[i] == block;
            if i < k - 1 {
                assert(less[i] == block);
            }
        }
        if less.contains(block) {
            let i = choose|i: int| 0 <= i < less.len() && less[i] == block;
            assert(all[i] == block);
        }
        if block == listed[k - 1] {
            assert(all[k - 1] == block);
        }
    }
    let result = with_listed(q, blocks, digest, level, all);
    let before = with_listed(q, blocks, digest, level, less);
    if is_followed(q, digest, level, listed[k - 1]) {
        assert(result =~= raised(before, listed[k - 1], (level - 1) as u32));
    } else {
        assert(result =~= before);
    }
}

/// A digest that lists nothing adds nothing.
pub proof fn lemma_with_none(q: Query, blocks: Levels, digest: u64, level: u32, listed: Seq<u64>)
    requires
        listed.len() == 0 || level == 0,
    ensures
        with_listed(q, blocks, digest, level, listed) == blocks,
{
    assert(with_listed(q, blocks, digest, level, listed) =~= blocks);
}

/// What a digest lists lies before it.
pub proof fn lemma_followed_up_before(q: Query, blocks: Levels, block: u64)
    requires
        none_behind(blocks, block as int),
    ensures
        none_behind(followed_up(q, blocks, block), block - 1),
{
}

/// Which level a block has with points of the surface.
pub proof fn lemma_with_points(blocks: Levels, points: Seq<(u64, u32)>, block: u64)
    ensures
        blocks.contains_key(block) ==> with_points(blocks, points).contains_key(block)
            && with_points(blocks, points)[block] >= blocks[block],
        forall|i: int|
            0 <= i < points.len() && (#[trigger] points[i]).0 == block ==> with_points(
                blocks,
                points,
            ).contains_key(block) && with_points(blocks, points)[block] >= points[i].1,
        (forall|i: int| 0 <= i < points.len() ==> (#[trigger] points[i]).0 != block) ==> {
            &&& with_points(blocks, points).contains_key(block) == blocks.contains_key(block)
            &&& blocks.contains_key(block) ==> with_points(blocks, points)[block] == blocks[block]
        },
    decreases points.len(),
{
    if points.len() > 0 {
        let more = raised(blocks, points[0].0, points[0].1);
        let rest = points.drop_first();
        lemma_with_points(more, rest, block);
        assert forall|i: int|
            0 <= i < points.len() && (#[trigger] points[i]).0 == block implies with_points(
            blocks,
            points,
        ).contains_key(block) && with_points(blocks, points)[block] >= points[i].1 by {
            if i > 0 {
                assert(rest[i - 1] == points[i]);
            }
        }
        if forall|i: int| 0 <= i < points.len() ==> (#[trigger] points[i]).0 != block {
            assert(points[0].0 != block);
            assert forall|i: int| 0 <= i < rest.len() implies (#[trigger] rest[i]).0 != block by {
                assert(rest[i] == points[i + 1]);
            }
        }
    }
}

pub proof fn lemma_with_points_up_to(blocks: Levels, points: Seq<(u64, u32)>, n: int)
    requires
        none_behind(blocks, n),
        points_up_to(points, n),
    ensures
        none_behind(with_points(blocks, points), n),
    decreases points.len(),
{
    if points.len() > 0 {
        let rest = points.drop_first();
        assert(points[0].0 <= n);
        assert forall|i: int| 0 <= i < rest.len() implies (#[trigger] rest[i]).0 <= n by {
            assert(rest[i] == points[i + 1]);
        }
        lemma_with_points_up_to(raised(blocks, points[0].0, points[0].1), rest, n);
    }
}

/// It does not matter whether digests are taken from the surface before or after a block has been
/// looked at.
proof fn lemma_followed_up_points(q: Query, blocks: Levels, points: Seq<(u64, u32)>, block: u64)
    requires
        blocks.contains_key(block),
        points_up_to(points, block - 1),
    ensures
        with_points(followed_up(q, blocks, block), points) == followed_up(
            q,
            with_points(blocks, points),
            block,
        ),
    decreases points.len(),
{
    if points.len() > 0 {
        let (point, level) = points[0];
        let rest = points.drop_first();
        assert(point <= block - 1);
        assert forall|i: int| 0 <= i < rest.len() implies (#[trigger] rest[i]).0 <= block - 1 by {
            assert(rest[i] == points[i + 1]);
        }
        lemma_followed_up_points(q, raised(blocks, point, level), rest, block);
        assert(followed_up(q, raised(blocks, point, level), block) =~= raised(
            followed_up(q, blocks, block),
            point,
            level,
        ));
    }
}

/// What looking at the last of the pending blocks leaves.
pub proof fn lemma_visited(q: Query, p: Pending, block: u64)
    requires
        p.changes.len() == 0,
        p.blocks.contains_key(block),
        none_behind(p.blocks, block as int),
        points_up_to(p.points, block - 1),
    ensures
        ({
            let next = visited(q, p, block);
            &&& none_behind(next.blocks, block - 1)
            &&& visits_left(q, p) == seq![block] + visits_left(q, next)
            &&& items_left(q, p) == match visit(q, block).failure {
                Some(message) => seq![Err(message)] + items_left(q, next),
                None => items_left(q, next),
            }
        }),
{
    let v = visit(q, block);
    let next = visited(q, p, block);
    let all = with_points(p.blocks, p.points);
    lemma_followed_up_before(q, p.blocks, block);
    lemma_followed_up_points(q, p.blocks, p.points, block);
    lemma_with_points(p.blocks, p.points, block);
    assert(points_up_to(p.points, block as int)) by {
        assert forall|i: int| 0 <= i < p.points.len() implies (#[trigger] p.points[i]).0
            <= block by {}
    }
    lemma_with_points_up_to(p.blocks, p.points, block as int);
    lemma_with_points_up_to(next.blocks, p.points, block - 1);
    lemma_visits_skip(q, all, u64::MAX as int, block as int);
    lemma_visits_skip(q, with_points(next.blocks, p.points), u64::MAX as int, block - 1);
    lemma_items_both(q, seq![block], visits_left(q, next));
    lemma_items_one(q, block);
    let tail = items_of(q, visits_left(q, next));
    assert(items_left(q, p) =~= own_items(block, v) + tail);
    if let Some(message) = v.failure {
        assert(own_items(block, v) + tail =~= seq![Err::<(u64, u32), Seq<char>>(message)]
            + items_left(q, next));
    }
}

/// A change that was found is handed out first.
pub proof fn lemma_first_change(q: Query, p: Pending)
    requires
        p.changes.len() > 0,
    ensures
        items_left(q, p) == seq![Ok::<(u64, u32), Seq<char>>(p.changes[0])] + items_left(
            q,
            hand_out(p).pending,
        ),
{
    assert(items_left(q, p) =~= seq![Ok::<(u64, u32), Seq<char>>(p.changes[0])] + items_left(
        q,
        hand_out(p).pending,
    ));
}

/// Only a digest at the very end of the pending ones comes from the surface at once.
pub proof fn lemma_drawn(p: Pending, n: int)
    requires
        p.points.len() > 0,
        points_descend(p.points),
        none_behind(p.blocks, n),
        points_up_to(p.points, n),
    ensures
        none_behind(drawn(p).blocks, n),
        points_up_to(drawn(p).points, p.points[0].0 - 1),
        points_descend(drawn(p).points),
{
    assert(p.points[0].0 <= n);
    assert forall|i: int| 0 <= i < drawn(p).points.len() implies (#[trigger] drawn(p).points[i]).0
        <= p.points[0].0 - 1 by {
        assert(drawn(p).points[i] == p.points[i + 1]);
        assert(p.points[0].0 > p.points[i + 1].0);
    }
}

proof fn lemma_resume(q: Query, p: Pending, n: int)
    requires
        -1 <= n <= u64::MAX,
        none_behind(p.blocks, n),
        points_up_to(p.points, n),
        points_descend(p.points),
    ensures
        ({
            let s = resume(q, p, n);
            &&& points_descend(s.pending.points)
            &&& match s.item {
                Some(item) => items_left(q, p) == seq![item] + items_left(q, s.pending),
                None => items_left(q, p).len() == 0 && is_done(s.pending),
            }
            &&& visits_left(q, p) == s.visits + visits_left(q, s.pending)
        }),
    decreases n + 1, p.points.len(),
{
    let s = resume(q, p, n);
    if p.changes.len() > 0 {
        lemma_first_change(q, p);
        assert(s.visits + visits_left(q, s.pending) =~= visits_left(q, p));
    } else if n < 0 {
        assert(p.blocks =~= Levels::empty());
        if p.points.len() > 0 {
            assert(p.points[0].0 <= n);
        }
        lemma_visits_skip(q, p.blocks, u64::MAX as int, -1);
        assert(visits_left(q, p) =~= Seq::empty());
        assert(items_left(q, p) =~= Seq::empty());
    } else if p.points.len() > 0 && p.points[0].0 == n {
        lemma_drawn(p, n);
        assert(points_up_to(drawn(p).points, n)) by {
            assert forall|i: int| 0 <= i < drawn(p).points.len() implies (
            #[trigger] drawn(p).points[i]).0 <= n by {}
        }
        lemma_resume(q, drawn(p), n);
    } else {
        assert(points_up_to(p.points, n - 1)) by {
            assert forall|i: int| 0 <= i < p.points.len() implies (#[trigger] p.points[i]).0 <= n
                - 1 by {
                if i > 0 {
                    assert(p.points[0].0 > p.points[i].0);
                }
            }
        }
        let block = n as u64;
        if p.blocks.contains_key(block) {
            let next = visited(q, p, block);
            lemma_visited(q, p, block);
            if visit(q, block).failure is None {
                lemma_resume(q, next, n - 1);
            }
            assert(s.visits + visits_left(q, s.pending) =~= visits_left(q, p));
        } else {
            assert(none_behind(p.blocks, n - 1)) by {
                assert forall|b: u64| #[trigger] p.blocks.contains_key(b) implies b <= n - 1 by {}
            }
            lemma_resume(q, p, n - 1);
        }
    }
}

/// One item after the other, a drilldown hands out all that is to come, and it looks at the blocks
/// and reads the nodes that are to be looked at and to be read.
pub proof fn lemma_step(q: Query, p: Pending)
    requires
        points_descend(p.points),
    ensures
        ({
            let s = step(q, p);
            &&& points_descend(s.pending.points)
            &&& match s.item {
                Some(item) => items_left(q, p) == seq![item] + items_left(q, s.pending),
                None => items_left(q, p).len() == 0 && is_done(s.pending),
            }
            &&& visits_left(q, p) == s.visits + visits_left(q, s.pending)
            &&& reads_left(q, p) == reads(q, s.visits) + reads_left(q, s.pending)
        }),
{
    let s = step(q, p);
    lemma_resume(q, p, u64::MAX as int);
    lemma_reads_both(q, s.visits, visits_left(q, s.pending));
}

/// What asking for the next item does if `block` is the next one to be looked at.
pub proof fn lemma_next_block(q: Query, p: Pending, block: u64)
    requires
        is_next(p, block),
    ensures
        ({
            let next = visited(q, p, block);
            step(q, p) == after_visits(
                seq![block],
                match visit(q, block).failure {
                    Some(message) => Step {
                        item: Some(Err(message)),
                        pending: next,
                        visits: Seq::empty(),
                    },
                    None => resume(q, next, block - 1),
                },
            )
        }),
{
    assert(points_up_to(p.points, block as int)) by {
        assert forall|i: int| 0 <= i < p.points.len() implies (#[trigger] p.points[i]).0
            <= block by {}
    }
    if p.points.len() > 0 {
        assert(p.points[0].0 <= block - 1);
    }
    lemma_seek_skip(q, p, u64::MAX as int, block as int);
}

/// Where nothing is pending, nothing is left.
pub proof fn lemma_done(q: Query, p: Pending)
    requires
        is_done(p),
    ensures
        visits_left(q, p).len() == 0,
        reads_left(q, p).len() == 0,
        items_left(q, p).len() == 0,
        step(q, p) == (Step { item: None, pending: p, visits: Seq::empty() }),
{
    lemma_visits_skip(q, p.blocks, u64::MAX as int, -1);
    lemma_seek_skip(q, p, u64::MAX as int, -1);
}

} // verus!
