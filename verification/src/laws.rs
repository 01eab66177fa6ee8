//! What holds of every query as a whole.

use crate::arith::{lemma_multiples_apart, lemma_round, lemma_round_unique, round_below, round_up};
use crate::changes::{holds_nodes, is_settled, proves};
use crate::codec::{
    blocks_value, digest_key, extrinsic_key, extrinsics_value, is_trie_key,
    law_trie_key_spells_out_the_entry, lemma_trie_key_unique,
};
use crate::descent::{
    all_in_range, blocks_descend, blocks_up_to, changes_between, descends, lemma_items_in_range,
    lemma_query_descends, lemma_resume_between, lemma_visits_up_to,
};
use crate::faithful::{faithful, lemma_query_finds, lists_at_least, range_changes};
use crate::model::{
    changes_in, collected, decimal, drawn, followed_up, found_items, is_done, is_listed,
    items_left, items_of, lemma_done, lemma_step, lemma_with_points, lemma_with_points_up_to,
    own_items, points_up_to, query_answer, query_items, query_of, query_points, query_reads,
    query_visits, reads, reads_left, resume, roots_at, step, visit, visit_reads, visited,
    visits_from, visits_left, with_listed, with_nodes, with_points, Item, Pending, Query, Step,
};
use crate::nodes::{keccak_256, lemma_nodes_of_by_hash, nodes_of, null_node, Nodes};
use crate::queue::{raised, Levels};
use crate::storage::{RootsStorage, Storage};
use crate::surface::{
    digest_step, lemma_climb, lemma_step_positive, lemma_surface_points, lemma_top,
    lemma_top_below, points_descend, surface_points, top_block, top_floor, top_level, top_step,
};
use crate::trie::{trie_path, trie_value};
use crate::types::{AnchorBlockId, Configuration};
use vstd::arithmetic::power::pow;
use vstd::prelude::*;

verus! {

/// Whatever the storage holds, a query returns changes of blocks in its range only.
pub proof fn law_changes_in_range(config: Configuration, q: Query)
    ensures
        all_in_range(q, query_items(config, q)),
{
    lemma_items_in_range(q, query_visits(config, q));
}

/// Whatever the storage holds, changes come in descending order: the last block comes first.
/// Errors may come in between.
pub proof fn law_changes_descend(config: Configuration, q: Query)
    requires
        q.begin <= q.end,
    ensures
        descends(query_items(config, q)),
{
    lemma_query_descends(config, q);
}

/// Whatever the storage holds, no query looks at a block twice, and blocks are looked at in
/// descending order.
pub proof fn law_no_block_twice(config: Configuration, q: Query)
    ensures
        blocks_descend(query_visits(config, q)),
        query_visits(config, q).no_duplicates(),
{
    lemma_query_descends(config, q);
}

/// No query looks at a block behind the end of its range, whatever the digests list.
pub proof fn law_no_block_behind_the_end(config: Configuration, q: Query)
    requires
        q.begin <= q.end,
    ensures
        blocks_up_to(query_visits(config, q), q.end as int),
{
    let points = query_points(config, q);
    lemma_surface_points(config, q.end, q.begin, q.end as int);
    assert(points_up_to(points, q.end as int)) by {
        assert forall|i: int| 0 <= i < points.len() implies (#[trigger] points[i]).0 <= q.end by {}
    }
    lemma_with_points_up_to(Map::empty(), points, q.end as int);
    lemma_visits_up_to(q, with_points(Map::empty(), points), q.end as int);
}

/// In a storage whose tries are truthful, a query meets no error and finds all changes of the
/// range, each of them once, and no others, the last block first. Digests may list their blocks in
/// any order and more than once, and other blocks too.
pub proof fn law_each_change_once(
    config: Configuration,
    q: Query,
    extrinsics: spec_fn(u64) -> Seq<u32>,
)
    requires
        faithful(config, q, extrinsics),
        q.begin <= q.end,
    ensures
        query_items(config, q) == found_items(range_changes(q, extrinsics)),
{
    let tail = lemma_query_finds(config, q, extrinsics);
    assert(found_items(range_changes(q, extrinsics)) + tail =~= found_items(
        range_changes(q, extrinsics),
    ));
}

/// Where each digest lists at least the blocks that it is the parent of and in whose span the key
/// was changed, every change of the range is found. Only what the genesis block yields, if a
/// digest lists it, comes after them.
pub proof fn law_every_change_found(
    config: Configuration,
    q: Query,
    extrinsics: spec_fn(u64) -> Seq<u32>,
)
    requires
        lists_at_least(config, q, extrinsics),
        q.begin <= q.end,
    ensures
        ({
            let expected = found_items(range_changes(q, extrinsics));
            ||| query_items(config, q) == expected
            ||| query_items(config, q) == expected + own_items(0, visit(q, 0))
        }),
{
    let tail = lemma_query_finds(config, q, extrinsics);
    if tail.len() == 0 {
        assert(found_items(range_changes(q, extrinsics)) + tail =~= found_items(
            range_changes(q, extrinsics),
        ));
    }
}

/// A drilldown under way that holds no changes of blocks outside of its range hands out none and
/// finds none, whatever the storage holds. The same is true if it holds changes of blocks before
/// the range, down to some block: it hands out and holds none further down, and none behind the
/// end.
pub proof fn law_pending_changes_stay_in_range(q: Query, p: Pending, low: u64)
    requires
        low <= q.begin,
        changes_between(q, low, p.changes),
    ensures
        step(q, p).item matches Some(Ok(change)) ==> low <= change.0 <= q.end,
        changes_between(q, low, step(q, p).pending.changes),
        forall|i: int|
            0 <= i < items_left(q, p).len() ==> ((#[trigger] items_left(q, p)[i]) matches Ok(change)
                ==> low <= change.0 <= q.end),
{
    lemma_resume_between(q, p, u64::MAX as int, low);
    let found = found_items(p.changes);
    let rest = items_of(q, visits_left(q, p));
    lemma_items_in_range(q, visits_left(q, p));
    assert forall|i: int| 0 <= i < items_left(q, p).len() implies ((
    #[trigger] items_left(q, p)[i]) matches Ok(change) ==> low <= change.0 <= q.end) by {
        if i < found.len() {
            assert(items_left(q, p)[i] == found[i]);
            assert(found[i] == Ok::<(u64, u32), Seq<char>>(p.changes[i]));
        } else {
            assert(items_left(q, p)[i] == rest[i - found.len()]);
        }
    }
}

/// A drilldown that has handed out its last item stays at its end: it hands out nothing, looks at
/// no block and reads no node ever after.
pub proof fn law_the_end_is_final(q: Query, p: Pending)
    requires
        points_descend(p.points),
        step(q, p).item is None,
    ensures
        ({
            let end = step(q, p).pending;
            &&& is_done(end)
            &&& step(q, end) == (Step { item: None, pending: end, visits: Seq::empty() })
            &&& items_left(q, end).len() == 0
            &&& visits_left(q, end).len() == 0
            &&& reads_left(q, end).len() == 0
        }),
{
    lemma_step(q, p);
    lemma_done(q, step(q, p).pending);
}

/// Which block is the best known one does not matter to a query, as long as it is not before the
/// end of the range: the answer and the nodes that are read for it are the same.
pub proof fn law_best_block_does_not_matter(
    config: Configuration,
    q: Query,
    max: u64,
    other_max: u64,
)
    requires
        q.end <= max,
        q.end <= other_max,
    ensures
        query_answer(config, q, max) == query_answer(config, q, other_max),
{
}

/// Reading an entry gives the same in both places, or bytes that hold no list in the one and
/// nothing in the other.
pub open spec fn same_entry<T>(
    value: Result<Option<Seq<u8>>, Seq<char>>,
    other: Result<Option<Seq<u8>>, Seq<char>>,
    decode: spec_fn(Seq<u8>) -> Option<Seq<T>>,
) -> bool {
    ||| value == other
    ||| value matches Ok(Some(bytes)) && decode(bytes) is None && other == Ok::<
        Option<Seq<u8>>,
        Seq<char>,
    >(None)
}

/// What is read of a block's extrinsics.
pub open spec fn extrinsics_entry(q: Query, root: Seq<u8>, block: u64) -> Result<
    Option<Seq<u8>>,
    Seq<char>,
> {
    (q.reading.value)(q.nodes, root, extrinsic_key(block, q.key))
}

/// What is read of a block's digest.
pub open spec fn digest_entry(q: Query, root: Seq<u8>, block: u64) -> Result<
    Option<Seq<u8>>,
    Seq<char>,
> {
    (q.reading.value)(q.nodes, root, digest_key(block, q.key))
}

/// Two queries that differ in nothing but in how and from what they read, and there only in that
/// for entries which cannot be decoded the other one reads nothing.
pub open spec fn same_but_undecodable(q: Query, other: Query) -> bool {
    &&& other == (Query { reading: other.reading, nodes: other.nodes, ..q })
    &&& forall|root: Seq<u8>, block: u64|
        same_entry(
            #[trigger] extrinsics_entry(q, root, block),
            extrinsics_entry(other, root, block),
            |bytes: Seq<u8>| extrinsics_value(bytes),
        )
    &&& forall|root: Seq<u8>, block: u64|
        same_entry(
            #[trigger] digest_entry(q, root, block),
            digest_entry(other, root, block),
            |bytes: Seq<u8>| blocks_value(bytes),
        )
}

proof fn lemma_same_visit(q: Query, other: Query, blocks: Levels, block: u64)
    requires
        same_but_undecodable(q, other),
    ensures
        visit(q, block) == visit(other, block),
        followed_up(q, blocks, block) == followed_up(other, blocks, block),
{
    if let Ok(Some(root)) = (q.roots)(block) {
        assert(same_entry(
            extrinsics_entry(q, root, block),
            extrinsics_entry(other, root, block),
            |bytes: Seq<u8>| extrinsics_value(bytes),
        ));
        assert(same_entry(
            digest_entry(q, root, block),
            digest_entry(other, root, block),
            |bytes: Seq<u8>| blocks_value(bytes),
        ));
    }
    let listed = visit(q, block).blocks;
    assert(with_listed(q, blocks.remove(block), block, blocks[block], listed) =~= with_listed(
        other,
        blocks.remove(block),
        block,
        blocks[block],
        listed,
    ));
}

proof fn lemma_same_resume(q: Query, other: Query, p: Pending, n: int)
    requires
        same_but_undecodable(q, other),
    ensures
        resume(q, p, n) == resume(other, p, n),
    decreases n + 1, p.points.len(),
{
    if p.changes.len() > 0 || n < 0 {
    } else if p.points.len() > 0 && p.points[0].0 == n {
        lemma_same_resume(q, other, drawn(p), n);
    } else if p.blocks.contains_key(n as u64) {
        lemma_same_visit(q, other, p.blocks, n as u64);
        assert(visited(q, p, n as u64) == visited(other, p, n as u64));
        lemma_same_resume(q, other, visited(q, p, n as u64), n - 1);
    } else {
        lemma_same_resume(q, other, p, n - 1);
    }
}

/// An entry that cannot be decoded counts as no entry, and is no error: a drilldown under way
/// hands out the same item, looks at the same blocks and is left in the same state if nothing is
/// read in place of such entries.
pub proof fn law_undecodable_is_no_entry(q: Query, other: Query, p: Pending)
    requires
        same_but_undecodable(q, other),
    ensures
        step(q, p) == step(other, p),
{
    lemma_same_resume(q, other, p, u64::MAX as int);
}

proof fn lemma_same_visits(q: Query, other: Query, blocks: Levels, n: int)
    requires
        same_but_undecodable(q, other),
    ensures
        visits_from(q, blocks, n) == visits_from(other, blocks, n),
    decreases n + 1,
{
    if n >= 0 {
        if blocks.contains_key(n as u64) {
            lemma_same_visit(q, other, blocks, n as u64);
            lemma_same_visits(q, other, followed_up(q, blocks, n as u64), n - 1);
        } else {
            lemma_same_visits(q, other, blocks, n - 1);
        }
    }
}

proof fn lemma_same_items(q: Query, other: Query, blocks: Seq<u64>)
    requires
        same_but_undecodable(q, other),
    ensures
        items_of(q, blocks) == items_of(other, blocks),
    decreases blocks.len(),
{
    if blocks.len() > 0 {
        lemma_same_visit(q, other, Map::empty(), blocks[0]);
        lemma_same_items(q, other, blocks.drop_first());
    }
}

/// A whole query yields the same if nothing is read in place of entries that cannot be decoded.
pub proof fn law_undecodable_changes_no_answer(config: Configuration, q: Query, other: Query)
    requires
        same_but_undecodable(q, other),
    ensures
        query_items(config, q) == query_items(config, other),
{
    lemma_same_visits(
        q,
        other,
        with_points(Map::empty(), query_points(config, q)),
        u64::MAX as int,
    );
    lemma_same_items(q, other, query_visits(config, q));
}

/// A database of nodes that are all held elsewhere holds no others but the empty node.
proof fn lemma_nodes_of_held(nodes: Nodes, list: Seq<Seq<u8>>)
    requires
        holds_nodes(nodes, list),
    ensures
        forall|hash: Seq<u8>| #[trigger]
            nodes_of(list).contains_key(hash) ==> (hash == keccak_256(null_node())
                && nodes_of(list)[hash] == null_node()) || (nodes.contains_key(hash)
                && nodes_of(list)[hash] == nodes[hash]),
        forall|i: int|
            0 <= i < list.len() ==> nodes_of(list).contains_key(keccak_256(#[trigger] list[i])),
    decreases list.len(),
{
    if list.len() > 0 {
        let less = list.drop_last();
        assert forall|i: int| 0 <= i < less.len() implies nodes.contains_key(
            keccak_256(#[trigger] less[i]),
        ) && nodes[keccak_256(less[i])] == less[i] by {
            assert(less[i] == list[i]);
        }
        lemma_nodes_of_held(nodes, less);
        let last = list[list.len() - 1];
        assert(nodes.contains_key(keccak_256(last)) && nodes[keccak_256(last)] == last);
        assert forall|hash: Seq<u8>| #[trigger] nodes_of(list).contains_key(hash) implies (hash
            == keccak_256(null_node()) && nodes_of(list)[hash] == null_node()) || (
        nodes.contains_key(hash) && nodes_of(list)[hash] == nodes[hash]) by {
            if nodes_of(less).contains_key(hash) {
                assert(nodes_of(list)[hash] == nodes_of(less)[hash]);
            }
        }
        assert forall|i: int| 0 <= i < list.len() implies nodes_of(list).contains_key(
            keccak_256(#[trigger] list[i]),
        ) by {
            if i < less.len() {
                assert(less[i] == list[i]);
            }
        }
    }
}

/// Two storages know the same roots on the fork that ends in `end`.
pub open spec fn same_roots<R: RootsStorage, S: RootsStorage>(
    roots: R,
    storage: S,
    end: AnchorBlockId,
) -> bool {
    forall|block: u64| #[trigger] roots.root_at(end, block) == storage.root_at(end, block)
}

/// A proof that was made from a storage and is checked against the same roots gives what the
/// storage gives: the same changes in the same order.
pub proof fn law_proof_gives_the_changes<R: RootsStorage, S: Storage>(
    config: Configuration,
    roots: R,
    storage: S,
    begin: u64,
    end: AnchorBlockId,
    key: Seq<u8>,
    proof_nodes: Seq<Seq<u8>>,
)
    requires
        same_roots(roots, storage, end),
        proves(config, query_of(storage, storage.nodes(), key, begin, end), proof_nodes),
    ensures
        query_items(config, query_of(roots, nodes_of(proof_nodes), key, begin, end))
            == query_items(config, query_of(storage, storage.nodes(), key, begin, end)),
{
    let q = query_of(storage, storage.nodes(), key, begin, end);
    let nodes = storage.nodes();
    let proof_db = nodes_of(proof_nodes);
    storage.lemma_nodes_by_hash();
    lemma_nodes_of_held(nodes, proof_nodes);
    assert forall|i: int| 0 <= i < proof_nodes.len() implies proof_db.contains_key(
        keccak_256(#[trigger] proof_nodes[i]),
    ) && proof_db[keccak_256(proof_nodes[i])] == proof_nodes[i] by {
        let hash = keccak_256(proof_nodes[i]);
        assert(nodes.contains_key(hash) && nodes[hash] == proof_nodes[i]);
    }
    assert(holds_nodes(proof_db, proof_nodes));
    assert(roots_at(roots, end) =~= roots_at(storage, end));
    assert(with_nodes(q, proof_db) == query_of(roots, proof_db, key, begin, end));
}

/// No two different nodes, one of each side, have the same hash.
pub open spec fn no_collision(nodes: Nodes, others: Nodes) -> bool {
    forall|node: Seq<u8>, other: Seq<u8>|
        nodes.contains_value(node) && others.contains_value(other) && #[trigger] keccak_256(node)
            == #[trigger] keccak_256(other) ==> node == other
}

/// Whatever nodes come as a proof: if they pass the check against the roots of a storage in which
/// the query meets no error, the check gives the changes that the storage gives, unless two
/// different nodes have the same hash.
pub proof fn law_checked_proof_is_right<R: RootsStorage, S: Storage>(
    config: Configuration,
    roots: R,
    storage: S,
    begin: u64,
    end: AnchorBlockId,
    key: Seq<u8>,
    received: Seq<Seq<u8>>,
)
    requires
        same_roots(roots, storage, end),
        is_settled(config, query_of(storage, storage.nodes(), key, begin, end)),
        is_settled(config, query_of(roots, nodes_of(received), key, begin, end)),
        no_collision(storage.nodes(), nodes_of(received)),
    ensures
        collected(query_items(config, query_of(roots, nodes_of(received), key, begin, end)))
            == collected(
            query_items(config, query_of(storage, storage.nodes(), key, begin, end)),
        ),
{
    let q = query_of(storage, storage.nodes(), key, begin, end);
    let p = query_of(roots, nodes_of(received), key, begin, end);
    let both = q.nodes.union_prefer_right(p.nodes);
    assert(roots_at(roots, end) =~= roots_at(storage, end));
    storage.lemma_nodes_by_hash();
    lemma_nodes_of_by_hash(received);
    assert(p.nodes.submap_of(both));
    assert(q.nodes.submap_of(both)) by {
        assert forall|hash: Seq<u8>| #[trigger]
            q.nodes.dom().contains(hash) implies both.dom().contains(hash) && q.nodes[hash]
            == both[hash] by {
            assert(q.nodes.contains_key(hash));
            if p.nodes.contains_key(hash) {
                assert(q.nodes.contains_value(q.nodes[hash]));
                assert(p.nodes.contains_value(p.nodes[hash]));
                assert(keccak_256(q.nodes[hash]) == keccak_256(p.nodes[hash]));
            }
        }
    }
    assert(with_nodes(q, both) == with_nodes(p, both));
    assert(collected(query_items(config, with_nodes(q, both))) == collected(
        query_items(config, q),
    ));
}

/// `points` are digests, the last block first, that together span the blocks down from `points[0]`
/// to `begin`: each one ends where the span of the one before it ends, and the last one reaches
/// `begin`, or the genesis block.
pub open spec fn spans_down_to(
    config: Configuration,
    points: Seq<(u64, u32)>,
    begin: int,
) -> bool {
    &&& points.len() > 0
    &&& forall|i: int|
        0 < i < points.len() ==> (#[trigger] points[i]).0 == points[i - 1].0 - digest_step(
            config,
            points[i - 1].1 as nat,
        )
    &&& forall|i: int|
        0 <= i < points.len() ==> {
            &&& begin <= (#[trigger] points[i]).0
            &&& 1 <= digest_step(config, points[i].1 as nat)
            &&& points[i].0 as int % digest_step(config, points[i].1 as nat) == 0
        }
    &&& points.last().0 - digest_step(config, points.last().1 as nat) < begin
        || points.last().0 - digest_step(config, points.last().1 as nat) <= 0
}

/// The surface of a range consists of digests that follow each other without a gap and without an
/// overlap. The first one spans the end of the range and is built, and the last one reaches down
/// to its beginning.
pub proof fn law_surface_spans_range(config: Configuration, max: u64, begin: u64, end: int)
    requires
        begin <= end <= max,
    ensures
        ({
            let points = surface_points(config, max as int, begin as int, end);
            &&& spans_down_to(config, points, begin as int)
            &&& points[0].0 - digest_step(config, points[0].1 as nat) < end <= points[0].0 <= max
        }),
    decreases end,
{
    let points = surface_points(config, max as int, begin as int, end);
    let level = top_level(config, max as int, begin as int, end);
    let below = round_below(end, digest_step(config, level));
    lemma_top(config, max as int, begin as int, end);
    if 0 < below < end && begin <= below {
        let rest = surface_points(config, max as int, begin as int, below);
        law_surface_spans_range(config, max, begin, below);
        lemma_top_below(config, max as int, begin as int, end);
        assert(points == seq![points[0]] + rest);
        assert forall|i: int| 0 < i < points.len() implies (#[trigger] points[i]).0 == points[i
            - 1].0 - digest_step(config, points[i - 1].1 as nat) by {
            assert(points[i] == rest[i - 1]);
            if i > 1 {
                assert(points[i - 1] == rest[i - 2]);
            }
        }
        assert forall|i: int| 0 <= i < points.len() implies {
            &&& begin <= (#[trigger] points[i]).0
            &&& 1 <= digest_step(config, points[i].1 as nat)
            &&& points[i].0 as int % digest_step(config, points[i].1 as nat) == 0
        } by {
            if i > 0 {
                assert(points[i] == rest[i - 1]);
            }
        }
        assert(points.last() == rest.last());
    }
}

/// `m` is a multiple of `step`.
pub open spec fn divides(step: int, m: int) -> bool {
    m % step == 0
}

/// The digest of `level` in `block` is the one with which a walk from block `n` down to `begin`
/// has to start, if `max` is the best known block. It ends at the first multiple of its span from
/// `n` on, which is not behind `max`. No lower level but zero reaches down to `begin`. It does so
/// itself, or the next level is not configured, has a span that does not fit, or ends behind
/// `max`. A range of one block is not entered with a digest.
pub open spec fn is_topmost(
    config: Configuration,
    max: int,
    begin: int,
    n: int,
    block: int,
    level: int,
) -> bool {
    let interval = config.digest_interval as int;
    let step = pow(interval, level as nat);
    let next = pow(interval, (level + 1) as nat);
    &&& 0 <= level <= config.digest_levels
    &&& 1 <= step <= u32::MAX
    &&& divides(step, block)
    &&& n <= block < n + step
    &&& block <= max
    &&& n == begin ==> level == 0
    &&& forall|j: nat, m: int|
        1 <= j < level && #[trigger] divides(pow(interval, j), m) && m < n <= m + pow(interval, j)
            ==> begin < m
    &&& begin < n && level < config.digest_levels && interval > 0 && next <= u32::MAX ==> {
        ||| level > 0 && block - step <= begin
        ||| forall|m: int| #[trigger] divides(next, m) && n <= m ==> max < m
    }
}

/// The topmost digest of a range has the highest level that the configuration and the best known
/// block allow, as long as no lower one reaches down to the beginning of the range.
pub proof fn law_topmost_digest(config: Configuration, max: u64, begin: u64, end: u64)
    requires
        begin <= end <= max,
    ensures
        is_topmost(
            config,
            max as int,
            begin as int,
            end as int,
            top_block(config, max as int, begin as int, end as int),
            top_level(config, max as int, begin as int, end as int) as int,
        ),
        top_step(config, max as int, begin as int, end as int) == pow(
            config.digest_interval as int,
            top_level(config, max as int, begin as int, end as int),
        ),
{
    lemma_topmost(config, max as int, begin as int, end as int);
}

proof fn lemma_topmost(config: Configuration, max: int, begin: int, n: int)
    requires
        begin <= n <= max,
    ensures
        is_topmost(
            config,
            max,
            begin,
            n,
            top_block(config, max, begin, n),
            top_level(config, max, begin, n) as int,
        ),
{
    let interval = config.digest_interval as int;
    let level = top_level(config, max, begin, n);
    let step = pow(interval, level);
    let next = pow(interval, level + 1);
    let block = top_block(config, max, begin, n);
    lemma_top(config, max, begin, n);
    if begin < n {
        lemma_climb(config, max, begin, n, 0);
        assert forall|j: nat, m: int|
            1 <= j < level && #[trigger] divides(pow(interval, j), m) && m < n <= m + pow(
                interval,
                j,
            ) implies begin < m by {
            lemma_step_positive(config, j);
            lemma_round_unique(n, pow(interval, j), m);
            assert(round_below(n, digest_step(config, j)) > begin);
        }
        if level < config.digest_levels && interval > 0 && next <= u32::MAX && !(level > 0 && block
            - step <= begin) {
            assert forall|m: int| #[trigger] divides(next, m) && n <= m implies max < m by {
                lemma_step_positive(config, level + 1);
                lemma_round(n, next);
                if m < round_up(n, next) {
                    lemma_multiples_apart(m, round_up(n, next), next);
                }
            }
        }
    }
}

/// How far down the level of the topmost digest is kept: to the last multiple of the next level's
/// span before the end of the range, if that level is configured but not built there yet and the
/// range begins before that multiple. Otherwise it is kept down to where the digest begins, or for
/// single blocks down to the beginning of the range.
pub proof fn law_topmost_floor(config: Configuration, max: u64, begin: u64, end: u64, m: int)
    requires
        begin <= end <= max,
        config.digest_interval > 0 ==> divides(
            pow(
                config.digest_interval as int,
                top_level(config, max as int, begin as int, end as int) + 1,
            ),
            m,
        ),
        config.digest_interval > 0 ==> m < end <= m + pow(
            config.digest_interval as int,
            top_level(config, max as int, begin as int, end as int) + 1,
        ),
    ensures
        ({
            let interval = config.digest_interval as int;
            let level = top_level(config, max as int, begin as int, end as int);
            let block = top_block(config, max as int, begin as int, end as int);
            let floor = top_floor(config, max as int, begin as int, end as int);
            let low = block - pow(interval, level);
            if begin < end && !(level > 0 && low <= begin) && level < config.digest_levels
                && interval > 0 && pow(interval, level + 1) <= u32::MAX && begin < m {
                floor == m
            } else if level == 0 {
                floor == begin
            } else {
                floor == low
            }
        }),
{
    let level = top_level(config, max as int, begin as int, end as int);
    lemma_top(config, max as int, begin as int, end as int);
    if config.digest_interval > 0 {
        lemma_step_positive(config, level + 1);
        lemma_round_unique(end as int, pow(config.digest_interval as int, level + 1), m);
    }
}

/// Every digest on the surface of a range has the highest level that is possible at its place: the
/// first one for the whole range, and each of the others for what is left of it.
pub proof fn law_surface_uses_the_highest_levels(
    config: Configuration,
    max: u64,
    begin: u64,
    end: int,
    i: int,
)
    requires
        begin <= end <= max,
        0 <= i < surface_points(config, max as int, begin as int, end).len(),
    ensures
        ({
            let points = surface_points(config, max as int, begin as int, end);
            is_topmost(
                config,
                max as int,
                begin as int,
                if i == 0 {
                    end
                } else {
                    points[i].0 as int
                },
                points[i].0 as int,
                points[i].1 as int,
            )
        }),
    decreases end,
{
    let points = surface_points(config, max as int, begin as int, end);
    let low = round_below(
        end,
        digest_step(config, top_level(config, max as int, begin as int, end)),
    );
    lemma_top(config, max as int, begin as int, end);
    lemma_topmost(config, max as int, begin as int, end);
    if i > 0 {
        let rest = surface_points(config, max as int, begin as int, low);
        assert(points[i] == rest[i - 1]);
        lemma_top_below(config, max as int, begin as int, end);
        lemma_surface_points(config, max, begin, low);
        law_surface_uses_the_highest_levels(config, max, begin, low, i - 1);
    }
}

/// The span of the digest `point` holds block `t`.
pub open spec fn spans(config: Configuration, point: (u64, u32), t: int) -> bool {
    point.0 - pow(config.digest_interval as int, point.1 as nat) < t <= point.0
}

/// Every block of a range, but for the genesis block below others, lies in the span of just one
/// digest of its surface.
pub proof fn law_each_block_is_spanned_once(
    config: Configuration,
    max: u64,
    begin: u64,
    end: int,
    t: int,
) -> (i: int)
    requires
        begin <= t <= end <= max,
        0 < t || end == 0,
    ensures
        ({
            let points = surface_points(config, max as int, begin as int, end);
            &&& 0 <= i < points.len()
            &&& spans(config, points[i], t)
            &&& forall|j: int|
                0 <= j < points.len() && #[trigger] spans(config, points[j], t) ==> j == i
        }),
    decreases end,
{
    let points = surface_points(config, max as int, begin as int, end);
    let level = top_level(config, max as int, begin as int, end);
    let low = round_below(end, digest_step(config, level));
    lemma_top(config, max as int, begin as int, end);
    lemma_surface_points(config, max, begin, end);
    if low < t {
        assert(spans(config, points[0], t));
        assert forall|j: int|
            0 <= j < points.len() && #[trigger] spans(config, points[j], t) implies j == 0 by {
            if j > 0 {
                lemma_top_below(config, max as int, begin as int, end);
                lemma_surface_points(config, max, begin, low);
                let rest = surface_points(config, max as int, begin as int, low);
                assert(points[j] == rest[j - 1]);
            }
        }
        0
    } else {
        lemma_top_below(config, max as int, begin as int, end);
        let rest = surface_points(config, max as int, begin as int, low);
        let i = law_each_block_is_spanned_once(config, max, begin, low, t);
        assert(points[i + 1] == rest[i]);
        assert forall|j: int|
            0 <= j < points.len() && #[trigger] spans(config, points[j], t) implies j == i + 1 by {
            if j > 0 {
                assert(points[j] == rest[j - 1]);
                assert(spans(config, rest[j - 1], t));
            }
        }
        i + 1
    }
}

/// The changes of a block are as many as the extrinsics that changed the key, and they come in the
/// reverse order: the i-th one is that of the i-th extrinsic from the end.
pub proof fn law_changes_of_a_block(block: u64, extrinsics: Seq<u32>)
    ensures
        changes_in(block, extrinsics).len() == extrinsics.len(),
        found_items(changes_in(block, extrinsics)).len() == extrinsics.len(),
        forall|i: int|
            0 <= i < extrinsics.len() ==> #[trigger] changes_in(block, extrinsics)[i] == (
                block,
                extrinsics[extrinsics.len() - 1 - i],
            ),
        forall|i: int|
            0 <= i < extrinsics.len() ==> #[trigger] found_items(changes_in(block, extrinsics))[i]
                == Ok::<(u64, u32), Seq<char>>((block, extrinsics[extrinsics.len() - 1 - i])),
{
}

/// The extrinsics that an entry lists: none if it is missing or cannot be read.
pub open spec fn extrinsics_in(entry: Result<Option<Seq<u8>>, Seq<char>>) -> Seq<u32> {
    match entry {
        Ok(Some(bytes)) => match extrinsics_value(bytes) {
            Some(extrinsics) => extrinsics,
            None => Seq::empty(),
        },
        _ => Seq::empty(),
    }
}

/// The blocks that an entry lists: none if it is missing or cannot be read.
pub open spec fn blocks_in(entry: Result<Option<Seq<u8>>, Seq<char>>) -> Seq<u64> {
    match entry {
        Ok(Some(bytes)) => match blocks_value(bytes) {
            Some(blocks) => blocks,
            None => Seq::empty(),
        },
        _ => Seq::empty(),
    }
}

/// `part` is what a block yields whose trie holds these two entries: an error if the first entry,
/// which lists extrinsics, cannot be looked up. Otherwise one change for each extrinsic that it
/// lists, the last one first, and before them an error if the second entry cannot be looked up.
/// A block before the range yields nothing, and none of a block behind it is a change in range.
pub open spec fn entries_yield(
    first: Result<Option<Seq<u8>>, Seq<char>>,
    second: Result<Option<Seq<u8>>, Seq<char>>,
    begin: u64,
    end: u64,
    block: u64,
    part: Seq<Item>,
) -> bool {
    if block < begin {
        part.len() == 0
    } else if block <= end && first is Err {
        part.len() == 1 && part[0] == Err::<(u64, u32), Seq<char>>(first->Err_0)
    } else {
        let listed = extrinsics_in(first);
        let n: int = if block <= end {
            listed.len() as int
        } else {
            0
        };
        let errors: int = if second is Err {
            1
        } else {
            0
        };
        &&& part.len() == errors + n
        &&& second matches Err(message) ==> part[0] == Err::<(u64, u32), Seq<char>>(message)
        &&& forall|i: int|
            errors <= i < errors + n ==> #[trigger] part[i] == Ok::<(u64, u32), Seq<char>>(
                (block, listed[n - 1 - (i - errors)]),
            )
    }
}

/// `part` is what `block` yields: the error of a root that cannot be had or is not known, or what
/// the two entries yield that stand in the block's trie under the trie keys of the storage key.
pub open spec fn block_yields<R: RootsStorage>(
    storage: R,
    nodes: Nodes,
    key: Seq<u8>,
    begin: u64,
    end: AnchorBlockId,
    block: u64,
    part: Seq<Item>,
) -> bool {
    match storage.root_at(end, block) {
        Err(message) => part.len() == 1 && part[0] == Err::<(u64, u32), Seq<char>>(message),
        Ok(None) => part.len() == 1 && part[0] == Err::<(u64, u32), Seq<char>>(
            "Changes trie root for block "@ + decimal(block as nat) + " is not found"@,
        ),
        Ok(Some(root)) => forall|first: Seq<u8>, second: Seq<u8>| #[trigger]
            is_trie_key(first, 1, block, key) && #[trigger] is_trie_key(second, 2, block, key)
                ==> entries_yield(
                trie_value(nodes, root, first),
                trie_value(nodes, root, second),
                begin,
                end.number,
                block,
                part,
            ),
    }
}

proof fn lemma_block_yields<R: RootsStorage>(
    storage: R,
    nodes: Nodes,
    key: Seq<u8>,
    begin: u64,
    end: AnchorBlockId,
    block: u64,
)
    requires
        key.len() <= u32::MAX,
    ensures
        block_yields(
            storage,
            nodes,
            key,
            begin,
            end,
            block,
            own_items(block, visit(query_of(storage, nodes, key, begin, end), block)),
        ),
{
    let q = query_of(storage, nodes, key, begin, end);
    let part = own_items(block, visit(q, block));
    assert(storage.root_at(end, block) == (q.roots)(block));
    if let Ok(Some(root)) = storage.root_at(end, block) {
        assert forall|first: Seq<u8>, second: Seq<u8>| #[trigger]
            is_trie_key(first, 1, block, key) && #[trigger] is_trie_key(
                second,
                2,
                block,
                key,
            ) implies entries_yield(
            trie_value(nodes, root, first),
            trie_value(nodes, root, second),
            begin,
            end.number,
            block,
            part,
        ) by {
            lemma_trie_key_unique(first, 1, block, key);
            lemma_trie_key_unique(second, 2, block, key);
            let listed = extrinsics_in(trie_value(nodes, root, first));
            law_changes_of_a_block(block, listed);
            law_changes_of_a_block(block, Seq::empty());
        }
    }
}

/// `cuts` part `items` into as many pieces as there are `blocks`.
pub open spec fn is_partition<T>(cuts: Seq<int>, blocks: Seq<u64>, items: Seq<T>) -> bool {
    &&& cuts.len() == blocks.len() + 1
    &&& cuts[0] == 0
    &&& cuts[blocks.len() as int] == items.len()
    &&& forall|k: int| 0 <= k < blocks.len() ==> 0 <= #[trigger] cuts[k] <= cuts[k + 1]
        <= items.len()
}

proof fn lemma_partition(q: Query, blocks: Seq<u64>) -> (cuts: Seq<int>)
    ensures
        is_partition(cuts, blocks, items_of(q, blocks)),
        forall|k: int|
            0 <= k < blocks.len() ==> items_of(q, blocks).subrange(#[trigger] cuts[k], cuts[k + 1])
                == own_items(blocks[k], visit(q, blocks[k])),
    decreases blocks.len(),
{
    let items = items_of(q, blocks);
    if blocks.len() == 0 {
        seq![0int]
    } else {
        let own = own_items(blocks[0], visit(q, blocks[0]));
        let rest_blocks = blocks.drop_first();
        let rest = items_of(q, rest_blocks);
        let inner = lemma_partition(q, rest_blocks);
        let cuts = seq![0int] + inner.map_values(|cut: int| cut + own.len());
        assert(items == own + rest);
        assert forall|k: int| 0 <= k < blocks.len() implies 0 <= #[trigger] cuts[k] <= cuts[k + 1]
            <= items.len() && items.subrange(cuts[k], cuts[k + 1]) == own_items(
            blocks[k],
            visit(q, blocks[k]),
        ) by {
            if k == 0 {
                assert(cuts[1] == inner[0] + own.len());
                assert(items.subrange(0, own.len() as int) =~= own);
            } else {
                assert(cuts[k] == inner[k - 1] + own.len());
                assert(cuts[k + 1] == inner[k] + own.len());
                assert(inner[k - 1] <= inner[k - 1 + 1]);
                assert(rest.subrange(inner[k - 1], inner[k]) == own_items(
                    rest_blocks[k - 1],
                    visit(q, rest_blocks[k - 1]),
                ));
                assert(items.subrange(cuts[k], cuts[k + 1]) =~= rest.subrange(
                    inner[k - 1],
                    inner[k],
                ));
            }
        }
        assert(cuts[blocks.len() as int] == inner[rest_blocks.len() as int] + own.len());
        cuts
    }
}

/// Whatever the storage holds, a query yields one block after the other, in the order of looking
/// at them, what the entries in the block's trie say of it, and nothing else. The entries are those
/// under the trie keys that spell out the block and the storage key.
pub proof fn law_a_query_yields_block_by_block<R: RootsStorage>(
    config: Configuration,
    storage: R,
    nodes: Nodes,
    key: Seq<u8>,
    begin: u64,
    end: AnchorBlockId,
) -> (cuts: Seq<int>)
    requires
        key.len() <= u32::MAX,
    ensures
        ({
            let q = query_of(storage, nodes, key, begin, end);
            let blocks = query_visits(config, q);
            let items = query_items(config, q);
            &&& is_partition(cuts, blocks, items)
            &&& forall|k: int|
                0 <= k < blocks.len() ==> block_yields(
                    storage,
                    nodes,
                    key,
                    begin,
                    end,
                    blocks[k],
                    items.subrange(#[trigger] cuts[k], cuts[k + 1]),
                )
        }),
{
    let q = query_of(storage, nodes, key, begin, end);
    let blocks = query_visits(config, q);
    let items = query_items(config, q);
    let cuts = lemma_partition(q, blocks);
    assert forall|k: int| 0 <= k < blocks.len() implies block_yields(
        storage,
        nodes,
        key,
        begin,
        end,
        blocks[k],
        items.subrange(#[trigger] cuts[k], cuts[k + 1]),
    ) by {
        lemma_block_yields(storage, nodes, key, begin, end, blocks[k]);
    }
    cuts
}

/// The nodes that looking at `block` reads are `part`: those on the ways to its two entries, one
/// after the other. A block before the range is not read, of one behind it only the entry of its
/// digest is, and where the entry of the extrinsics cannot be looked up nothing else is.
pub open spec fn block_reads<R: RootsStorage>(
    storage: R,
    nodes: Nodes,
    key: Seq<u8>,
    begin: u64,
    end: AnchorBlockId,
    block: u64,
    part: Seq<(Seq<u8>, Seq<u8>)>,
) -> bool {
    match storage.root_at(end, block) {
        Ok(Some(root)) => forall|first: Seq<u8>, second: Seq<u8>| #[trigger]
            is_trie_key(first, 1, block, key) && #[trigger] is_trie_key(second, 2, block, key)
                ==> if block < begin {
                part.len() == 0
            } else if end.number < block {
                part == trie_path(nodes, root, second)
            } else if trie_value(nodes, root, first) is Err {
                part == trie_path(nodes, root, first)
            } else {
                part == trie_path(nodes, root, first) + trie_path(nodes, root, second)
            },
        _ => part.len() == 0,
    }
}

proof fn lemma_reads_partition(q: Query, blocks: Seq<u64>) -> (cuts: Seq<int>)
    ensures
        is_partition(cuts, blocks, reads(q, blocks)),
        forall|k: int|
            0 <= k < blocks.len() ==> reads(q, blocks).subrange(#[trigger] cuts[k], cuts[k + 1])
                == visit_reads(q, blocks[k]),
    decreases blocks.len(),
{
    let all = reads(q, blocks);
    if blocks.len() == 0 {
        seq![0int]
    } else {
        let own = visit_reads(q, blocks[0]);
        let rest_blocks = blocks.drop_first();
        let rest = reads(q, rest_blocks);
        let inner = lemma_reads_partition(q, rest_blocks);
        let cuts = seq![0int] + inner.map_values(|cut: int| cut + own.len());
        assert(all == own + rest);
        assert forall|k: int| 0 <= k < blocks.len() implies 0 <= #[trigger] cuts[k] <= cuts[k + 1]
            <= all.len() && all.subrange(cuts[k], cuts[k + 1]) == visit_reads(q, blocks[k]) by {
            if k == 0 {
                assert(cuts[1] == inner[0] + own.len());
                assert(all.subrange(0, own.len() as int) =~= own);
            } else {
                assert(cuts[k] == inner[k - 1] + own.len());
                assert(cuts[k + 1] == inner[k] + own.len());
                assert(inner[k - 1] <= inner[k - 1 + 1]);
                assert(rest.subrange(inner[k - 1], inner[k]) == visit_reads(q, rest_blocks[k - 1]));
                assert(all.subrange(cuts[k], cuts[k + 1]) =~= rest.subrange(
                    inner[k - 1],
                    inner[k],
                ));
            }
        }
        assert(cuts[blocks.len() as int] == inner[rest_blocks.len() as int] + own.len());
        cuts
    }
}

/// Whatever the storage holds, a query reads one block after the other, in the order of looking at
/// them, the nodes on the ways to the two entries of the storage key, and no others.
pub proof fn law_a_query_reads_block_by_block<R: RootsStorage>(
    config: Configuration,
    storage: R,
    nodes: Nodes,
    key: Seq<u8>,
    begin: u64,
    end: AnchorBlockId,
) -> (cuts: Seq<int>)
    requires
        key.len() <= u32::MAX,
    ensures
        ({
            let q = query_of(storage, nodes, key, begin, end);
            let blocks = query_visits(config, q);
            let all = query_reads(config, q);
            &&& is_partition(cuts, blocks, all)
            &&& forall|k: int|
                0 <= k < blocks.len() ==> block_reads(
                    storage,
                    nodes,
                    key,
                    begin,
                    end,
                    blocks[k],
                    all.subrange(#[trigger] cuts[k], cuts[k + 1]),
                )
        }),
{
    let q = query_of(storage, nodes, key, begin, end);
    let blocks = query_visits(config, q);
    let all = query_reads(config, q);
    let cuts = lemma_reads_partition(q, blocks);
    assert forall|k: int| 0 <= k < blocks.len() implies block_reads(
        storage,
        nodes,
        key,
        begin,
        end,
        blocks[k],
        all.subrange(#[trigger] cuts[k], cuts[k + 1]),
    ) by {
        let block = blocks[k];
        let part = visit_reads(q, block);
        assert(storage.root_at(end, block) == (q.roots)(block));
        if let Ok(Some(root)) = storage.root_at(end, block) {
            assert forall|first: Seq<u8>, second: Seq<u8>| #[trigger]
                is_trie_key(first, 1, block, key) && #[trigger] is_trie_key(
                    second,
                    2,
                    block,
                    key,
                ) implies if block < begin {
                part.len() == 0
            } else if end.number < block {
                part == trie_path(nodes, root, second)
            } else if trie_value(nodes, root, first) is Err {
                part == trie_path(nodes, root, first)
            } else {
                part == trie_path(nodes, root, first) + trie_path(nodes, root, second)
            } by {
                lemma_trie_key_unique(first, 1, block, key);
                lemma_trie_key_unique(second, 2, block, key);
            }
        }
    }
    cuts
}

/// The number that decimal digits stand for, the most significant one first.
pub open spec fn number_of(digits: Seq<char>) -> int
    decreases digits.len(),
{
    if digits.len() == 0 {
        0
    } else {
        10 * number_of(digits.drop_last()) + (digits.last() as int - '0' as int)
    }
}

/// A number is written in decimal digits that stand for it, without a zero in front.
pub proof fn law_decimal(n: nat)
    ensures
        decimal(n).len() > 0,
        forall|i: int| 0 <= i < decimal(n).len() ==> '0' <= #[trigger] decimal(n)[i] <= '9',
        number_of(decimal(n)) == n,
        decimal(n)[0] == '0' ==> decimal(n).len() == 1,
    decreases n,
{
    let digits = decimal(n);
    if n < 10 {
        assert(digits.drop_last() =~= Seq::empty());
        assert(number_of(Seq::empty()) == 0);
    } else {
        law_decimal(n / 10);
        let front = decimal(n / 10);
        assert(digits.drop_last() =~= front);
        assert forall|i: int| 0 <= i < digits.len() implies '0' <= #[trigger] digits[i] <= '9' by {
            if i < front.len() {
                assert(digits[i] == front[i]);
            }
        }
        assert(digits[0] == front[0]);
        if front[0] == '0' {
            assert(front.drop_last() =~= Seq::empty());
            assert(number_of(Seq::<char>::empty()) == 0);
            assert(front.last() == '0');
            assert(number_of(front) == 0);
        }
    }
}

/// The digest in block `digest`, which is looked at with a level, makes `block` be looked at: its
/// root is known, it is not before the range, its entries can be looked up, and the one under the
/// trie key of the digest lists the block. It does so for earlier blocks only. A digest of level
/// one does so for blocks in range only, and one of level zero not at all.
pub open spec fn makes_looked_at<R: RootsStorage>(
    storage: R,
    nodes: Nodes,
    key: Seq<u8>,
    begin: u64,
    end: AnchorBlockId,
    levels: Map<u64, u32>,
    digest: u64,
    block: u64,
) -> bool {
    &&& levels.contains_key(digest)
    &&& begin <= digest
    &&& block < digest
    &&& levels[digest] > 1 || (levels[digest] == 1 && begin <= block <= end.number)
    &&& storage.root_at(end, digest) matches Ok(Some(root))
    &&& forall|first: Seq<u8>, second: Seq<u8>| #[trigger]
        is_trie_key(first, 1, digest, key) && #[trigger] is_trie_key(second, 2, digest, key) ==> {
            &&& digest <= end.number ==> trie_value(nodes, root, first) is Ok
            &&& blocks_in(trie_value(nodes, root, second)).contains(block)
        }
}

proof fn lemma_makes_looked_at<R: RootsStorage>(
    storage: R,
    nodes: Nodes,
    key: Seq<u8>,
    begin: u64,
    end: AnchorBlockId,
    levels: Map<u64, u32>,
    digest: u64,
    block: u64,
)
    requires
        key.len() <= u32::MAX,
    ensures
        ({
            let q = query_of(storage, nodes, key, begin, end);
            makes_looked_at(storage, nodes, key, begin, end, levels, digest, block)
                <==> levels.contains_key(digest) && is_listed(
                q,
                digest,
                levels[digest],
                visit(q, digest).blocks,
                block,
            )
        }),
{
    let q = query_of(storage, nodes, key, begin, end);
    assert(storage.root_at(end, digest) == (q.roots)(digest));
    law_trie_key_spells_out_the_entry(digest, key);
    if levels.contains_key(digest) && is_listed(
        q,
        digest,
        levels[digest],
        visit(q, digest).blocks,
        block,
    ) {
        let root = storage.root_at(end, digest)->Ok_0->0;
        assert forall|first: Seq<u8>, second: Seq<u8>| #[trigger]
            is_trie_key(first, 1, digest, key) && #[trigger] is_trie_key(
                second,
                2,
                digest,
                key,
            ) implies (digest <= end.number ==> trie_value(nodes, root, first) is Ok) && blocks_in(
            trie_value(nodes, root, second),
        ).contains(block) by {
            lemma_trie_key_unique(first, 1, digest, key);
            lemma_trie_key_unique(second, 2, digest, key);
        }
    }
    if makes_looked_at(storage, nodes, key, begin, end, levels, digest, block) {
        assert(is_trie_key(extrinsic_key(digest, key), 1, digest, key));
        assert(is_trie_key(digest_key(digest, key), 2, digest, key));
    }
}

/// At which level each block is looked at.
spec fn levels_from(q: Query, blocks: Levels, n: int) -> Levels
    decreases n + 1,
{
    if n < 0 {
        Map::empty()
    } else if blocks.contains_key(n as u64) {
        levels_from(q, followed_up(q, blocks, n as u64), n - 1).insert(n as u64, blocks[n as u64])
    } else {
        levels_from(q, blocks, n - 1)
    }
}

proof fn lemma_levels(q: Query, blocks: Levels, n: int)
    requires
        n <= u64::MAX,
    ensures
        ({
            let levels = levels_from(q, blocks, n);
            &&& forall|b: u64| #[trigger]
                levels.contains_key(b) <==> visits_from(q, blocks, n).contains(b)
            &&& forall|b: u64| #[trigger] levels.contains_key(b) ==> b <= n
            &&& forall|b: u64| #[trigger]
                blocks.contains_key(b) && b <= n ==> levels.contains_key(b) && levels[b]
                    >= blocks[b]
            &&& forall|d: u64, b: u64|
                levels.contains_key(d) && #[trigger] is_listed(
                    q,
                    d,
                    levels[d],
                    visit(q, d).blocks,
                    b,
                ) ==> levels.contains_key(b) && levels[b] >= levels[d] - 1
            &&& forall|b: u64| #[trigger]
                levels.contains_key(b) ==> (blocks.contains_key(b) && levels[b] == blocks[b]) || (
                exists|d: u64|
                    levels.contains_key(d) && #[trigger] is_listed(
                        q,
                        d,
                        levels[d],
                        visit(q, d).blocks,
                        b,
                    ) && levels[b] == levels[d] - 1)
        }),
    decreases n + 1,
{
    let levels = levels_from(q, blocks, n);
    let all = visits_from(q, blocks, n);
    if n < 0 {
    } else if blocks.contains_key(n as u64) {
        let top = n as u64;
        let next = followed_up(q, blocks, top);
        let inner = levels_from(q, next, n - 1);
        let rest = visits_from(q, next, n - 1);
        lemma_levels(q, next, n - 1);
        assert forall|b: u64| #[trigger] levels.contains_key(b) <==> all.contains(b) by {
            if b == top {
                assert(all[0] == b);
            } else if rest.contains(b) {
                let i = choose|i: int| 0 <= i < rest.len() && rest[i] == b;
                assert(all[i + 1] == b);
            } else if all.contains(b) {
                let i = choose|i: int| 0 <= i < all.len() && all[i] == b;
                assert(rest[i - 1] == b);
            }
        }
        assert forall|b: u64| #[trigger] levels.contains_key(b) implies b <= n by {
            if b != top {
                assert(inner.contains_key(b));
            }
        }
        assert forall|b: u64| #[trigger]
            blocks.contains_key(b) && b <= n implies levels.contains_key(b) && levels[b]
            >= blocks[b] by {
            if b != top {
                assert(next.contains_key(b));
            }
        }
        assert forall|d: u64, b: u64|
            levels.contains_key(d) && #[trigger] is_listed(
                q,
                d,
                levels[d],
                visit(q, d).blocks,
                b,
            ) implies levels.contains_key(b) && levels[b] >= levels[d] - 1 by {
            if d == top {
                assert(next.contains_key(b));
            } else {
                assert(inner.contains_key(d));
                assert(is_listed(q, d, inner[d], visit(q, d).blocks, b));
                assert(inner.contains_key(b));
            }
        }
        assert forall|b: u64| #[trigger] levels.contains_key(b) implies (blocks.contains_key(b)
            && levels[b] == blocks[b]) || (exists|d: u64|
            levels.contains_key(d) && #[trigger] is_listed(
                q,
                d,
                levels[d],
                visit(q, d).blocks,
                b,
            ) && levels[b] == levels[d] - 1) by {
            if b != top {
                assert(inner.contains_key(b));
                if next.contains_key(b) && inner[b] == next[b] {
                    if !(blocks.contains_key(b) && levels[b] == blocks[b]) {
                        assert(levels.contains_key(top));
                        assert(is_listed(q, top, levels[top], visit(q, top).blocks, b));
                    }
                } else {
                    let d = choose|d: u64|
                        inner.contains_key(d) && #[trigger] is_listed(
                            q,
                            d,
                            inner[d],
                            visit(q, d).blocks,
                            b,
                        ) && inner[b] == inner[d] - 1;
                    assert(inner.contains_key(d));
                    assert(levels.contains_key(d) && levels[d] == inner[d]);
                    assert(is_listed(q, d, levels[d], visit(q, d).blocks, b));
                }
            }
        }
    } else {
        lemma_levels(q, blocks, n - 1);
        assert(levels == levels_from(q, blocks, n - 1));
        assert forall|b: u64| #[trigger]
            blocks.contains_key(b) && b <= n implies levels.contains_key(b) && levels[b]
            >= blocks[b] by {
            assert(b != n);
        }
    }
}

/// The blocks that a query looks at, and the level at which it takes each of them.
pub open spec fn looks_at<R: RootsStorage>(
    config: Configuration,
    storage: R,
    nodes: Nodes,
    key: Seq<u8>,
    begin: u64,
    end: AnchorBlockId,
    blocks: Seq<u64>,
    levels: Map<u64, u32>,
) -> bool {
    let points = surface_points(config, end.number as int, begin as int, end.number as int);
    &&& forall|i: int, j: int| 0 <= i < j < blocks.len() ==> blocks[i] > blocks[j]
    &&& forall|b: u64| #[trigger] levels.contains_key(b) <==> blocks.contains(b)
    &&& forall|i: int|
        0 <= i < points.len() ==> levels.contains_key((#[trigger] points[i]).0)
            && levels[points[i].0] >= points[i].1
    &&& forall|d: u64, b: u64| #[trigger]
        makes_looked_at(storage, nodes, key, begin, end, levels, d, b) ==> levels.contains_key(b)
            && levels[b] >= levels[d] - 1
    &&& forall|b: u64| #[trigger]
        levels.contains_key(b) ==> {
            ||| exists|i: int|
                0 <= i < points.len() && (#[trigger] points[i]).0 == b && points[i].1 == levels[b]
            ||| exists|d: u64| #[trigger]
                makes_looked_at(storage, nodes, key, begin, end, levels, d, b) && levels[b]
                    == levels[d] - 1
        }
}

/// Whatever the storage holds, a query looks at the digests on its surface, each at its level at
/// least, and at all blocks that a digest which it looks at lists, at one level below at least, as
/// long as they matter to it. It looks at no others, and at none at a higher level than that. How
/// many blocks a digest lists does not matter, nor does their order.
pub proof fn law_a_query_looks_at_what_is_listed<R: RootsStorage>(
    config: Configuration,
    storage: R,
    nodes: Nodes,
    key: Seq<u8>,
    begin: u64,
    end: AnchorBlockId,
) -> (levels: Map<u64, u32>)
    requires
        key.len() <= u32::MAX,
    ensures
        looks_at(
            config,
            storage,
            nodes,
            key,
            begin,
            end,
            query_visits(config, query_of(storage, nodes, key, begin, end)),
            levels,
        ),
{
    let q = query_of(storage, nodes, key, begin, end);
    let points = query_points(config, q);
    let blocks = with_points(Map::empty(), points);
    let levels = levels_from(q, blocks, u64::MAX as int);
    lemma_query_descends(config, q);
    lemma_levels(q, blocks, u64::MAX as int);
    assert forall|i: int| 0 <= i < points.len() implies levels.contains_key(
        (#[trigger] points[i]).0,
    ) && levels[points[i].0] >= points[i].1 by {
        lemma_with_points(Map::empty(), points, points[i].0);
        assert(blocks.contains_key(points[i].0));
    }
    assert forall|d: u64, b: u64| #[trigger]
        makes_looked_at(
            storage,
            nodes,
            key,
            begin,
            end,
            levels,
            d,
            b,
        ) implies levels.contains_key(b) && levels[b] >= levels[d] - 1 by {
        lemma_makes_looked_at(storage, nodes, key, begin, end, levels, d, b);
        assert(is_listed(q, d, levels[d], visit(q, d).blocks, b));
    }
    assert forall|b: u64| #[trigger] levels.contains_key(b) implies (exists|i: int|
        0 <= i < points.len() && (#[trigger] points[i]).0 == b && points[i].1 == levels[b]) || (
    exists|d: u64| #[trigger]
        makes_looked_at(storage, nodes, key, begin, end, levels, d, b) && levels[b] == levels[d]
            - 1) by {
        if blocks.contains_key(b) && levels[b] == blocks[b] {
            lemma_point_of(Map::empty(), points, b);
        } else {
            let d = choose|d: u64|
                levels.contains_key(d) && #[trigger] is_listed(
                    q,
                    d,
                    levels[d],
                    visit(q, d).blocks,
                    b,
                ) && levels[b] == levels[d] - 1;
            assert(levels.contains_key(d));
            lemma_makes_looked_at(storage, nodes, key, begin, end, levels, d, b);
        }
    }
    levels
}

/// The level of a block among points is that of one of them, unless it was there before.
proof fn lemma_point_of(blocks: Levels, points: Seq<(u64, u32)>, b: u64)
    requires
        with_points(blocks, points).contains_key(b),
    ensures
        (blocks.contains_key(b) && with_points(blocks, points)[b] == blocks[b]) || (exists|i: int|
            0 <= i < points.len() && (#[trigger] points[i]).0 == b && points[i].1 == with_points(
                blocks,
                points,
            )[b]),
    decreases points.len(),
{
    if points.len() > 0 {
        let more = raised(blocks, points[0].0, points[0].1);
        let rest = points.drop_first();
        lemma_point_of(more, rest, b);
        let level = with_points(blocks, points)[b];
        if more.contains_key(b) && level == more[b] {
            if !(blocks.contains_key(b) && level == blocks[b]) {
                assert(points[0].0 == b && points[0].1 == level);
            }
        } else {
            let i = choose|i: int|
                0 <= i < rest.len() && (#[trigger] rest[i]).0 == b && rest[i].1 == level;
            assert(points[i + 1] == rest[i]);
        }
    }
}

} // verus!
