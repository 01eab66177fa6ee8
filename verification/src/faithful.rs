//! Storages whose tries say truthfully which extrinsics changed a key, and what a query finds in
//! them.

use crate::arith::{
    lemma_is_multiple, lemma_multiple_of_multiple, lemma_multiples_apart, lemma_round_multiple,
    round_below,
};
use crate::digests::{
    is_parent, lemma_first_listed, lemma_next_listed, lemma_own_level, lemma_parent, own_level,
    own_step,
};
use crate::model::{
    blocks_at, changes_in, extrinsics_at, followed_up, found_items, in_range, is_followed,
    is_listed, items_of, lemma_items_both, lemma_items_one, lemma_visits_skip, lemma_with_points,
    lemma_with_points_up_to, own_items, points_up_to, query_items, query_points, visit,
    visits_from, with_points, Item, Query,
};
use crate::queue::Levels;
use crate::surface::{
    digest_step, lemma_step_divides, lemma_step_positive, lemma_surface_points, lemma_top,
    lemma_top_below, surface_points, top_block, top_level,
};
use crate::types::Configuration;
use vstd::prelude::*;

verus! {

/// A key was changed in one of the blocks above `low` up to `high`, if `extrinsics` are the
/// extrinsics of each block that changed it.
pub open spec fn changed_within(
    extrinsics: spec_fn(u64) -> Seq<u32>,
    low: int,
    high: int,
) -> bool {
    exists|block: u64| low < block <= high && (#[trigger] extrinsics(block)).len() > 0
}

/// `blocks` are at least what the digest in block `digest` has to list, in any order: all blocks
/// that it is the parent of and in whose span the key was changed.
pub open spec fn lists_changed(
    config: Configuration,
    extrinsics: spec_fn(u64) -> Seq<u32>,
    digest: u64,
    blocks: Seq<u64>,
) -> bool {
    forall|block: u64|
        0 < block && #[trigger] is_parent(config, digest as int, block as int) && changed_within(
            extrinsics,
            block - own_step(config, block as int),
            block as int,
        ) ==> blocks.contains(block)
}

/// The storage knows the root of every block up to the end of the range, and for each block in
/// range its trie holds the extrinsics that changed the key and at least the blocks that its digest
/// has to list. The genesis block matters only if it is the whole range.
pub open spec fn lists_at_least(
    config: Configuration,
    q: Query,
    extrinsics: spec_fn(u64) -> Seq<u32>,
) -> bool {
    forall|block: u64|
        block <= q.end && (0 < block || q.end == 0) ==> {
            &&& (#[trigger] (q.roots)(block)) matches Ok(Some(root))
            &&& q.begin <= block ==> {
                &&& extrinsics_at(q, root, block) == Ok::<Seq<u32>, Seq<char>>(extrinsics(block))
                &&& blocks_at(q, root, block) matches Ok(blocks) && lists_changed(
                    config,
                    extrinsics,
                    block,
                    blocks,
                )
            }
        }
}

/// No digest in range lists the genesis block, which has no changes trie.
pub open spec fn genesis_is_unlisted(q: Query) -> bool {
    forall|block: u64|
        0 < block && in_range(q, block) ==> ((#[trigger] (q.roots)(block)) matches Ok(Some(root))
            ==> (blocks_at(q, root, block) matches Ok(blocks) ==> !blocks.contains(0)))
}

/// The tries of the storage are truthful: each block in range holds the extrinsics that changed the
/// key, and each digest lists the blocks that it has to list. It may list others, but not the
/// genesis block.
pub open spec fn faithful(
    config: Configuration,
    q: Query,
    extrinsics: spec_fn(u64) -> Seq<u32>,
) -> bool {
    lists_at_least(config, q, extrinsics) && genesis_is_unlisted(q)
}

/// The changes of one block, if it is in range.
pub open spec fn block_changes(
    q: Query,
    extrinsics: spec_fn(u64) -> Seq<u32>,
    block: int,
) -> Seq<(u64, u32)> {
    if q.begin <= block <= q.end {
        changes_in(block as u64, extrinsics(block as u64))
    } else {
        Seq::empty()
    }
}

/// The changes of the blocks above `low` up to `high` that are in range, the last block first.
pub open spec fn span_changes(
    q: Query,
    extrinsics: spec_fn(u64) -> Seq<u32>,
    low: int,
    high: int,
) -> Seq<(u64, u32)>
    decreases high - low,
{
    if high <= low {
        Seq::empty()
    } else {
        block_changes(q, extrinsics, high) + span_changes(q, extrinsics, low, high - 1)
    }
}

/// The changes of all blocks in range, the last block first. The genesis block counts only if it
/// is the whole range.
pub open spec fn range_changes(q: Query, extrinsics: spec_fn(u64) -> Seq<u32>) -> Seq<(u64, u32)> {
    let low = if q.end == 0 {
        -1
    } else {
        0int
    };
    span_changes(q, extrinsics, low, q.end as int)
}

/// What a visit in such a storage gives.
proof fn lemma_visit(
    config: Configuration,
    q: Query,
    extrinsics: spec_fn(u64) -> Seq<u32>,
    block: u64,
)
    requires
        lists_at_least(config, q, extrinsics),
        block <= q.end,
        0 < block || q.end == 0,
    ensures
        own_items(block, visit(q, block)) == found_items(
            block_changes(q, extrinsics, block as int),
        ),
        q.begin <= block ==> lists_changed(config, extrinsics, block, visit(q, block).blocks),
        0 < block && genesis_is_unlisted(q) ==> !visit(q, block).blocks.contains(0),
{
    assert((q.roots)(block) matches Ok(Some(_)));
    let v = visit(q, block);
    assert(v.failure is None);
    if block < q.begin {
        assert(changes_in(block, v.extrinsics) =~= Seq::empty());
    } else {
        assert(in_range(q, block));
    }
}

/// The level at which a digest in `block` that is taken at `level` is followed.
pub open spec fn used_level(config: Configuration, block: int, level: nat) -> nat {
    if level <= own_level(config, block) {
        level
    } else {
        own_level(config, block)
    }
}

/// Down to which block the span of a digest in `block` reaches if it is taken at `level`.
pub open spec fn used_floor(config: Configuration, block: int, level: nat) -> int {
    block - digest_step(config, used_level(config, block, level))
}

/// What the span of a digest is.
pub proof fn lemma_used(config: Configuration, block: int, level: nat)
    requires
        0 < block,
    ensures
        ({
            let span = digest_step(config, used_level(config, block, level));
            &&& 1 <= span
            &&& block % span == 0
            &&& span <= own_step(config, block)
            &&& span <= digest_step(config, level) || used_level(config, block, level) == 0
            &&& 0 <= used_floor(config, block, level)
        }),
{
    let used = used_level(config, block, level);
    let span = digest_step(config, used);
    lemma_own_level(config, block);
    if used == 0 {
        lemma_step_positive(config, 0);
        lemma_is_multiple(block, 1);
    } else {
        lemma_step_divides(config, used, own_level(config, block));
        lemma_step_divides(config, used, level);
        lemma_multiple_of_multiple(block, own_step(config, block), span);
    }
    lemma_is_multiple(0, span);
    lemma_multiples_apart(0, block, span);
}

/// A block that a digest lists in its span has a lower level than the digest is taken at, and its
/// own span lies in that of the digest.
pub proof fn lemma_child_in_span(config: Configuration, digest: int, level: nat, block: int)
    requires
        0 < digest,
        is_parent(config, digest, block),
        used_floor(config, digest, level) < block,
    ensures
        own_level(config, block) < used_level(config, digest, level),
        used_floor(config, digest, level) <= block - own_step(config, block),
        digest - digest_step(config, level) < block < digest,
        0 < block,
        level > 0,
{
    let used = used_level(config, digest, level);
    let span = digest_step(config, used);
    let own = own_level(config, block);
    lemma_used(config, digest, level);
    lemma_parent(config, digest, block);
    lemma_own_level(config, block);
    if own >= used {
        lemma_step_divides(config, used, own);
        lemma_multiple_of_multiple(block, own_step(config, block), span);
        lemma_multiples_apart(block, digest, span);
        assert(false);
    }
    lemma_step_divides(config, own + 1, used);
}

/// A digest that is taken at a higher level reaches further down.
proof fn lemma_floor(config: Configuration, block: int, level: nat, higher: nat)
    requires
        0 < block,
        level <= higher,
    ensures
        used_floor(config, block, higher) <= used_floor(config, block, level),
{
    let low = used_level(config, block, level);
    let high = used_level(config, block, higher);
    lemma_own_level(config, block);
    if low < high {
        lemma_step_divides(config, low, high);
    }
}

/// In the span of a digest, each block but the digest itself lies in the span of one that the
/// digest is the parent of.
proof fn lemma_child_over(config: Configuration, digest: int, level: nat, t: int, x: int) -> (c:
    int)
    requires
        0 < digest,
        used_floor(config, digest, level) < t <= x < digest,
        is_parent(config, digest, x),
    ensures
        is_parent(config, digest, c),
        used_floor(config, digest, level) < c <= x,
        c - own_step(config, c) < t <= c,
    decreases x,
{
    let low = x - own_step(config, x);
    lemma_used(config, digest, level);
    lemma_own_level(config, x);
    if low < t {
        x
    } else {
        lemma_next_listed(config, digest, x);
        lemma_child_over(config, digest, level, t, low)
    }
}

/// `block` is to be looked at, and if it is taken as a digest `t` lies in its span.
spec fn covers(config: Configuration, blocks: Levels, block: u64, t: u64) -> bool {
    &&& blocks.contains_key(block)
    &&& t <= block
    &&& used_floor(config, block as int, blocks[block] as nat) < t
}

/// Every block up to `n` with changes in range lies in the span of one that is to be looked at.
spec fn all_covered(
    config: Configuration,
    q: Query,
    extrinsics: spec_fn(u64) -> Seq<u32>,
    blocks: Levels,
    n: int,
) -> bool {
    forall|t: u64|
        0 < t <= n && in_range(q, t) && (#[trigger] extrinsics(t)).len() > 0 ==> exists|
            block: u64,
        |
            block <= n && #[trigger] covers(config, blocks, block, t)
}

/// Where a block has been looked at, the blocks that it lists take over.
proof fn lemma_still_covered(
    config: Configuration,
    q: Query,
    extrinsics: spec_fn(u64) -> Seq<u32>,
    blocks: Levels,
    n: u64,
)
    requires
        lists_at_least(config, q, extrinsics),
        0 < n <= q.end,
        blocks.contains_key(n),
        all_covered(config, q, extrinsics, blocks, n as int),
    ensures
        all_covered(config, q, extrinsics, followed_up(q, blocks, n), n - 1),
{
    let level = blocks[n];
    let listed = visit(q, n).blocks;
    let next = followed_up(q, blocks, n);
    lemma_visit(config, q, extrinsics, n);
    assert forall|t: u64|
        0 < t <= n - 1 && in_range(q, t) && (#[trigger] extrinsics(t)).len() > 0 implies exists|
            block: u64,
        |
            block <= n - 1 && #[trigger] covers(config, next, block, t) by {
        let block = choose|block: u64| block <= n && #[trigger] covers(config, blocks, block, t);
        assert(covers(config, blocks, block, t));
        if block < n {
            assert(next.contains_key(block));
            lemma_floor(config, block as int, blocks[block] as nat, next[block] as nat);
            assert(covers(config, next, block, t));
        } else {
            lemma_used(config, n as int, level as nat);
            assert(n - used_floor(config, n as int, level as nat) > 1);
            lemma_first_listed(config, n as int);
            let c = lemma_child_over(config, n as int, level as nat, t as int, n - 1);
            let child = c as u64;
            lemma_child_in_span(config, n as int, level as nat, c);
            lemma_own_level(config, c);
            assert(is_parent(config, n as int, child as int));
            assert(changed_within(extrinsics, c - own_step(config, c), c));
            assert(listed.contains(child));
            if level == 1 {
                lemma_step_positive(config, 0);
                assert(child == t);
            }
            assert(is_followed(q, n, level, child));
            assert(is_listed(q, n, level, listed, child));
            assert(next.contains_key(child) && next[child] >= level - 1);
            lemma_floor(config, c, own_level(config, c), next[child] as nat);
            assert(covers(config, next, child, t));
        }
    }
}

/// Where all changes are covered, all changes are found, and nothing else but what the genesis
/// block yields if a digest lists it.
proof fn lemma_found(
    config: Configuration,
    q: Query,
    extrinsics: spec_fn(u64) -> Seq<u32>,
    blocks: Levels,
    n: int,
) -> (tail: Seq<Item>)
    requires
        lists_at_least(config, q, extrinsics),
        0 < q.end,
        0 <= n <= q.end,
        all_covered(config, q, extrinsics, blocks, n),
    ensures
        items_of(q, visits_from(q, blocks, n)) == found_items(
            span_changes(q, extrinsics, 0, n),
        ) + tail,
        tail.len() == 0 || tail == own_items(0, visit(q, 0)),
        genesis_is_unlisted(q) && !blocks.contains_key(0) ==> tail.len() == 0,
    decreases n,
{
    let all = visits_from(q, blocks, n);
    let expected = found_items(span_changes(q, extrinsics, 0, n));
    if n == 0 {
        assert(visits_from(q, followed_up(q, blocks, 0), -1) =~= Seq::empty());
        assert(visits_from(q, blocks, -1) =~= Seq::empty());
        if blocks.contains_key(0) {
            assert(all =~= seq![0u64]);
            lemma_items_one(q, 0);
        }
        assert(items_of(q, all) =~= expected + items_of(q, all));
        items_of(q, all)
    } else {
        let block = n as u64;
        let own = found_items(block_changes(q, extrinsics, n));
        let rest = found_items(span_changes(q, extrinsics, 0, n - 1));
        assert(expected =~= own + rest);
        if blocks.contains_key(block) {
            let next = followed_up(q, blocks, block);
            lemma_still_covered(config, q, extrinsics, blocks, block);
            lemma_visit(config, q, extrinsics, block);
            let tail = lemma_found(config, q, extrinsics, next, n - 1);
            lemma_items_both(q, seq![block], visits_from(q, next, n - 1));
            lemma_items_one(q, block);
            assert(items_of(q, all) =~= expected + tail);
            tail
        } else {
            assert(own.len() == 0) by {
                if in_range(q, block) && extrinsics(block).len() > 0 {
                    let c = choose|c: u64| c <= n && #[trigger] covers(config, blocks, c, block);
                    assert(covers(config, blocks, c, block));
                }
            }
            assert(all_covered(config, q, extrinsics, blocks, n - 1)) by {
                assert forall|t: u64|
                    0 < t <= n - 1 && in_range(q, t) && (#[trigger] extrinsics(t)).len()
                        > 0 implies exists|c: u64|
                    c <= n - 1 && #[trigger] covers(config, blocks, c, t) by {
                    let c = choose|c: u64| c <= n && #[trigger] covers(config, blocks, c, t);
                    assert(covers(config, blocks, c, t));
                }
            }
            let tail = lemma_found(config, q, extrinsics, blocks, n - 1);
            assert(items_of(q, all) =~= expected + tail);
            tail
        }
    }
}

/// The topmost digest is not taken above its own level.
proof fn lemma_top_own_level(config: Configuration, max: int, begin: int, n: int)
    requires
        begin <= n <= max,
        top_block(config, max, begin, n) == n,
    ensures
        top_level(config, max, begin, n) <= own_level(config, n),
{
    lemma_top(config, max, begin, n);
    lemma_own_level(config, n);
}

/// Every block of a range lies in the span of a digest on its surface.
proof fn lemma_surface_covers(config: Configuration, max: u64, begin: u64, n: int, t: u64) -> (i:
    int)
    requires
        begin <= n <= max,
        top_block(config, max as int, begin as int, n) == n,
        0 < t <= n,
        begin <= t,
    ensures
        ({
            let points = surface_points(config, max as int, begin as int, n);
            &&& 0 <= i < points.len()
            &&& t <= points[i].0
            &&& points[i].0 - digest_step(config, points[i].1 as nat) < t
            &&& points[i].1 <= own_level(config, points[i].0 as int)
        }),
    decreases n,
{
    let points = surface_points(config, max as int, begin as int, n);
    let level = top_level(config, max as int, begin as int, n);
    let low = round_below(n, digest_step(config, level));
    lemma_top(config, max as int, begin as int, n);
    lemma_top_own_level(config, max as int, begin as int, n);
    lemma_round_multiple(n, digest_step(config, level));
    assert(points[0] == (n as u64, level as u32));
    if low < t {
        0
    } else {
        lemma_top_below(config, max as int, begin as int, n);
        let i = lemma_surface_covers(config, max, begin, low, t);
        let rest = surface_points(config, max as int, begin as int, low);
        assert(points[i + 1] == rest[i]);
        i + 1
    }
}

/// What a query finds in a storage that lists at least what it has to: all changes of the range,
/// and nothing else but what the genesis block yields if a digest lists it.
pub proof fn lemma_query_finds(
    config: Configuration,
    q: Query,
    extrinsics: spec_fn(u64) -> Seq<u32>,
) -> (tail: Seq<Item>)
    requires
        lists_at_least(config, q, extrinsics),
        q.begin <= q.end,
    ensures
        query_items(config, q) == found_items(range_changes(q, extrinsics)) + tail,
        tail.len() == 0 || tail == own_items(0, visit(q, 0)),
        genesis_is_unlisted(q) || q.end == 0 ==> tail.len() == 0,
{
    let points = query_points(config, q);
    let blocks = with_points(Map::empty(), points);
    let end = q.end as int;
    lemma_surface_points(config, q.end, q.begin, end);
    assert(points_up_to(points, end)) by {
        assert forall|i: int| 0 <= i < points.len() implies (#[trigger] points[i]).0 <= end by {}
    }
    lemma_with_points_up_to(Map::empty(), points, end);
    lemma_visits_skip(q, blocks, u64::MAX as int, end);
    if end == 0 {
        lemma_visit(config, q, extrinsics, 0);
        lemma_with_points(Map::empty(), points, 0);
        assert(points[0].0 == 0);
        assert(visits_from(q, followed_up(q, blocks, 0), -1) =~= Seq::empty());
        assert(visits_from(q, blocks, 0) =~= seq![0u64]);
        lemma_items_one(q, 0);
        assert(span_changes(q, extrinsics, -1, -1) =~= Seq::empty());
        assert(range_changes(q, extrinsics) =~= block_changes(q, extrinsics, 0));
        let tail = Seq::<Item>::empty();
        assert(query_items(config, q) =~= found_items(range_changes(q, extrinsics)) + tail);
        tail
    } else {
        lemma_top(config, end, q.begin as int, end);
        assert(all_covered(config, q, extrinsics, blocks, end)) by {
            assert forall|t: u64|
                0 < t <= end && in_range(q, t) && (#[trigger] extrinsics(t)).len()
                    > 0 implies exists|block: u64|
                block <= end && #[trigger] covers(config, blocks, block, t) by {
                let i = lemma_surface_covers(config, q.end, q.begin, end, t);
                let (block, level) = points[i];
                lemma_with_points(Map::empty(), points, block);
                lemma_floor(config, block as int, level as nat, blocks[block] as nat);
                assert(covers(config, blocks, block, t));
            }
        }
        assert(!blocks.contains_key(0)) by {
            assert forall|i: int| 0 <= i < points.len() implies (#[trigger] points[i]).0 != 0 by {
                lemma_surface_positive(config, q.end, q.begin, end, i);
            }
            lemma_with_points(Map::empty(), points, 0);
        }
        lemma_found(config, q, extrinsics, blocks, end)
    }
}

/// The genesis block is not on the surface below other blocks.
proof fn lemma_surface_positive(config: Configuration, max: u64, begin: u64, n: int, i: int)
    requires
        begin <= n <= max,
        0 < n,
        0 <= i < surface_points(config, max as int, begin as int, n).len(),
    ensures
        surface_points(config, max as int, begin as int, n)[i].0 > 0,
    decreases n,
{
    let points = surface_points(config, max as int, begin as int, n);
    let low = round_below(
        n,
        digest_step(config, top_level(config, max as int, begin as int, n)),
    );
    lemma_top(config, max as int, begin as int, n);
    if i > 0 {
        lemma_surface_positive(config, max, begin, low, i - 1);
        assert(points[i] == surface_points(config, max as int, begin as int, low)[i - 1]);
    }
}

} // verus!
