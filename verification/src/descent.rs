//! From which blocks changes come, and in which order.

use crate::model::{
    collected, drawn, followed_up, found_items, hand_out, in_range, items_of, lemma_visits_skip,
    none_behind, own_items, query_items, query_points, query_visits, resume, visit, visited,
    visits, visits_from, with_points, Item, Pending, Query,
};
use crate::queue::Levels;
use crate::types::Configuration;
use vstd::prelude::*;

verus! {

/// Every change among `items` is one of a block in range.
pub open spec fn all_in_range(q: Query, items: Seq<Item>) -> bool {
    forall|i: int|
        0 <= i < items.len() ==> ((#[trigger] items[i]) matches Ok(change) ==> in_range(
            q,
            change.0,
        ))
}

/// Whatever is looked at, only changes of blocks in range are found.
pub proof fn lemma_items_in_range(q: Query, blocks: Seq<u64>)
    ensures
        all_in_range(q, items_of(q, blocks)),
    decreases blocks.len(),
{
    if blocks.len() > 0 {
        let v = visit(q, blocks[0]);
        let own = own_items(blocks[0], v);
        let rest = items_of(q, blocks.drop_first());
        if !in_range(q, blocks[0]) {
            assert(v.extrinsics.len() == 0);
        }
        lemma_items_in_range(q, blocks.drop_first());
        assert forall|i: int| 0 <= i < (own + rest).len() implies ((#[trigger] (own
            + rest)[i]) matches Ok(change) ==> in_range(q, change.0)) by {
            if i >= own.len() {
                assert((own + rest)[i] == rest[i - own.len()]);
            }
        }
    }
}

/// Each block is earlier than the one before it.
pub open spec fn blocks_descend(blocks: Seq<u64>) -> bool {
    forall|i: int, j: int| 0 <= i < j < blocks.len() ==> blocks[i] > blocks[j]
}

/// No block of `blocks` lies behind `last`.
pub open spec fn blocks_up_to(blocks: Seq<u64>, last: int) -> bool {
    forall|i: int| 0 <= i < blocks.len() ==> #[trigger] blocks[i] <= last
}

/// Blocks are looked at in descending order, whatever the digests list.
pub proof fn lemma_visits_descend(q: Query, blocks: Levels, n: int)
    requires
        n <= u64::MAX,
    ensures
        blocks_descend(visits_from(q, blocks, n)),
        blocks_up_to(visits_from(q, blocks, n), n),
    decreases n + 1,
{
    let all = visits_from(q, blocks, n);
    if n < 0 {
    } else if blocks.contains_key(n as u64) {
        let next = followed_up(q, blocks, n as u64);
        let rest = visits_from(q, next, n - 1);
        lemma_visits_descend(q, next, n - 1);
        assert forall|i: int| 0 < i < all.len() implies #[trigger] all[i] <= n - 1 by {
            assert(all[i] == rest[i - 1]);
        }
        assert forall|i: int, j: int| 0 <= i < j < all.len() implies all[i] > all[j] by {
            assert(all[j] == rest[j - 1]);
            if i > 0 {
                assert(all[i] == rest[i - 1]);
            }
        }
    } else {
        lemma_visits_descend(q, blocks, n - 1);
        assert forall|i: int| 0 <= i < all.len() implies #[trigger] all[i] <= n by {}
    }
}

/// The blocks of the changes among `items` do not ascend.
pub open spec fn descends(items: Seq<Item>) -> bool {
    forall|i: int, j: int|
        0 <= i < j < items.len() ==> ((#[trigger] items[i]) matches Ok(first) ==> ((
        #[trigger] items[j]) matches Ok(second) ==> first.0 >= second.0))
}

/// What is found in descending blocks descends.
proof fn lemma_items_descend(q: Query, blocks: Seq<u64>)
    requires
        blocks_descend(blocks),
    ensures
        descends(items_of(q, blocks)),
        forall|i: int|
            0 <= i < items_of(q, blocks).len() ==> ((#[trigger] items_of(q, blocks)[i]) matches Ok(
                change,
            ) ==> blocks.len() > 0 && change.0 <= blocks[0]),
    decreases blocks.len(),
{
    if blocks.len() > 0 {
        let rest_blocks = blocks.drop_first();
        let own = own_items(blocks[0], visit(q, blocks[0]));
        let rest = items_of(q, rest_blocks);
        let all = own + rest;
        assert forall|i: int, j: int| 0 <= i < j < rest_blocks.len() implies rest_blocks[i]
            > rest_blocks[j] by {
            assert(blocks[i + 1] > blocks[j + 1]);
        }
        lemma_items_descend(q, rest_blocks);
        assert forall|i: int| 0 <= i < all.len() implies ((#[trigger] all[i]) matches Ok(change)
            ==> change.0 <= blocks[0] && (i < own.len() ==> change.0 == blocks[0]) && (i
            >= own.len() ==> change.0 < blocks[0])) by {
            if i < own.len() {
                assert(all[i] == own[i]);
            } else {
                assert(all[i] == rest[i - own.len()]);
                if rest_blocks.len() > 0 {
                    assert(blocks[0] > blocks[1]);
                }
            }
        }
        assert forall|i: int, j: int| 0 <= i < j < all.len() implies ((
        #[trigger] all[i]) matches Ok(first) ==> ((#[trigger] all[j]) matches Ok(second) ==> first.0
            >= second.0)) by {
            if i >= own.len() {
                assert(all[i] == rest[i - own.len()]);
                assert(all[j] == rest[j - own.len()]);
            }
        }
    }
}

/// A query yields changes in descending order.
pub proof fn lemma_query_descends(config: Configuration, q: Query)
    ensures
        descends(query_items(config, q)),
        blocks_descend(query_visits(config, q)),
{
    let blocks = with_points(Map::empty(), query_points(config, q));
    lemma_visits_descend(q, blocks, u64::MAX as int);
    lemma_items_descend(q, query_visits(config, q));
}

/// Changes that are collected without an error are all there is.
pub proof fn lemma_collected_all(items: Seq<Item>)
    ensures
        collected(items) matches Ok(changes) ==> items == found_items(changes),
    decreases items.len(),
{
    if items.len() == 0 {
        assert(items =~= found_items(Seq::empty()));
    } else {
        lemma_collected_all(items.drop_first());
        if let Ok(changes) = collected(items) {
            let more = collected(items.drop_first())->Ok_0;
            assert(items.drop_first() == found_items(more));
            assert(changes == seq![items[0]->Ok_0] + more);
            assert(items =~= seq![items[0]] + items.drop_first());
            assert(items =~= found_items(changes));
        }
    }
}

/// No block behind `last` is looked at if none is to be.
pub proof fn lemma_visits_up_to(q: Query, blocks: Levels, last: int)
    requires
        -1 <= last <= u64::MAX,
        none_behind(blocks, last),
    ensures
        blocks_up_to(visits(q, blocks), last),
{
    lemma_visits_skip(q, blocks, u64::MAX as int, last);
    lemma_visits_descend(q, blocks, last);
}

/// `changes` are of blocks from `low` up to the end of the range.
pub open spec fn changes_between(q: Query, low: u64, changes: Seq<(u64, u32)>) -> bool {
    forall|i: int| 0 <= i < changes.len() ==> low <= (#[trigger] changes[i]).0 <= q.end
}

/// A drilldown under way that holds changes of blocks between `low` and the end of the range only
/// goes on to do so.
pub proof fn lemma_resume_between(q: Query, p: Pending, n: int, low: u64)
    requires
        low <= q.begin,
        changes_between(q, low, p.changes),
    ensures
        resume(q, p, n).item matches Some(Ok(change)) ==> low <= change.0 <= q.end,
        changes_between(q, low, resume(q, p, n).pending.changes),
    decreases n + 1, p.points.len(),
{
    if p.changes.len() > 0 {
        let after = hand_out(p).pending.changes;
        assert forall|i: int| 0 <= i < after.len() implies low <= (#[trigger] after[i]).0
            <= q.end by {
            assert(after[i] == p.changes[i + 1]);
        }
    } else if n < 0 {
    } else if p.points.len() > 0 && p.points[0].0 == n {
        lemma_resume_between(q, drawn(p), n, low);
    } else if p.blocks.contains_key(n as u64) {
        let block = n as u64;
        let next = visited(q, p, block);
        assert(changes_between(q, low, next.changes)) by {
            if !in_range(q, block) {
                assert(visit(q, block).extrinsics.len() == 0);
            }
        }
        if visit(q, block).failure is None {
            lemma_resume_between(q, next, n - 1, low);
        }
    } else {
        lemma_resume_between(q, p, n - 1, low);
    }
}

} // verus!
