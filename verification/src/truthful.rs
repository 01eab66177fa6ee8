//! What a query gives if the tries of a storage are truthful, from the bytes in the tries to the
//! changes.

use crate::codec::{
    blocks_value, digest_key, extrinsic_key, extrinsics_value, is_trie_key,
    law_trie_key_spells_out_the_entry,
};
use crate::digests::{is_parent, lemma_own_level, lemma_parent, own_level, own_step};
use crate::faithful::{
    block_changes, changed_within, genesis_is_unlisted, lists_at_least, lists_changed,
    range_changes, span_changes,
};
use crate::laws::{divides, law_changes_of_a_block, law_each_change_once};
use crate::model::{
    blocks_at, extrinsics_at, found_items, in_range, query_items, query_of, Item, Query,
};
use crate::nodes::Nodes;
use crate::storage::RootsStorage;
use crate::trie::trie_value;
use crate::types::{AnchorBlockId, Configuration};
use vstd::arithmetic::power::pow;
use vstd::prelude::*;

verus! {

/// The trie with `root` can be read under the trie key of the extrinsics of `block`, and what it
/// holds there is decoded to `list`. If it holds nothing, or bytes that hold no list, `list` is
/// empty.
pub open spec fn holds_extrinsics(
    nodes: Nodes,
    root: Seq<u8>,
    key: Seq<u8>,
    block: u64,
    list: Seq<u32>,
) -> bool {
    forall|trie_key: Seq<u8>| #[trigger]
        is_trie_key(trie_key, 1, block, key) ==> match trie_value(nodes, root, trie_key) {
            Ok(Some(bytes)) => match extrinsics_value(bytes) {
                Some(decoded) => decoded == list,
                None => list.len() == 0,
            },
            Ok(None) => list.len() == 0,
            Err(_) => false,
        }
}

/// The trie with `root` can be read under the trie key of the digest in `block`, and what it holds
/// there is decoded to `list`. If it holds nothing, or bytes that hold no list, `list` is empty.
pub open spec fn holds_blocks(
    nodes: Nodes,
    root: Seq<u8>,
    key: Seq<u8>,
    block: u64,
    list: Seq<u64>,
) -> bool {
    forall|trie_key: Seq<u8>| #[trigger]
        is_trie_key(trie_key, 2, block, key) ==> match trie_value(nodes, root, trie_key) {
            Ok(Some(bytes)) => match blocks_value(bytes) {
                Some(decoded) => decoded == list,
                None => list.len() == 0,
            },
            Ok(None) => list.len() == 0,
            Err(_) => false,
        }
}

/// Each digest in range lists, for each of its levels, the digests of the level below in its span
/// which are of no higher level, if in their own span the key was changed. On the lowest level
/// these are the single blocks in which it was changed.
pub open spec fn digests_are_complete(
    config: Configuration,
    begin: u64,
    end: u64,
    extrinsics: spec_fn(u64) -> Seq<u32>,
    listed: spec_fn(u64) -> Seq<u64>,
) -> bool {
    let interval = config.digest_interval as int;
    forall|level: nat, digest: u64, block: u64, t: u64|
        #![trigger divides(pow(interval, level), digest as int), listed(digest).contains(block),
            extrinsics(t)]
        {
            let span = pow(interval, level);
            let below = pow(interval, (level - 1) as nat);
            &&& 1 <= level <= config.digest_levels
            &&& 1 <= span <= u32::MAX
            &&& begin <= digest <= end
            &&& divides(span, digest as int)
            &&& digest - span < block < digest
            &&& divides(below, block as int)
            &&& !divides(span, block as int)
            &&& block - below < t <= block
            &&& extrinsics(t).len() > 0
        } ==> listed(digest).contains(block)
}

/// The storage knows the roots of the blocks up to the end of the range, their tries hold the
/// `extrinsics` of each block that changed the key and the blocks that are `listed` by each digest,
/// and the digests list what they have to, whatever else they list, but not the genesis block. Of
/// the genesis block nothing is said unless it is the whole range.
pub open spec fn truthful<R: RootsStorage>(
    config: Configuration,
    storage: R,
    nodes: Nodes,
    key: Seq<u8>,
    begin: u64,
    end: AnchorBlockId,
    extrinsics: spec_fn(u64) -> Seq<u32>,
    listed: spec_fn(u64) -> Seq<u64>,
) -> bool {
    &&& forall|block: u64|
        0 < block <= end.number || block == end.number ==> {
            &&& (#[trigger] storage.root_at(end, block)) matches Ok(Some(root))
            &&& begin <= block ==> {
                &&& holds_extrinsics(nodes, root, key, block, extrinsics(block))
                &&& holds_blocks(nodes, root, key, block, listed(block))
            }
        }
    &&& digests_are_complete(config, begin, end.number, extrinsics, listed)
    &&& forall|block: u64|
        begin <= block <= end.number ==> !(#[trigger] listed(block)).contains(0)
}

/// From index `at` on, `items` hold the changes of `block` by the extrinsics of `list`, the last
/// one first, and no other item is a change of that block.
pub open spec fn stand_at(items: Seq<Item>, block: u64, list: Seq<u32>, at: int) -> bool {
    let n = list.len();
    &&& 0 <= at
    &&& at + n <= items.len()
    &&& forall|i: int|
        0 <= i < n ==> #[trigger] items[at + i] == Ok::<(u64, u32), Seq<char>>(
            (block, list[n - 1 - i]),
        )
    &&& forall|i: int|
        0 <= i < items.len() && !(at <= i < at + n) ==> ((#[trigger] items[i]) matches Ok(change)
            ==> change.0 != block)
}

/// Somewhere in `items` stand the changes of `block` by the extrinsics of `list`.
pub open spec fn stand_somewhere(items: Seq<Item>, block: u64, list: Seq<u32>) -> bool {
    exists|at: int| #[trigger] stand_at(items, block, list, at)
}

proof fn lemma_lists_at_least<R: RootsStorage>(
    config: Configuration,
    storage: R,
    nodes: Nodes,
    key: Seq<u8>,
    begin: u64,
    end: AnchorBlockId,
    extrinsics: spec_fn(u64) -> Seq<u32>,
    listed: spec_fn(u64) -> Seq<u64>,
    block: u64,
)
    requires
        key.len() <= u32::MAX,
        truthful(config, storage, nodes, key, begin, end, extrinsics, listed),
        begin <= block <= end.number,
        0 < block || end.number == 0,
    ensures
        ({
            let q = query_of(storage, nodes, key, begin, end);
            &&& (q.roots)(block) matches Ok(Some(root))
            &&& extrinsics_at(q, root, block) == Ok::<Seq<u32>, Seq<char>>(extrinsics(block))
            &&& blocks_at(q, root, block) == Ok::<Seq<u64>, Seq<char>>(listed(block))
            &&& lists_changed(config, extrinsics, block, listed(block))
        }),
{
    let q = query_of(storage, nodes, key, begin, end);
    let interval = config.digest_interval as int;
    assert((q.roots)(block) == storage.root_at(end, block));
    law_trie_key_spells_out_the_entry(block, key);
    assert(is_trie_key(extrinsic_key(block, key), 1, block, key));
    assert(is_trie_key(digest_key(block, key), 2, block, key));
    assert(extrinsics(block).len() == 0 ==> extrinsics(block) =~= Seq::empty());
    assert(listed(block).len() == 0 ==> listed(block) =~= Seq::empty());
    assert forall|child: u64|
        0 < child && #[trigger] is_parent(config, block as int, child as int) && changed_within(
            extrinsics,
            child - own_step(config, child as int),
            child as int,
        ) implies listed(block).contains(child) by {
        let below = own_level(config, child as int);
        let level = below + 1;
        lemma_parent(config, block as int, child as int);
        lemma_own_level(config, child as int);
        let t = choose|t: u64|
            child - own_step(config, child as int) < t <= child && (#[trigger] extrinsics(t)).len()
                > 0;
        assert((level - 1) as nat == below);
        assert(divides(pow(interval, level), block as int));
        assert(extrinsics(t).len() > 0);
    }
}

/// All changes in a span are changes of its blocks, the last block first.
proof fn lemma_span(
    q: Query,
    extrinsics: spec_fn(u64) -> Seq<u32>,
    low: int,
    high: int,
)
    requires
        -1 <= low,
        high <= u64::MAX,
    ensures
        ({
            let changes = span_changes(q, extrinsics, low, high);
            &&& forall|i: int|
                0 <= i < changes.len() ==> low < (#[trigger] changes[i]).0 <= high && in_range(
                    q,
                    changes[i].0,
                )
            &&& forall|i: int, j: int|
                0 <= i < j < changes.len() ==> changes[i].0 >= changes[j].0
        }),
    decreases high - low,
{
    if low < high {
        let changes = span_changes(q, extrinsics, low, high);
        let own = block_changes(q, extrinsics, high);
        let rest = span_changes(q, extrinsics, low, high - 1);
        lemma_span(q, extrinsics, low, high - 1);
        law_changes_of_a_block(high as u64, extrinsics(high as u64));
        assert(changes == own + rest);
        assert forall|i: int| 0 <= i < own.len() implies (#[trigger] own[i]).0 == high && in_range(
            q,
            own[i].0,
        ) by {}
        assert forall|i: int| 0 <= i < changes.len() implies low < (#[trigger] changes[i]).0 <= high
            && in_range(q, changes[i].0) by {
            if i < own.len() {
                assert(changes[i] == own[i]);
            } else {
                assert(changes[i] == rest[i - own.len()]);
            }
        }
        assert forall|i: int, j: int| 0 <= i < j < changes.len() implies changes[i].0
            >= changes[j].0 by {
            if i < own.len() {
                assert(changes[i] == own[i]);
            } else {
                assert(changes[i] == rest[i - own.len()]);
                assert(changes[j] == rest[j - own.len()]);
            }
        }
    }
}

/// Where in a span the changes of one of its blocks stand.
proof fn lemma_place(
    q: Query,
    extrinsics: spec_fn(u64) -> Seq<u32>,
    low: int,
    high: int,
    block: u64,
) -> (at: int)
    requires
        -1 <= low < block <= high <= u64::MAX,
        in_range(q, block),
    ensures
        stand_at(
            found_items(span_changes(q, extrinsics, low, high)),
            block,
            extrinsics(block),
            at,
        ),
    decreases high - low,
{
    let items = found_items(span_changes(q, extrinsics, low, high));
    let own = found_items(block_changes(q, extrinsics, high));
    let rest = found_items(span_changes(q, extrinsics, low, high - 1));
    let n = extrinsics(block).len();
    assert(items =~= own + rest);
    law_changes_of_a_block(high as u64, extrinsics(high as u64));
    lemma_span(q, extrinsics, low, high - 1);
    if block == high {
        assert forall|i: int| 0 <= i < n implies #[trigger] items[0 + i] == Ok::<
            (u64, u32),
            Seq<char>,
        >((block, extrinsics(block)[n - 1 - i])) by {
            assert(items[i] == own[i]);
        }
        assert forall|i: int| 0 <= i < items.len() && !(0 <= i < 0 + n) implies ((
        #[trigger] items[i]) matches Ok(change) ==> change.0 != block) by {
            assert(items[i] == rest[i - own.len()]);
        }
        0
    } else {
        let at = lemma_place(q, extrinsics, low, high - 1, block);
        let shifted = at + own.len();
        assert forall|i: int| 0 <= i < n implies #[trigger] items[shifted + i] == Ok::<
            (u64, u32),
            Seq<char>,
        >((block, extrinsics(block)[n - 1 - i])) by {
            assert(items[shifted + i] == rest[at + i]);
        }
        assert forall|i: int| 0 <= i < items.len() && !(shifted <= i < shifted + n) implies ((
        #[trigger] items[i]) matches Ok(change) ==> change.0 != block) by {
            if i < own.len() {
                assert(items[i] == own[i]);
            } else {
                assert(items[i] == rest[i - own.len()]);
            }
        }
        shifted
    }
}

/// From a storage whose tries are truthful a query gets no error. For every block in range whose
/// trie lists n extrinsics it yields n changes in a row, the i-th of which is that of the i-th
/// extrinsic from the end, and no other change of that block. It yields changes of no other blocks,
/// and those of later blocks first.
pub proof fn law_truthful_tries_give_every_change<R: RootsStorage>(
    config: Configuration,
    storage: R,
    nodes: Nodes,
    key: Seq<u8>,
    begin: u64,
    end: AnchorBlockId,
    extrinsics: spec_fn(u64) -> Seq<u32>,
    listed: spec_fn(u64) -> Seq<u64>,
)
    requires
        key.len() <= u32::MAX,
        begin <= end.number,
        truthful(config, storage, nodes, key, begin, end, extrinsics, listed),
    ensures
        ({
            let items = query_items(config, query_of(storage, nodes, key, begin, end));
            &&& forall|i: int|
                0 <= i < items.len() ==> {
                    &&& (#[trigger] items[i]) matches Ok(change)
                    &&& begin <= change.0 <= end.number
                    &&& 0 < change.0 || end.number == 0
                }
            &&& forall|i: int, j: int|
                0 <= i < j < items.len() ==> (#[trigger] items[i])->Ok_0.0 >= (
                #[trigger] items[j])->Ok_0.0
            &&& forall|block: u64|
                begin <= block <= end.number && (0 < block || end.number == 0) ==> stand_somewhere(
                    items,
                    block,
                    #[trigger] extrinsics(block),
                )
        }),
{
    let q = query_of(storage, nodes, key, begin, end);
    let items = query_items(config, q);
    assert(lists_at_least(config, q, extrinsics)) by {
        assert forall|block: u64| block <= q.end && (0 < block || q.end == 0) implies {
            &&& (#[trigger] (q.roots)(block)) matches Ok(Some(root))
            &&& q.begin <= block ==> {
                &&& extrinsics_at(q, root, block) == Ok::<Seq<u32>, Seq<char>>(extrinsics(block))
                &&& blocks_at(q, root, block) matches Ok(blocks) && lists_changed(
                    config,
                    extrinsics,
                    block,
                    blocks,
                )
            }
        } by {
            assert((q.roots)(block) == storage.root_at(end, block));
            if q.begin <= block {
                lemma_lists_at_least(
                    config,
                    storage,
                    nodes,
                    key,
                    begin,
                    end,
                    extrinsics,
                    listed,
                    block,
                );
            }
        }
    }
    assert(genesis_is_unlisted(q)) by {
        assert forall|block: u64| 0 < block && in_range(q, block) implies ((
        #[trigger] (q.roots)(block)) matches Ok(Some(root)) ==> (blocks_at(
            q,
            root,
            block,
        ) matches Ok(blocks) ==> !blocks.contains(0))) by {
            lemma_lists_at_least(
                config,
                storage,
                nodes,
                key,
                begin,
                end,
                extrinsics,
                listed,
                block,
            );
            assert(!listed(block).contains(0));
        }
    }
    law_each_change_once(config, q, extrinsics);
    let low = if q.end == 0 {
        -1
    } else {
        0int
    };
    let changes = range_changes(q, extrinsics);
    lemma_span(q, extrinsics, low, q.end as int);
    assert(items == found_items(changes));
    assert forall|i: int| 0 <= i < items.len() implies #[trigger] items[i] == Ok::<
        (u64, u32),
        Seq<char>,
    >(changes[i]) by {}
    assert forall|i: int| 0 <= i < items.len() implies {
        &&& (#[trigger] items[i]) matches Ok(change)
        &&& begin <= change.0 <= end.number
        &&& 0 < change.0 || end.number == 0
    } by {
        assert(low < changes[i].0);
    }
    assert forall|i: int, j: int| 0 <= i < j < items.len() implies (#[trigger] items[i])->Ok_0.0
        >= (#[trigger] items[j])->Ok_0.0 by {
        assert(changes[i].0 >= changes[j].0);
    }
    assert forall|block: u64|
        begin <= block <= end.number && (0 < block || end.number == 0) implies stand_somewhere(
        items,
        block,
        #[trigger] extrinsics(block),
    ) by {
        let at = lemma_place(q, extrinsics, low, q.end as int, block);
        assert(stand_at(items, block, extrinsics(block), at));
    }
}

} // verus!
