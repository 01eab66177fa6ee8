//! Functions + iterator that traverses changes tries and returns all
//! (block, extrinsic) pairs where given key has been changed.

use crate::descent::{descends, lemma_collected_all, lemma_query_descends};
use crate::drilldown::{handed_out, yields, DrilldownIteratorEssence};
use crate::model::{
    collected, found_items, is_done, items_left, query_answer, query_items, query_of, query_points,
    query_reads, query_visits, reads, reads_left, step, visits_left, with_nodes, Item, Pending,
    Query,
};
use crate::nodes::{
    contents, keccak_256, lemma_nodes_of_by_hash, nodes_by_hash, nodes_of, NodeDb, Nodes,
};
use crate::order::{sort_strings, sorted};
use crate::queue::Levels;
use crate::storage::{InMemoryStorage, RootsStorage, Storage};
use crate::surface::{invalid_range, surface_iterator};
use crate::trie::{holds, node_data, trie_reading, PlainReader, RecordingReader, TrieReader};
use crate::types::{AnchorBlockId, Configuration};
use vstd::prelude::*;

verus! {

/// Exploring drilldown operator.
pub struct DrilldownIterator<'a, RS: RootsStorage, S: Storage> {
    essence: DrilldownIteratorEssence<'a, RS, S>,
}

pub open spec fn changes_view(result: Result<Vec<(u64, u32)>, String>) -> Result<
    Seq<(u64, u32)>,
    Seq<char>,
> {
    match result {
        Ok(changes) => Ok(changes@),
        Err(message) => Err(message@),
    }
}

/// Changes that were found come before what else is collected.
proof fn lemma_collected(changes: Seq<(u64, u32)>, rest: Seq<Item>)
    ensures
        collected(found_items(changes) + rest) == match collected(rest) {
            Ok(more) => Ok(changes + more),
            Err(message) => Err(message),
        },
    decreases changes.len(),
{
    let items = found_items(changes) + rest;
    if changes.len() == 0 {
        assert(items =~= rest);
        if let Ok(more) = collected(rest) {
            assert(changes + more =~= more);
        }
    } else {
        lemma_collected(changes.drop_first(), rest);
        assert(items.drop_first() =~= found_items(changes.drop_first()) + rest);
        if let Ok(more) = collected(rest) {
            assert(seq![changes[0]] + (changes.drop_first() + more) =~= changes + more);
        }
    }
}

/// Collecting gives the changes of all items if none is an error, and otherwise the first error.
pub proof fn law_collected(items: Seq<Item>)
    ensures
        match collected(items) {
            Ok(changes) => {
                &&& changes.len() == items.len()
                &&& forall|i: int|
                    0 <= i < items.len() ==> #[trigger] items[i] == Ok::<(u64, u32), Seq<char>>(
                        changes[i],
                    )
            },
            Err(message) => exists|i: int|
                {
                    &&& 0 <= i < items.len()
                    &&& #[trigger] items[i] == Err::<(u64, u32), Seq<char>>(message)
                    &&& forall|j: int| 0 <= j < i ==> (#[trigger] items[j]) is Ok
                },
        },
    decreases items.len(),
{
    if items.len() > 0 {
        let rest = items.drop_first();
        law_collected(rest);
        match items[0] {
            Err(_) => {},
            Ok(change) => match collected(rest) {
                Ok(more) => {
                    assert forall|i: int| 0 <= i < items.len() implies #[trigger] items[i] == Ok::<
                        (u64, u32),
                        Seq<char>,
                    >((seq![change] + more)[i]) by {
                        if i > 0 {
                            assert(items[i] == rest[i - 1]);
                        }
                    }
                },
                Err(message) => {
                    let i = choose|i: int|
                        {
                            &&& 0 <= i < rest.len()
                            &&& #[trigger] rest[i] == Err::<(u64, u32), Seq<char>>(message)
                            &&& forall|j: int| 0 <= j < i ==> (#[trigger] rest[j]) is Ok
                        };
                    assert(items[i + 1] == rest[i]);
                    assert forall|j: int| 0 <= j < i + 1 implies (#[trigger] items[j]) is Ok by {
                        if j > 0 {
                            assert(items[j] == rest[j - 1]);
                        }
                    }
                },
            },
        }
    }
}

impl<'a, RS: RootsStorage, S: Storage> DrilldownIterator<'a, RS, S> {
    pub closed spec fn wf(&self) -> bool {
        self.essence.wf()
    }

    /// The nodes of the storage that tries are read from.
    pub closed spec fn nodes(&self) -> Nodes {
        self.essence.nodes()
    }

    /// The query, if `nodes` were the nodes of the storage.
    pub closed spec fn query(&self, nodes: Nodes) -> Query {
        self.essence.query(trie_reading(), nodes)
    }

    /// What is still to be done.
    pub closed spec fn pending(&self) -> Pending {
        self.essence.pending()
    }

    /// All that is still to come, if `nodes` were the nodes of the storage.
    pub open spec fn remaining(&self, nodes: Nodes) -> Seq<Item> {
        items_left(self.query(nodes), self.pending())
    }

    /// The blocks that are still to be looked at.
    pub open spec fn visits(&self) -> Seq<u64> {
        visits_left(self.query(self.nodes()), self.pending())
    }

    /// The trie nodes that are still to be read.
    pub open spec fn reads(&self) -> Seq<(Seq<u8>, Seq<u8>)> {
        reads_left(self.query(self.nodes()), self.pending())
    }

    /// Returns the next change, or the next error. Iterating can go on after an error. Once
    /// nothing is left, no call looks at a block or reads a node any more.
    pub fn next(&mut self) -> (item: Option<Result<(u64, u32), String>>)
        requires
            old(self).wf(),
        ensures
            final(self).wf(),
            final(self).nodes() == old(self).nodes(),
            forall|nodes: Nodes| #[trigger] final(self).query(nodes) == old(self).query(nodes),
            ({
                let q = old(self).query(old(self).nodes());
                let s = step(q, old(self).pending());
                &&& handed_out(item) == s.item
                &&& final(self).pending() == s.pending
                &&& old(self).visits() == s.visits + final(self).visits()
                &&& old(self).reads() == reads(q, s.visits) + final(self).reads()
            }),
            item is None ==> {
                &&& is_done(final(self).pending())
                &&& final(self).visits().len() == 0
                &&& final(self).reads().len() == 0
            },
            is_done(old(self).pending()) ==> item is None && final(self).pending() == old(
                self,
            ).pending(),
            yields(
                old(self).remaining(old(self).nodes()),
                item,
                final(self).remaining(old(self).nodes()),
            ),
            ({
                let before = old(self).remaining(old(self).nodes());
                let after = final(self).remaining(old(self).nodes());
                match item {
                    Some(Ok(change)) => {
                        &&& before.len() == after.len() + 1
                        &&& before[0] == Ok::<(u64, u32), Seq<char>>(change)
                        &&& forall|i: int| 0 <= i < after.len() ==> after[i] == before[i + 1]
                    },
                    Some(Err(message)) => {
                        &&& before.len() == after.len() + 1
                        &&& before[0] == Err::<(u64, u32), Seq<char>>(message@)
                        &&& forall|i: int| 0 <= i < after.len() ==> after[i] == before[i + 1]
                    },
                    None => before.len() == 0 && after.len() == 0,
                }
            }),
            forall|other: Nodes|
                old(self).nodes().submap_of(other) && !(item matches Some(Err(_))) ==> yields(
                    #[trigger] old(self).remaining(other),
                    item,
                    final(self).remaining(other),
                ),
    {
        let mut reader = PlainReader;
        let item = self.essence.next(&mut reader);
        proof {
            let nodes = old(self).nodes();
            assert forall|other: Nodes|
                nodes.submap_of(other) && !(item matches Some(Err(_))) implies yields(
                #[trigger] old(self).remaining(other),
                item,
                self.remaining(other),
            ) by {
                assert(reader.agrees(nodes, other));
            }
        }
        item
    }

    /// Returns all that is still to come, or the first error.
    pub fn collect(self) -> (result: Result<Vec<(u64, u32)>, String>)
        requires
            self.wf(),
        ensures
            changes_view(result) == collected(self.remaining(self.nodes())),
            ({
                let items = self.remaining(self.nodes());
                match result {
                    Ok(changes) => {
                        &&& changes@.len() == items.len()
                        &&& forall|i: int|
                            0 <= i < items.len() ==> #[trigger] items[i] == Ok::<
                                (u64, u32),
                                Seq<char>,
                            >(changes@[i])
                    },
                    Err(message) => exists|i: int|
                        {
                            &&& 0 <= i < items.len()
                            &&& #[trigger] items[i] == Err::<(u64, u32), Seq<char>>(message@)
                            &&& forall|j: int| 0 <= j < i ==> (#[trigger] items[j]) is Ok
                        },
                }
            }),
            result is Ok ==> forall|other: Nodes|
                self.nodes().submap_of(other) ==> collected(#[trigger] self.remaining(other))
                    == changes_view(result),
    {
        let mut iter = self;
        let mut changes: Vec<(u64, u32)> = Vec::new();
        let ghost nodes = self.nodes();
        proof {
            assert forall|other: Nodes| nodes.submap_of(other) implies (
            #[trigger] self.remaining(other)) == found_items(changes@) + iter.remaining(other) by {
                assert(found_items(changes@) + iter.remaining(other) =~= iter.remaining(other));
            }
        }
        loop
            invariant
                iter.wf(),
                nodes == self.nodes(),
                iter.nodes() == nodes,
                forall|other: Nodes|
                    nodes.submap_of(other) ==> (#[trigger] self.remaining(other)) == found_items(
                        changes@,
                    ) + iter.remaining(other),
            decreases iter.remaining(nodes).len(),
        {
            let ghost before = iter;
            match iter.next() {
                Some(Ok(change)) => {
                    let ghost found = changes@;
                    changes.push(change);
                    proof {
                        assert forall|other: Nodes| nodes.submap_of(other) implies (
                        #[trigger] self.remaining(other)) == found_items(changes@)
                            + iter.remaining(other) by {
                            assert(yields(
                                before.remaining(other),
                                Some(Ok(change)),
                                iter.remaining(other),
                            ));
                            assert(found_items(found) + before.remaining(other) =~= found_items(
                                changes@,
                            ) + iter.remaining(other));
                        }
                    }
                },
                Some(Err(message)) => {
                    proof {
                        assert(self.remaining(nodes) == found_items(changes@) + before.remaining(
                            nodes,
                        ));
                        lemma_collected(changes@, before.remaining(nodes));
                        law_collected(self.remaining(nodes));
                    }
                    return Err(message);
                },
                None => {
                    proof {
                        assert forall|other: Nodes| nodes.submap_of(other) implies collected(
                            #[trigger] self.remaining(other),
                        ) == Ok::<Seq<(u64, u32)>, Seq<char>>(changes@) by {
                            assert(yields(
                                before.remaining(other),
                                None,
                                iter.remaining(other),
                            ));
                            lemma_collected(changes@, before.remaining(other));
                            assert(changes@ + Seq::<(u64, u32)>::empty() =~= changes@);
                        }
                        assert(collected(self.remaining(nodes)) == Ok::<
                            Seq<(u64, u32)>,
                            Seq<char>,
                        >(changes@));
                        law_collected(self.remaining(nodes));
                    }
                    return Ok(changes);
                },
            }
        }
    }
}

/// What is pending before anything is asked for: the whole surface.
pub open spec fn untouched(config: Configuration, q: Query) -> Pending {
    Pending { changes: Seq::empty(), blocks: Levels::empty(), points: query_points(config, q) }
}

/// Before anything is asked for, the whole query is left.
proof fn lemma_untouched(config: Configuration, q: Query)
    ensures
        items_left(q, untouched(config, q)) == query_items(config, q),
        visits_left(q, untouched(config, q)) == query_visits(config, q),
        reads_left(q, untouched(config, q)) == query_reads(config, q),
{
    assert(items_left(q, untouched(config, q)) =~= query_items(config, q));
}

/// Return changes of given key at given blocks range.
/// `max` is the number of best known block.
/// Changes are returned in descending order (i.e. last block comes first).
pub fn key_changes<'a, S: Storage>(
    config: &'a Configuration,
    storage: &'a S,
    begin: u64,
    end: &'a AnchorBlockId,
    max: u64,
    key: &'a [u8],
) -> (result: Result<DrilldownIterator<'a, S, S>, String>)
    requires
        key@.len() <= u32::MAX,
    ensures
        match result {
            Ok(iter) => {
                let q = query_of(*storage, storage.nodes(), key@, begin, *end);
                &&& begin <= end.number <= max
                &&& iter.wf()
                &&& iter.nodes() == storage.nodes()
                &&& iter.pending() == untouched(*config, q)
                &&& forall|nodes: Nodes| #[trigger] iter.query(nodes) == with_nodes(q, nodes)
                &&& forall|nodes: Nodes| #[trigger]
                    iter.remaining(nodes) == query_items(*config, with_nodes(q, nodes))
                &&& iter.visits() == query_visits(*config, q)
                &&& descends(iter.remaining(q.nodes))
                &&& query_answer(*config, q, max) == Ok::<
                    (Seq<Item>, Seq<(Seq<u8>, Seq<u8>)>),
                    Seq<char>,
                >((iter.remaining(q.nodes), iter.reads()))
            },
            Err(message) => {
                &&& begin > end.number || end.number > max
                &&& query_answer(
                    *config,
                    query_of(*storage, storage.nodes(), key@, begin, *end),
                    max,
                ) == Err::<(Seq<Item>, Seq<(Seq<u8>, Seq<u8>)>), Seq<char>>(message@)
                &&& message@ == invalid_range()
                &&& message@ == "invalid changes range"@
            },
        },
{
    // we can't query any roots before root
    let known: u64 = if max < end.number {
        max
    } else {
        end.number
    };
    let surface = match surface_iterator(config, known, begin, end.number) {
        Ok(surface) => surface,
        Err(message) => {
            return Err(message);
        },
    };
    let essence = DrilldownIteratorEssence::new(key, storage, storage, begin, end, surface);
    let iter = DrilldownIterator { essence };
    proof {
        let q = query_of(*storage, storage.nodes(), key@, begin, *end);
        assert(iter.pending() =~= untouched(*config, q));
        assert forall|nodes: Nodes| #[trigger] iter.remaining(nodes) == query_items(
            *config,
            query_of(*storage, nodes, key@, begin, *end),
        ) by {
            assert(iter.query(nodes) == with_nodes(q, nodes));
            lemma_untouched(*config, with_nodes(q, nodes));
        }
        lemma_untouched(*config, q);
        lemma_query_descends(*config, q);
        assert(with_nodes(q, q.nodes) == q);
    }
    Ok(iter)
}

/// `nodes` holds each node of `list` under its hash.
pub open spec fn holds_nodes(nodes: Nodes, list: Seq<Seq<u8>>) -> bool {
    forall|i: int|
        0 <= i < list.len() ==> nodes.contains_key(keccak_256(#[trigger] list[i]))
            && nodes[keccak_256(list[i])] == list[i]
}

/// `proof_nodes` are nodes of the storage, and wherever they can be read the query yields the same.
pub open spec fn proves(config: Configuration, q: Query, proof_nodes: Seq<Seq<u8>>) -> bool {
    &&& holds_nodes(q.nodes, proof_nodes)
    &&& forall|other: Nodes| #[trigger]
        holds_nodes(other, proof_nodes) ==> query_items(config, with_nodes(q, other))
            == query_items(config, q)
}

/// The query meets no error, and it yields the same changes wherever its nodes and possibly more
/// can be read.
pub open spec fn is_settled(config: Configuration, q: Query) -> bool {
    &&& collected(query_items(config, q)) is Ok
    &&& forall|other: Nodes|
        q.nodes.submap_of(other) ==> collected(
            #[trigger] query_items(config, with_nodes(q, other)),
        ) == collected(query_items(config, q))
}

/// Proving drilldown iterator.
pub struct ProvingDrilldownIterator<'a, RS: RootsStorage, S: Storage> {
    essence: DrilldownIteratorEssence<'a, RS, S>,
    proof_recorder: RecordingReader,
}

impl<'a, RS: RootsStorage, S: Storage> ProvingDrilldownIterator<'a, RS, S> {
    pub closed spec fn wf(&self) -> bool {
        &&& self.essence.wf()
        &&& self.proof_recorder.agrees(self.essence.nodes(), self.essence.nodes())
    }

    /// The nodes of the storage that tries are read from.
    pub closed spec fn nodes(&self) -> Nodes {
        self.essence.nodes()
    }

    /// The query, if `nodes` were the nodes of the storage.
    pub closed spec fn query(&self, nodes: Nodes) -> Query {
        self.essence.query(trie_reading(), nodes)
    }

    /// What is still to be done.
    pub closed spec fn pending(&self) -> Pending {
        self.essence.pending()
    }

    /// All that is still to come, if `nodes` were the nodes of the storage.
    pub open spec fn remaining(&self, nodes: Nodes) -> Seq<Item> {
        items_left(self.query(nodes), self.pending())
    }

    /// The trie nodes that are still to be read.
    pub open spec fn reads(&self) -> Seq<(Seq<u8>, Seq<u8>)> {
        reads_left(self.query(self.nodes()), self.pending())
    }

    /// The trie nodes that were read, with their hashes.
    pub closed spec fn recorded(&self) -> Seq<(Seq<u8>, Seq<u8>)> {
        self.proof_recorder.recorded()
    }

    /// Consume the iterator, extracting the gathered proof in lexicographical order
    /// by value.
    pub fn extract_proof(self) -> (result: Vec<Vec<u8>>)
        ensures
            sorted(contents(result@)),
            contents(result@).to_multiset() == node_data(self.recorded()).to_multiset(),
    {
        sort_strings(self.proof_recorder.into_nodes())
    }

    /// Returns the next change, or the next error, and records the trie nodes that are read.
    pub fn next(&mut self) -> (item: Option<Result<(u64, u32), String>>)
        requires
            old(self).wf(),
        ensures
            final(self).wf(),
            final(self).nodes() == old(self).nodes(),
            yields(
                old(self).remaining(old(self).nodes()),
                item,
                final(self).remaining(old(self).nodes()),
            ),
            ({
                let before = old(self).remaining(old(self).nodes());
                let after = final(self).remaining(old(self).nodes());
                match item {
                    Some(Ok(change)) => {
                        &&& before.len() == after.len() + 1
                        &&& before[0] == Ok::<(u64, u32), Seq<char>>(change)
                        &&& forall|i: int| 0 <= i < after.len() ==> after[i] == before[i + 1]
                    },
                    Some(Err(message)) => {
                        &&& before.len() == after.len() + 1
                        &&& before[0] == Err::<(u64, u32), Seq<char>>(message@)
                        &&& forall|i: int| 0 <= i < after.len() ==> after[i] == before[i + 1]
                    },
                    None => before.len() == 0 && after.len() == 0,
                }
            }),
            forall|nodes: Nodes| #[trigger] final(self).query(nodes) == old(self).query(nodes),
            ({
                let q = old(self).query(old(self).nodes());
                let s = step(q, old(self).pending());
                &&& handed_out(item) == s.item
                &&& final(self).pending() == s.pending
                &&& final(self).recorded() == old(self).recorded() + reads(q, s.visits)
                &&& old(self).reads() == reads(q, s.visits) + final(self).reads()
            }),
            holds(old(self).nodes(), final(self).recorded()),
            item is None ==> is_done(final(self).pending()) && final(self).reads().len() == 0,
            is_done(old(self).pending()) ==> {
                &&& item is None
                &&& final(self).pending() == old(self).pending()
                &&& final(self).recorded() == old(self).recorded()
            },
            forall|other: Nodes| #[trigger]
                holds(other, final(self).recorded()) ==> {
                    &&& holds(other, old(self).recorded())
                    &&& !(item matches Some(Err(_))) ==> yields(
                        old(self).remaining(other),
                        item,
                        final(self).remaining(other),
                    )
                },
    {
        let item = self.essence.next(&mut self.proof_recorder);
        proof {
            let nodes = old(self).nodes();
            assert forall|other: Nodes| #[trigger] holds(other, self.recorded()) implies {
                &&& holds(other, old(self).recorded())
                &&& !(item matches Some(Err(_))) ==> yields(
                    old(self).remaining(other),
                    item,
                    self.remaining(other),
                )
            } by {
                assert(self.proof_recorder.agrees(nodes, other));
            }
        }
        item
    }
}

/// Where recorded nodes lie under their hash, their data alone say what was recorded.
proof fn lemma_recorded(nodes: Nodes, recorded: Seq<(Seq<u8>, Seq<u8>)>, data: Seq<Seq<u8>>)
    requires
        nodes_by_hash(nodes),
        holds(nodes, recorded),
        data.to_multiset() == node_data(recorded).to_multiset(),
    ensures
        holds_nodes(nodes, data),
        forall|other: Nodes| #[trigger] holds_nodes(other, data) ==> holds(other, recorded),
{
    let all = node_data(recorded);
    data.to_multiset_ensures();
    all.to_multiset_ensures();
    assert forall|i: int| 0 <= i < data.len() implies nodes.contains_key(
        keccak_256(#[trigger] data[i]),
    ) && nodes[keccak_256(data[i])] == data[i] by {
        assert(data.contains(data[i]));
        assert(all.to_multiset().count(data[i]) > 0);
        assert(all.contains(data[i]));
        let j = choose|j: int| 0 <= j < all.len() && all[j] == data[i];
        assert(nodes.contains_key(recorded[j].0) && nodes[recorded[j].0] == recorded[j].1);
    }
    assert forall|other: Nodes| #[trigger] holds_nodes(other, data) implies holds(
        other,
        recorded,
    ) by {
        assert forall|i: int| 0 <= i < recorded.len() implies other.contains_key(
            (#[trigger] recorded[i]).0,
        ) && other[recorded[i].0] == recorded[i].1 by {
            assert(nodes.contains_key(recorded[i].0) && nodes[recorded[i].0] == recorded[i].1);
            assert(all[i] == recorded[i].1);
            assert(all.contains(all[i]));
            assert(data.to_multiset().count(all[i]) > 0);
            assert(data.contains(all[i]));
            let j = choose|j: int| 0 <= j < data.len() && data[j] == all[i];
            assert(other.contains_key(keccak_256(data[j])));
        }
    }
}

/// Returns proof of changes of given key at given blocks range.
/// `max` is the number of best known block.
pub fn key_changes_proof<S: Storage>(
    config: &Configuration,
    storage: &S,
    begin: u64,
    end: &AnchorBlockId,
    max: u64,
    key: &[u8],
) -> (result: Result<Vec<Vec<u8>>, String>)
    requires
        key@.len() <= u32::MAX,
    ensures
        ({
            let q = query_of(*storage, storage.nodes(), key@, begin, *end);
            match result {
                Ok(nodes) => {
                    &&& begin <= end.number <= max
                    &&& is_settled(*config, q)
                    &&& forall|i: int|
                        0 <= i < query_items(*config, q).len() ==> (#[trigger] query_items(
                            *config,
                            q,
                        )[i]) is Ok
                    &&& sorted(contents(nodes@))
                    &&& contents(nodes@).to_multiset() == node_data(
                        query_reads(*config, q),
                    ).to_multiset()
                    &&& proves(*config, q, contents(nodes@))
                },
                Err(message) => if begin > end.number || end.number > max {
                    message@ == invalid_range() && message@ == "invalid changes range"@
                } else {
                    let items = query_items(*config, q);
                    &&& collected(items) == Err::<Seq<(u64, u32)>, Seq<char>>(message@)
                    &&& exists|i: int|
                        {
                            &&& 0 <= i < items.len()
                            &&& #[trigger] items[i] == Err::<(u64, u32), Seq<char>>(message@)
                            &&& forall|j: int| 0 <= j < i ==> (#[trigger] items[j]) is Ok
                        }
                },
            }
        }),
{
    // we can't query any roots before root
    let known: u64 = if max < end.number {
        max
    } else {
        end.number
    };
    let surface = match surface_iterator(config, known, begin, end.number) {
        Ok(surface) => surface,
        Err(message) => {
            return Err(message);
        },
    };
    let ghost nodes = storage.nodes();
    let ghost q = query_of(*storage, nodes, key@, begin, *end);
    let ghost mut found: Seq<(u64, u32)> = Seq::empty();
    let mut iter = ProvingDrilldownIterator {
        essence: DrilldownIteratorEssence::new(key, storage, storage, begin, end, surface),
        proof_recorder: RecordingReader::new(),
    };
    proof {
        assert(iter.pending() =~= untouched(*config, q));
        lemma_untouched(*config, q);
        assert(iter.recorded() + iter.reads() =~= query_reads(*config, q));
        assert forall|other: Nodes| #[trigger] holds(other, iter.recorded()) implies query_items(
            *config,
            with_nodes(q, other),
        ) == found_items(found) + iter.remaining(other) by {
            assert(iter.query(other) == with_nodes(q, other));
            lemma_untouched(*config, with_nodes(q, other));
            assert(found_items(found) + iter.remaining(other) =~= query_items(
                *config,
                with_nodes(q, other),
            ));
        }
    }
    // iterate to collect proof
    loop
        invariant_except_break
            iter.wf(),
        invariant
            begin <= end.number <= max,
            nodes == storage.nodes(),
            iter.nodes() == nodes,
            q == query_of(*storage, nodes, key@, begin, *end),
            holds(nodes, iter.recorded()),
            iter.recorded() + iter.reads() == query_reads(*config, q),
            forall|other: Nodes| #[trigger]
                holds(other, iter.recorded()) ==> query_items(*config, with_nodes(q, other))
                    == found_items(found) + iter.remaining(other),
        ensures
            iter.reads().len() == 0,
            forall|other: Nodes| #[trigger]
                holds(other, iter.recorded()) ==> iter.remaining(other).len() == 0,
        decreases iter.remaining(nodes).len(),
    {
        let ghost before = iter;
        match iter.next() {
            Some(Ok(change)) => {
                let ghost earlier = found;
                proof {
                    found = found.push(change);
                    assert forall|other: Nodes| #[trigger]
                        holds(other, iter.recorded()) implies query_items(
                        *config,
                        with_nodes(q, other),
                    ) == found_items(found) + iter.remaining(other) by {
                        assert(holds(other, before.recorded()));
                        assert(found_items(earlier) + before.remaining(other) =~= found_items(found)
                            + iter.remaining(other));
                    }
                }
            },
            Some(Err(message)) => {
                proof {
                    assert(with_nodes(q, nodes) == q);
                    lemma_collected(found, before.remaining(nodes));
                    law_collected(query_items(*config, q));
                }
                return Err(message);
            },
            None => {
                break;
            },
        }
    }
    let ghost recorded = iter.recorded();
    let proof_nodes = iter.extract_proof();
    proof {
        storage.lemma_nodes_by_hash();
        assert(recorded =~= query_reads(*config, q));
        lemma_recorded(nodes, recorded, contents(proof_nodes@));
        assert(with_nodes(q, nodes) == q);
        assert(iter.remaining(nodes) =~= Seq::empty());
        lemma_collected(found, iter.remaining(nodes));
        law_collected(query_items(*config, q));
        assert forall|other: Nodes| #[trigger]
            holds_nodes(other, contents(proof_nodes@)) implies query_items(
            *config,
            with_nodes(q, other),
        ) == query_items(*config, q) by {
            assert(holds(other, recorded));
            assert(iter.remaining(other) =~= Seq::empty());
        }
        assert forall|other: Nodes| q.nodes.submap_of(other) implies collected(
            #[trigger] query_items(*config, with_nodes(q, other)),
        ) == collected(query_items(*config, q)) by {
            assert(holds_nodes(other, contents(proof_nodes@)));
        }
    }
    Ok(proof_nodes)
}

/// Check key changes proof and return changes of the key at given blocks range.
/// `max` is the number of best known block.
/// Changes are returned in descending order (i.e. last block comes first).
pub fn key_changes_proof_check<S: RootsStorage>(
    config: &Configuration,
    roots_storage: &S,
    proof_nodes: Vec<Vec<u8>>,
    begin: u64,
    end: &AnchorBlockId,
    max: u64,
    key: &[u8],
) -> (result: Result<Vec<(u64, u32)>, String>)
    requires
        key@.len() <= u32::MAX,
    ensures
        changes_view(result) == if begin > end.number || end.number > max {
            Err(invalid_range())
        } else {
            collected(
                query_items(
                    *config,
                    query_of(
                        *roots_storage,
                        nodes_of(contents(proof_nodes@)),
                        key@,
                        begin,
                        *end,
                    ),
                ),
            )
        },
        ({
            let items = query_items(
                *config,
                query_of(*roots_storage, nodes_of(contents(proof_nodes@)), key@, begin, *end),
            );
            match result {
                Ok(changes) => {
                    &&& begin <= end.number <= max
                    &&& changes@.len() == items.len()
                    &&& forall|i: int|
                        0 <= i < items.len() ==> #[trigger] items[i] == Ok::<(u64, u32), Seq<char>>(
                            changes@[i],
                        )
                },
                Err(message) => if begin > end.number || end.number > max {
                    message@ == "invalid changes range"@
                } else {
                    exists|i: int|
                        {
                            &&& 0 <= i < items.len()
                            &&& #[trigger] items[i] == Err::<(u64, u32), Seq<char>>(message@)
                            &&& forall|j: int| 0 <= j < i ==> (#[trigger] items[j]) is Ok
                        }
                },
            }
        }),
        result matches Ok(changes) ==> descends(found_items(changes@)),
        result is Ok ==> is_settled(
            *config,
            query_of(*roots_storage, nodes_of(contents(proof_nodes@)), key@, begin, *end),
        ),
{
    // we can't query any roots before root
    let known: u64 = if max < end.number {
        max
    } else {
        end.number
    };
    let ghost q = query_of(*roots_storage, nodes_of(contents(proof_nodes@)), key@, begin, *end);
    let proof_db = NodeDb::of(&proof_nodes);
    proof {
        law_collected(query_items(*config, q));
        lemma_nodes_of_by_hash(contents(proof_nodes@));
    }
    let proof_db = InMemoryStorage::with_db(proof_db);
    let surface = match surface_iterator(config, known, begin, end.number) {
        Ok(surface) => surface,
        Err(message) => {
            return Err(message);
        },
    };
    let essence = DrilldownIteratorEssence::new(
        key,
        roots_storage,
        &proof_db,
        begin,
        end,
        surface,
    );
    let iter = DrilldownIterator { essence };
    proof {
        assert(iter.pending() =~= untouched(*config, q));
        assert forall|nodes: Nodes| #[trigger] iter.remaining(nodes) == query_items(
            *config,
            with_nodes(q, nodes),
        ) by {
            assert(iter.query(nodes) == with_nodes(q, nodes));
            lemma_untouched(*config, with_nodes(q, nodes));
        }
        assert(with_nodes(q, q.nodes) == q);
        assert(iter.remaining(q.nodes) == query_items(*config, q));
    }
    let ghost all = iter;
    let result = iter.collect();
    proof {
        if result is Ok {
            lemma_query_descends(*config, q);
            lemma_collected_all(query_items(*config, q));
            assert forall|other: Nodes| q.nodes.submap_of(other) implies collected(
                #[trigger] query_items(*config, with_nodes(q, other)),
            ) == collected(query_items(*config, q)) by {
                assert(collected(all.remaining(other)) == changes_view(result));
            }
        }
    }
    result
}

} // verus!
