//! The blocks that are to be looked at, the last one first.

use vstd::prelude::*;

verus! {

/// The blocks of a query that are to be looked at, with the level at which each is taken.
pub type Levels = Map<u64, u32>;

/// `blocks` and `block`, which is taken at `level` at least.
pub open spec fn raised(blocks: Levels, block: u64, level: u32) -> Levels {
    if blocks.contains_key(block) && blocks[block] >= level {
        blocks
    } else {
        blocks.insert(block, level)
    }
}

spec fn stands_at(list: Seq<(u64, u32)>, i: int, block: u64) -> bool {
    0 <= i < list.len() && list[i].0 == block
}

spec fn levels_of(list: Seq<(u64, u32)>) -> Levels {
    Map::new(
        |block: u64| exists|i: int| stands_at(list, i, block),
        |block: u64| list[choose|i: int| stands_at(list, i, block)].1,
    )
}

spec fn ascends(list: Seq<(u64, u32)>) -> bool {
    forall|i: int, j: int| 0 <= i < j < list.len() ==> list[i].0 < list[j].0
}

/// In an ascending list every entry is found.
proof fn lemma_entry(list: Seq<(u64, u32)>, i: int)
    requires
        ascends(list),
        0 <= i < list.len(),
    ensures
        levels_of(list).contains_key(list[i].0),
        levels_of(list)[list[i].0] == list[i].1,
{
    assert(stands_at(list, i, list[i].0));
    let j = choose|j: int| stands_at(list, j, list[i].0);
    assert(stands_at(list, j, list[i].0));
    if j < i {
        assert(list[j].0 < list[i].0);
    } else if i < j {
        assert(list[i].0 < list[j].0);
    }
}

/// Blocks that are to be looked at, each with its level. A block is in the queue once.
pub struct BlockQueue {
    /// In ascending order of the blocks.
    list: Vec<(u64, u32)>,
}

impl View for BlockQueue {
    type V = Levels;

    closed spec fn view(&self) -> Levels {
        levels_of(self.list@)
    }
}

impl BlockQueue {
    pub closed spec fn wf(&self) -> bool {
        ascends(self.list@)
    }

    pub fn new() -> (queue: BlockQueue)
        ensures
            queue.wf(),
            queue@ == Levels::empty(),
    {
        let queue = BlockQueue { list: Vec::new() };
        assert(queue@ =~= Levels::empty());
        queue
    }

    /// Returns the last of the blocks.
    pub fn last(&self) -> (last: Option<u64>)
        requires
            self.wf(),
        ensures
            match last {
                Some(last) => {
                    &&& self@.contains_key(last)
                    &&& forall|block: u64| #[trigger] self@.contains_key(block) ==> block <= last
                },
                None => self@ == Levels::empty(),
            },
    {
        let n: usize = self.list.len();
        if n == 0 {
            assert(self@ =~= Levels::empty());
            return None;
        }
        proof {
            lemma_entry(self.list@, n - 1);
            assert forall|block: u64| #[trigger] self@.contains_key(block) implies block
                <= self.list@[n - 1].0 by {
                let i = choose|i: int| stands_at(self.list@, i, block);
                assert(stands_at(self.list@, i, block));
                if i < n - 1 {
                    assert(self.list@[i].0 < self.list@[n - 1].0);
                }
            }
        }
        Some(self.list[n - 1].0)
    }

    /// Takes the last of the blocks out.
    pub fn pop(&mut self) -> (entry: Option<(u64, u32)>)
        requires
            old(self).wf(),
        ensures
            final(self).wf(),
            match entry {
                Some((last, level)) => {
                    &&& old(self)@.contains_key(last)
                    &&& old(self)@[last] == level
                    &&& forall|block: u64| #[trigger]
                        old(self)@.contains_key(block) ==> block <= last
                    &&& final(self)@ == old(self)@.remove(last)
                },
                None => old(self)@ == Levels::empty() && final(self)@ == old(self)@,
            },
    {
        let last = self.last();
        let ghost before = self.list@;
        let entry = self.list.pop();
        proof {
            let after = self.list@;
            if let Some((block, level)) = entry {
                let n = before.len();
                lemma_entry(before, n - 1);
                assert(last == Some(block)) by {
                    let i = choose|i: int| stands_at(before, i, last->0);
                    assert(stands_at(before, i, last->0));
                    if i < n - 1 {
                        assert(before[i].0 < before[n - 1].0);
                    }
                }
                assert forall|b: u64| levels_of(after).contains_key(b) <==> levels_of(
                    before,
                ).remove(block).contains_key(b) by {
                    if levels_of(after).contains_key(b) {
                        let i = choose|i: int| stands_at(after, i, b);
                        assert(stands_at(before, i, b));
                        assert(before[i].0 < before[n - 1].0);
                    }
                    if levels_of(before).remove(block).contains_key(b) {
                        let i = choose|i: int| stands_at(before, i, b);
                        assert(stands_at(after, i, b));
                    }
                }
                assert forall|b: u64| levels_of(after).contains_key(b) implies levels_of(after)[b]
                    == levels_of(before).remove(block)[b] by {
                    let i = choose|i: int| stands_at(after, i, b);
                    lemma_entry(after, i);
                    lemma_entry(before, i);
                }
                assert(levels_of(after) =~= levels_of(before).remove(block));
            }
        }
        entry
    }

    /// Puts a block in. If it is there already, it keeps the higher level.
    pub fn raise(&mut self, block: u64, level: u32)
        requires
            old(self).wf(),
        ensures
            final(self).wf(),
            final(self)@ == raised(old(self)@, block, level),
            final(self)@.contains_key(block),
            final(self)@[block] == if old(self)@.contains_key(block) && old(self)@[block] > level {
                old(self)@[block]
            } else {
                level
            },
            forall|other: u64|
                other != block ==> (#[trigger] final(self)@.contains_key(other) <==> old(
                    self,
                )@.contains_key(other)),
            forall|other: u64|
                other != block && old(self)@.contains_key(other) ==> #[trigger] final(self)@[other]
                    == old(self)@[other],
    {
        let ghost before = self.list@;
        let mut i: usize = self.list.len();
        while i > 0 && self.list[i - 1].0 > block
            invariant
                i <= self.list@.len(),
                self.list@ == before,
                forall|j: int| i <= j < before.len() ==> (#[trigger] before[j]).0 > block,
            decreases i,
        {
            i -= 1;
        }
        if i > 0 && self.list[i - 1].0 == block {
            proof {
                lemma_entry(before, i - 1);
            }
            if self.list[i - 1].1 < level {
                self.list.set(i - 1, (block, level));
                proof {
                    let after = self.list@;
                    assert forall|b: u64| levels_of(after).contains_key(b) <==> levels_of(
                        before,
                    ).contains_key(b) by {
                        if levels_of(after).contains_key(b) {
                            let j = choose|j: int| stands_at(after, j, b);
                            assert(stands_at(before, j, b));
                        }
                        if levels_of(before).contains_key(b) {
                            let j = choose|j: int| stands_at(before, j, b);
                            assert(stands_at(after, j, b));
                        }
                    }
                    assert forall|b: u64| levels_of(after).contains_key(b) implies levels_of(
                        after,
                    )[b] == levels_of(before).insert(block, level)[b] by {
                        let j = choose|j: int| stands_at(after, j, b);
                        lemma_entry(after, j);
                        lemma_entry(before, j);
                        if j != i - 1 {
                            if j < i - 1 {
                                assert(before[j].0 < before[i - 1].0);
                            } else {
                                assert(before[i - 1].0 < before[j].0);
                            }
                        }
                    }
                    assert(levels_of(after) =~= levels_of(before).insert(block, level));
                }
            }
        } else {
            proof {
                assert forall|j: int| 0 <= j < i implies (#[trigger] before[j]).0 < block by {
                    if j < i - 1 {
                        assert(before[j].0 < before[i - 1].0);
                    }
                }
            }
            self.list.insert(i, (block, level));
            proof {
                let after = self.list@;
                assert(after == before.insert(i as int, (block, level)));
                assert forall|j: int, k: int| 0 <= j < k < after.len() implies after[j].0
                    < after[k].0 by {
                    let x = if j < i {
                        j
                    } else {
                        j - 1
                    };
                    let y = if k < i {
                        k
                    } else {
                        k - 1
                    };
                    if j != i && k != i {
                        assert(before[x].0 < before[y].0);
                    }
                }
                assert(!levels_of(before).contains_key(block)) by {
                    if levels_of(before).contains_key(block) {
                        let j = choose|j: int| stands_at(before, j, block);
                        assert(before[j].0 == block);
                    }
                }
                assert forall|b: u64| levels_of(after).contains_key(b) <==> levels_of(
                    before,
                ).contains_key(b) || b == block by {
                    if levels_of(after).contains_key(b) {
                        let j = choose|j: int| stands_at(after, j, b);
                        if j < i {
                            assert(stands_at(before, j, b));
                        } else if j > i {
                            assert(stands_at(before, j - 1, b));
                        }
                    }
                    if levels_of(before).contains_key(b) {
                        let j = choose|j: int| stands_at(before, j, b);
                        if j < i {
                            assert(stands_at(after, j, b));
                        } else {
                            assert(stands_at(after, j + 1, b));
                        }
                    }
                    if b == block {
                        assert(stands_at(after, i as int, b));
                    }
                }
                assert forall|b: u64| levels_of(after).contains_key(b) implies levels_of(after)[b]
                    == levels_of(before).insert(block, level)[b] by {
                    let j = choose|j: int| stands_at(after, j, b);
                    lemma_entry(after, j);
                    if j < i {
                        lemma_entry(before, j);
                    } else if j > i {
                        lemma_entry(before, j - 1);
                    }
                }
                assert(levels_of(after) =~= levels_of(before).insert(block, level));
            }
        }
    }
}

} // verus!
