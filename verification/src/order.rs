//! The lexicographical order of byte strings.

use crate::nodes::contents;
use vstd::prelude::*;

verus! {

/// `a` stands before `b` in a dictionary, or is `b`.
pub open spec fn lexicographic(a: Seq<u8>, b: Seq<u8>) -> bool
    decreases a.len(),
{
    if a.len() == 0 {
        true
    } else if b.len() == 0 || a[0] > b[0] {
        false
    } else {
        a[0] < b[0] || lexicographic(a.drop_first(), b.drop_first())
    }
}

/// No string stands before one that precedes it.
pub open spec fn sorted(strings: Seq<Seq<u8>>) -> bool {
    forall|i: int, j: int|
        0 <= i < j < strings.len() ==> lexicographic(#[trigger] strings[i], #[trigger] strings[j])
}

/// At index `k` the strings `a` and `b` differ for the first time, and `a` has the smaller byte.
pub open spec fn is_less_at(a: Seq<u8>, b: Seq<u8>, k: int) -> bool {
    &&& 0 <= k < a.len()
    &&& k < b.len()
    &&& a[k] < b[k]
    &&& forall|i: int| 0 <= i < k ==> a[i] == b[i]
}

/// A string stands before another one in a dictionary if it has the smaller byte where the two
/// differ first, or if the other one begins with it.
pub proof fn law_lexicographic(a: Seq<u8>, b: Seq<u8>)
    ensures
        lexicographic(a, b) <==> (exists|k: int| #[trigger] is_less_at(a, b, k)) || (a.len()
            <= b.len() && forall|i: int| 0 <= i < a.len() ==> a[i] == b[i]),
    decreases a.len(),
{
    if a.len() > 0 && b.len() > 0 {
        let c = a.drop_first();
        let d = b.drop_first();
        law_lexicographic(c, d);
        if a[0] < b[0] {
            assert(is_less_at(a, b, 0));
        } else if a[0] == b[0] {
            if exists|k: int| #[trigger] is_less_at(c, d, k) {
                let k = choose|k: int| #[trigger] is_less_at(c, d, k);
                assert(is_less_at(c, d, k));
                assert forall|i: int| 0 <= i < k + 1 implies a[i] == b[i] by {
                    if i > 0 {
                        assert(c[i - 1] == d[i - 1]);
                    }
                }
                assert(is_less_at(a, b, k + 1));
            }
            if exists|k: int| #[trigger] is_less_at(a, b, k) {
                let k = choose|k: int| #[trigger] is_less_at(a, b, k);
                assert(is_less_at(a, b, k));
                assert(is_less_at(c, d, k - 1));
            }
            if c.len() <= d.len() && forall|i: int| 0 <= i < c.len() ==> c[i] == d[i] {
                assert forall|i: int| 0 <= i < a.len() implies a[i] == b[i] by {
                    if i > 0 {
                        assert(c[i - 1] == d[i - 1]);
                    }
                }
            }
        }
    }
}

/// In sorted strings each one is the same as a later one, or smaller where the two differ first, or
/// the later one begins with it.
pub proof fn law_sorted(strings: Seq<Seq<u8>>, i: int, j: int)
    requires
        sorted(strings),
        0 <= i < j < strings.len(),
    ensures
        (exists|k: int| #[trigger] is_less_at(strings[i], strings[j], k)) || (strings[i].len()
            <= strings[j].len() && forall|k: int|
            0 <= k < strings[i].len() ==> strings[i][k] == strings[j][k]),
{
    assert(lexicographic(strings[i], strings[j]));
    law_lexicographic(strings[i], strings[j]);
}

proof fn lemma_total(a: Seq<u8>, b: Seq<u8>)
    ensures
        lexicographic(a, b) || lexicographic(b, a),
    decreases a.len(),
{
    if a.len() > 0 && b.len() > 0 {
        lemma_total(a.drop_first(), b.drop_first());
    }
}

proof fn lemma_transitive(a: Seq<u8>, b: Seq<u8>, c: Seq<u8>)
    requires
        lexicographic(a, b),
        lexicographic(b, c),
    ensures
        lexicographic(a, c),
    decreases a.len(),
{
    if a.len() > 0 && a[0] == b[0] && b[0] == c[0] {
        lemma_transitive(a.drop_first(), b.drop_first(), c.drop_first());
    }
}

fn is_lexicographic(a: &Vec<u8>, b: &Vec<u8>) -> (before: bool)
    ensures
        before == lexicographic(a@, b@),
{
    let mut i: usize = 0;
    proof {
        assert(a@.skip(0) =~= a@);
        assert(b@.skip(0) =~= b@);
    }
    while i < a.len() && i < b.len()
        invariant
            i <= a@.len(),
            i <= b@.len(),
            lexicographic(a@, b@) == lexicographic(a@.skip(i as int), b@.skip(i as int)),
        decreases a@.len() - i,
    {
        proof {
            assert(a@.skip(i as int).drop_first() =~= a@.skip(i + 1));
            assert(b@.skip(i as int).drop_first() =~= b@.skip(i + 1));
        }
        if a[i] < b[i] {
            return true;
        }
        if b[i] < a[i] {
            return false;
        }
        i += 1;
    }
    i == a.len()
}

/// Inserts a string behind those that may precede it.
fn insert_sorted(strings: &mut Vec<Vec<u8>>, string: Vec<u8>)
    requires
        sorted(contents(old(strings)@)),
    ensures
        sorted(contents(final(strings)@)),
        contents(final(strings)@).to_multiset() == contents(old(strings)@).to_multiset().insert(
            string@,
        ),
{
    let mut i: usize = 0;
    while i < strings.len() && is_lexicographic(&strings[i], &string)
        invariant
            i <= strings@.len(),
            *strings == *old(strings),
            forall|j: int| 0 <= j < i ==> lexicographic((#[trigger] strings@[j])@, string@),
        decreases strings@.len() - i,
    {
        i += 1;
    }
    let ghost before = contents(strings@);
    let ghost item = string@;
    proof {
        assert forall|j: int| i <= j < before.len() implies lexicographic(
            item,
            #[trigger] before[j],
        ) by {
            lemma_total(item, before[i as int]);
            if i < j {
                lemma_transitive(item, before[i as int], before[j]);
            }
        }
    }
    strings.insert(i, string);
    proof {
        let after = contents(strings@);
        assert(after =~= before.insert(i as int, item));
        assert forall|j: int, k: int| 0 <= j < k < after.len() implies lexicographic(
            #[trigger] after[j],
            #[trigger] after[k],
        ) by {
            if j < i && k == i {
                assert(before[j] == old(strings)@[j]@);
            }
        }
        after.to_multiset_ensures();
        assert(after.remove(i as int) =~= before);
        assert(after[i as int] == item);
        assert(after.contains(item));
        assert(after.to_multiset() =~= before.to_multiset().insert(item));
    }
}

/// Sorts strings in lexicographical order.
pub fn sort_strings(strings: Vec<Vec<u8>>) -> (result: Vec<Vec<u8>>)
    ensures
        sorted(contents(result@)),
        contents(result@).to_multiset() == contents(strings@).to_multiset(),
{
    let mut strings = strings;
    let mut result: Vec<Vec<u8>> = Vec::new();
    let ghost all = contents(strings@);
    proof {
        contents(result@).to_multiset_ensures();
        assert(all.to_multiset().add(contents(result@).to_multiset()) =~= all.to_multiset());
    }
    loop
        invariant
            sorted(contents(result@)),
            contents(strings@).to_multiset().add(contents(result@).to_multiset())
                == all.to_multiset(),
        ensures
            strings@.len() == 0,
        decreases strings@.len(),
    {
        let ghost full = contents(strings@);
        let string = match strings.pop() {
            Some(string) => string,
            None => {
                break;
            },
        };
        let ghost rest = contents(strings@);
        let ghost before = contents(result@).to_multiset();
        proof {
            assert(full =~= rest.push(string@));
            rest.to_multiset_ensures();
            assert(rest.push(string@).to_multiset() =~= rest.to_multiset().insert(string@));
        }
        insert_sorted(&mut result, string);
        proof {
            assert(rest.to_multiset().add(before.insert(string@)) =~= rest.to_multiset().insert(
                string@,
            ).add(before));
        }
    }
    proof {
        contents(strings@).to_multiset_ensures();
        assert(contents(strings@).to_multiset().add(contents(result@).to_multiset())
            =~= contents(result@).to_multiset());
    }
    result
}

} // verus!
