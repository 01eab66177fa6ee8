//! Which digest lists which block.

use crate::arith::{
    lemma_is_multiple, lemma_multiple_of_multiple, lemma_multiples_apart, lemma_multiples_combine,
    lemma_round, lemma_round_unique, round_up,
};
use crate::surface::{
    digest_step, has_level, lemma_lower_level_exists, lemma_step_divides, lemma_step_next,
    lemma_step_positive,
};
use crate::types::Configuration;
use vstd::prelude::*;

verus! {

/// The highest level from `level` on of which `block` is a digest.
pub open spec fn level_from(config: Configuration, block: int, level: nat) -> nat
    decreases config.digest_levels - level,
{
    if has_level(config, level + 1) && block % digest_step(config, level + 1) == 0 {
        level_from(config, block, level + 1)
    } else {
        level
    }
}

/// The highest level of which `block` is a digest.
pub open spec fn own_level(config: Configuration, block: int) -> nat {
    level_from(config, block, 0)
}

/// The number of blocks that `block` is the digest of, itself included.
pub open spec fn own_step(config: Configuration, block: int) -> int {
    digest_step(config, own_level(config, block))
}

/// `digest` is the digest of the next higher level that spans `block`: the one that lists it.
pub open spec fn is_parent(config: Configuration, digest: int, block: int) -> bool {
    let above = own_level(config, block) + 1;
    has_level(config, above) && digest == round_up(block, digest_step(config, above))
}

proof fn lemma_level_from(config: Configuration, block: int, level: nat)
    requires
        level == 0 || (has_level(config, level) && block % digest_step(config, level) == 0),
    ensures
        ({
            let l = level_from(config, block, level);
            &&& level <= l
            &&& l == 0 || has_level(config, l)
            &&& digest_step(config, l) >= 1
            &&& block % digest_step(config, l) == 0
            &&& !(has_level(config, l + 1) && block % digest_step(config, l + 1) == 0)
        }),
    decreases config.digest_levels - level,
{
    if has_level(config, level + 1) && block % digest_step(config, level + 1) == 0 {
        lemma_level_from(config, block, level + 1);
    } else {
        lemma_step_positive(config, level);
        if level == 0 {
            lemma_is_multiple(block, 1);
        }
    }
}

/// A block is a digest of its own level and of no level above.
pub proof fn lemma_own_level(config: Configuration, block: int)
    ensures
        ({
            let l = own_level(config, block);
            &&& l == 0 || has_level(config, l)
            &&& digest_step(config, l) >= 1
            &&& block % digest_step(config, l) == 0
            &&& forall|j: nat|
                has_level(config, j) && #[trigger] digest_step(config, j) != 0 && block
                    % digest_step(config, j) == 0 ==> j <= l
        }),
{
    let l = own_level(config, block);
    lemma_level_from(config, block, 0);
    assert forall|j: nat|
        has_level(config, j) && #[trigger] digest_step(config, j) != 0 && block % digest_step(
            config,
            j,
        ) == 0 implies j <= l by {
        if j > l {
            lemma_step_divides(config, l + 1, j);
            lemma_lower_level_exists(config, l + 1, j);
            lemma_multiple_of_multiple(block, digest_step(config, j), digest_step(config, l + 1));
        }
    }
}

/// A level is the own level of a block if the block is a digest of it and not of the next one.
proof fn lemma_own_level_is(config: Configuration, block: int, level: nat)
    requires
        level == 0 || (has_level(config, level) && block % digest_step(config, level) == 0),
        !(has_level(config, level + 1) && block % digest_step(config, level + 1) == 0),
    ensures
        own_level(config, block) == level,
{
    lemma_own_level(config, block);
    let l = own_level(config, block);
    if level > 0 {
        lemma_step_positive(config, level);
    }
    if l > level {
        lemma_step_divides(config, level + 1, l);
        lemma_lower_level_exists(config, level + 1, l);
        lemma_multiple_of_multiple(block, digest_step(config, l), digest_step(config, level + 1));
    }
}

/// Where a digest of one level ends strictly inside one of the next, the interval is at least two.
proof fn lemma_steps_grow(config: Configuration, level: nat, x: int)
    requires
        has_level(config, level + 1),
        x % digest_step(config, level) == 0,
        x % digest_step(config, level + 1) != 0,
    ensures
        config.digest_interval >= 2,
{
    lemma_step_next(config, level);
    let s = digest_step(config, level);
    if config.digest_interval == 1 {
        assert(s * 1 == s);
    }
}

/// With an interval of at least two, spans grow from level to level.
proof fn lemma_steps_increase(config: Configuration, low: nat, high: nat)
    requires
        low < high,
        config.digest_interval >= 2,
    ensures
        1 <= digest_step(config, low) < digest_step(config, high),
{
    lemma_step_divides(config, low, low + 1);
    lemma_step_divides(config, low + 1, high);
    lemma_step_next(config, low);
    let s = digest_step(config, low);
    let k = config.digest_interval as int;
    assert(s < s * k) by (nonlinear_arith)
        requires
            s >= 1,
            k >= 2,
    ;
}

/// What a parent is: a later digest of a higher level whose span reaches over the block.
pub proof fn lemma_parent(config: Configuration, digest: int, block: int)
    requires
        is_parent(config, digest, block),
    ensures
        ({
            let level = own_level(config, block);
            let big = digest_step(config, level + 1);
            &&& block < digest
            &&& level < own_level(config, digest)
            &&& digest % big == 0
            &&& digest - big < block
            &&& 1 <= own_step(config, block) < big
            &&& digest - own_step(config, digest) < block
            &&& digest - big <= block - own_step(config, block)
            &&& config.digest_interval >= 2
        }),
{
    let level = own_level(config, block);
    let step = digest_step(config, level);
    let big = digest_step(config, level + 1);
    lemma_own_level(config, block);
    lemma_own_level(config, digest);
    lemma_step_divides(config, level, level + 1);
    lemma_round(block, big);
    if block == digest {
        assert(block % big == 0);
        assert(big != 0);
        assert(false);
    }
    assert(block % big != 0) by {
        if block % big == 0 {
            assert(big != 0);
        }
    }
    lemma_steps_grow(config, level, block);
    lemma_steps_increase(config, level, level + 1);
    assert(big != 0);
    lemma_step_divides(config, level + 1, own_level(config, digest));
    lemma_multiple_of_multiple(digest - big, big, step);
    lemma_multiples_apart(digest - big, block, step);
}

/// The block before a digest is listed by it.
pub proof fn lemma_first_listed(config: Configuration, digest: int)
    requires
        own_step(config, digest) > 1,
    ensures
        is_parent(config, digest, digest - 1),
        own_level(config, digest - 1) == 0,
{
    lemma_own_level(config, digest);
    let level = own_level(config, digest);
    lemma_step_positive(config, 0);
    lemma_step_next(config, 0);
    lemma_lower_level_exists(config, 1, level);
    lemma_step_divides(config, 1, level);
    let interval = digest_step(config, 1);
    lemma_multiple_of_multiple(digest, digest_step(config, level), interval);
    if interval == 1 {
        assert(config.digest_interval == 1);
        vstd::arithmetic::power::lemma1_pow(level);
    }
    if (digest - 1) % interval == 0 {
        lemma_multiples_apart(digest - 1, digest, interval);
    }
    lemma_own_level_is(config, digest - 1, 0);
    lemma_is_multiple(1, interval);
    lemma_multiples_combine(digest, interval, interval);
    lemma_round_unique(digest - 1, interval, digest - interval);
}

/// Below a block that a digest lists, the next one that it lists is where the span of the first
/// ends, unless that is where the span of the digest ends.
pub proof fn lemma_next_listed(config: Configuration, digest: int, block: int)
    requires
        is_parent(config, digest, block),
    ensures
        ({
            let next = block - own_step(config, block);
            let low = digest - own_step(config, digest);
            &&& low <= next
            &&& low < next ==> is_parent(config, digest, next)
        }),
{
    lemma_parent(config, digest, block);
    lemma_own_level(config, block);
    lemma_own_level(config, digest);
    let level = own_level(config, block);
    let top = own_level(config, digest);
    let step = digest_step(config, level);
    let big = digest_step(config, level + 1);
    let next = block - step;
    lemma_step_divides(config, level, level + 1);
    lemma_step_divides(config, level + 1, top);
    lemma_is_multiple(1, step);
    lemma_is_multiple(1, big);
    lemma_multiples_combine(block, step, step);
    lemma_multiples_combine(digest, big, big);
    if next == digest - big {
        if level + 1 < top {
            let huge = digest_step(config, level + 2);
            lemma_lower_level_exists(config, level + 2, top);
            lemma_step_divides(config, level + 1, level + 2);
            lemma_step_divides(config, level + 2, top);
            lemma_steps_increase(config, level + 1, level + 2);
            lemma_multiple_of_multiple(digest, digest_step(config, top), huge);
            if next % huge == 0 {
                lemma_multiples_apart(next, digest, huge);
            }
            lemma_own_level_is(config, next, level + 1);
            lemma_is_multiple(1, huge);
            lemma_multiples_combine(digest, huge, huge);
            lemma_round_unique(next, huge, digest - huge);
        }
    } else {
        if next % big == 0 {
            lemma_multiples_apart(digest - big, next, big);
        }
        lemma_own_level_is(config, next, level);
        lemma_round_unique(next, big, digest - big);
    }
}

} // verus!
