//! The surface of a query: the top-level digests that together span a range of blocks.

use crate::arith::{
    lemma_is_multiple, lemma_multiple_of_multiple, lemma_multiples_apart, lemma_multiples_combine,
    lemma_round, lemma_round_coarser, lemma_round_multiple, lemma_round_unique, round_below,
    round_up,
};
use crate::laws::{is_topmost, law_topmost_digest};
use crate::types::Configuration;
use vstd::arithmetic::power::{lemma_pow_positive, pow};
use vstd::prelude::*;

verus! {

broadcast use vstd::string::to_string_from_display_ensures_for_str;

/// The number of blocks that a digest of `level` spans.
pub open spec fn digest_step(config: Configuration, level: nat) -> int {
    pow(config.digest_interval as int, level)
}

/// The configuration has digests of `level`, and their span fits the type of `digest_step`.
pub open spec fn has_level(config: Configuration, level: nat) -> bool {
    &&& 1 <= level <= config.digest_levels
    &&& config.digest_interval > 0
    &&& digest_step(config, level) <= u32::MAX
}

/// The digest of `level` that spans block `n` exists and is already built when `max` is the best
/// block.
pub open spec fn is_built(config: Configuration, max: int, n: int, level: nat) -> bool {
    has_level(config, level) && round_up(n, digest_step(config, level)) <= max
}

/// The first level from `level` on whose digest around `n` reaches down to `begin`, or the last
/// one that is built if none does.
pub open spec fn climb(config: Configuration, max: int, begin: int, n: int, level: nat) -> nat
    decreases config.digest_levels - level,
{
    if level > 0 && round_below(n, digest_step(config, level)) <= begin {
        level
    } else if is_built(config, max, n, level + 1) {
        climb(config, max, begin, n, level + 1)
    } else {
        level
    }
}

/// The level of the digest with which the range from `begin` to `n` is entered at its upper end.
pub open spec fn top_level(config: Configuration, max: int, begin: int, n: int) -> nat {
    if n == begin {
        0
    } else {
        climb(config, max, begin, n, 0)
    }
}

/// The span of that digest.
pub open spec fn top_step(config: Configuration, max: int, begin: int, n: int) -> int {
    digest_step(config, top_level(config, max, begin, n))
}

/// The block of that digest.
pub open spec fn top_block(config: Configuration, max: int, begin: int, n: int) -> int {
    round_up(n, top_step(config, max, begin, n))
}

/// Down to which block the digests keep the level that the topmost one has.
pub open spec fn top_floor(config: Configuration, max: int, begin: int, n: int) -> int {
    let level = top_level(config, max, begin, n);
    let own = if level == 0 {
        begin
    } else {
        round_below(n, digest_step(config, level))
    };
    let above = round_below(n, digest_step(config, level + 1));
    let reaches_begin = n == begin || (level > 0 && own <= begin);
    if !reaches_begin && has_level(config, level + 1) && begin < above {
        above
    } else {
        own
    }
}

/// The top-level digests, as pairs of a block and a level, that span the blocks from `begin` to
/// `n`, the last block first. The genesis block has no changes and is left out below other blocks.
pub open spec fn surface_points(config: Configuration, max: int, begin: int, n: int) -> Seq<
    (u64, u32),
>
    decreases n,
{
    let level = top_level(config, max, begin, n);
    let below = round_below(n, digest_step(config, level));
    let point = (top_block(config, max, begin, n) as u64, level as u32);
    if 0 < below < n && begin <= below {
        seq![point] + surface_points(config, max, begin, below)
    } else {
        seq![point]
    }
}

/// What follows a surface point that spans the blocks above `below`.
pub open spec fn points_below(config: Configuration, max: int, begin: int, below: int) -> Seq<
    (u64, u32),
> {
    if 0 < below && begin <= below {
        surface_points(config, max, begin, below)
    } else {
        Seq::empty()
    }
}

/// The message for a range that is upside down or reaches beyond the best known block.
pub open spec fn invalid_range() -> Seq<char> {
    "invalid changes range"@
}

pub proof fn lemma_step_positive(config: Configuration, level: nat)
    requires
        level == 0 || config.digest_interval > 0,
    ensures
        digest_step(config, level) >= 1,
        digest_step(config, 0) == 1,
{
    reveal(pow);
    if level > 0 {
        lemma_pow_positive(config.digest_interval as int, level);
    }
}

pub proof fn lemma_step_next(config: Configuration, level: nat)
    ensures
        digest_step(config, level + 1) == digest_step(config, level) * config.digest_interval,
{
    reveal(pow);
    assert(digest_step(config, level) * config.digest_interval == config.digest_interval
        * digest_step(config, level)) by (nonlinear_arith);
}

/// The spans of higher levels are multiples of those of lower levels.
pub proof fn lemma_step_divides(config: Configuration, low: nat, high: nat)
    requires
        low <= high,
        config.digest_interval > 0,
    ensures
        digest_step(config, low) >= 1,
        digest_step(config, high) >= 1,
        digest_step(config, high) % digest_step(config, low) == 0,
        digest_step(config, low) <= digest_step(config, high),
    decreases high - low,
{
    lemma_step_positive(config, low);
    lemma_step_positive(config, high);
    let step = digest_step(config, low);
    if low == high {
        lemma_is_multiple(1, step);
    } else {
        let mid = (high - 1) as nat;
        lemma_step_divides(config, low, mid);
        lemma_step_next(config, mid);
        let m = digest_step(config, mid);
        let k = config.digest_interval as int;
        assert((m * k) % m == 0) by {
            lemma_is_multiple(k, m);
            assert(k * m == m * k) by (nonlinear_arith);
        }
        lemma_multiple_of_multiple(m * k, m, step);
        assert(m <= m * k) by (nonlinear_arith)
            requires
                m >= 1,
                k >= 1,
        ;
    }
}

pub proof fn lemma_lower_level_exists(config: Configuration, low: nat, high: nat)
    requires
        1 <= low <= high,
        has_level(config, high),
    ensures
        has_level(config, low),
{
    lemma_step_divides(config, low, high);
}

/// A level that is reached by climbing exists, and its digest is built.
pub proof fn lemma_climb(config: Configuration, max: int, begin: int, n: int, level: nat)
    requires
        begin < n <= max,
        level == 0 || is_built(config, max, n, level),
    ensures
        ({
            let l = climb(config, max, begin, n, level);
            let step = digest_step(config, l);
            &&& level <= l
            &&& l == 0 || is_built(config, max, n, l)
            &&& step >= 1
            &&& round_up(n, step) <= max
            &&& (l > 0 && round_below(n, step) <= begin) || !is_built(config, max, n, l + 1)
            &&& forall|j: nat|
                1 <= j < l && level <= j ==> #[trigger] round_below(n, digest_step(config, j))
                    > begin
        }),
    decreases config.digest_levels - level,
{
    lemma_step_positive(config, level);
    if level > 0 && round_below(n, digest_step(config, level)) <= begin {
    } else if is_built(config, max, n, level + 1) {
        lemma_climb(config, max, begin, n, level + 1);
    } else if level == 0 {
        lemma_round_multiple(n, 1);
    }
}

/// What `top_level` gives.
pub proof fn lemma_top(config: Configuration, max: int, begin: int, n: int)
    requires
        begin <= n <= max,
    ensures
        ({
            let l = top_level(config, max, begin, n);
            let step = digest_step(config, l);
            &&& l == 0 || (is_built(config, max, n, l) && begin < n)
            &&& step >= 1
            &&& l <= config.digest_levels
            &&& step <= u32::MAX
            &&& n <= round_up(n, step) <= max
            &&& round_below(n, step) < n
            &&& round_up(n, step) % step == 0
            &&& round_below(n, step) % step == 0
        }),
{
    lemma_step_positive(config, 0);
    lemma_round_multiple(n, 1);
    if begin < n {
        lemma_climb(config, max, begin, n, 0);
    }
    let step = digest_step(config, top_level(config, max, begin, n));
    lemma_round(n, step);
}

/// `level` is the one that climbing around `n` ends at, if its digest ends in `n`, no lower level
/// reaches down to `begin`, and it does or the next one is not built.
proof fn lemma_climb_to(
    config: Configuration,
    max: int,
    begin: int,
    n: int,
    from: nat,
    level: nat,
)
    requires
        begin < n <= max,
        from <= level,
        level > 0 ==> has_level(config, level) && n % digest_step(config, level) == 0,
        level > 0 ==> begin <= n - digest_step(config, level),
        level > 0 ==> config.digest_interval > 1,
        !is_built(config, max, n, level + 1),
    ensures
        climb(config, max, begin, n, from) == level,
    decreases level - from,
{
    if from < level {
        let next = from + 1;
        lemma_step_divides(config, from, next);
        lemma_step_divides(config, next, level);
        lemma_multiple_of_multiple(n, digest_step(config, level), digest_step(config, next));
        lemma_round_multiple(n, digest_step(config, next));
        lemma_lower_level_exists(config, next, level);
        lemma_multiple_of_multiple(n, digest_step(config, next), digest_step(config, from));
        lemma_round_multiple(n, digest_step(config, from));
        lemma_step_next(config, from);
        let s = digest_step(config, from);
        let k = config.digest_interval as int;
        assert(s < s * k) by (nonlinear_arith)
            requires
                s >= 1,
                k >= 2,
        ;
        lemma_climb_to(config, max, begin, n, next, level);
    }
}

/// The digests that follow a topmost one keep its level as long as they end above its floor.
pub open spec fn keeps_level(
    config: Configuration,
    max: int,
    begin: int,
    block: int,
    floor: int,
    level: nat,
) -> bool {
    let step = digest_step(config, level);
    block - step > floor ==> {
        &&& begin <= floor
        &&& block % step == 0
        &&& floor % step == 0
        &&& level > 0 ==> has_level(config, level + 1)
        &&& forall|m: int| floor < m <= block ==> !#[trigger] is_built(config, max, m, level + 1)
    }
}

proof fn lemma_top_keeps_level(config: Configuration, max: int, begin: int, n: int)
    requires
        begin <= n <= max,
    ensures
        keeps_level(
            config,
            max,
            begin,
            top_block(config, max, begin, n),
            top_floor(config, max, begin, n),
            top_level(config, max, begin, n),
        ),
{
    let level = top_level(config, max, begin, n);
    let step = digest_step(config, level);
    let block = round_up(n, step);
    let floor = top_floor(config, max, begin, n);
    lemma_top(config, max, begin, n);
    if block - step > floor {
        if n == begin {
            lemma_step_positive(config, 0);
            lemma_round_multiple(n, 1);
        } else {
            lemma_climb(config, max, begin, n, 0);
            if has_level(config, level + 1) {
                let big = digest_step(config, level + 1);
                lemma_step_divides(config, level, level + 1);
                lemma_round(n, big);
                lemma_round_coarser(n, step, big);
                let above = round_below(n, big);
                lemma_multiple_of_multiple(above, big, step);
                assert forall|m: int| floor < m <= block implies !#[trigger] is_built(
                    config,
                    max,
                    m,
                    level + 1,
                ) by {
                    lemma_round_unique(m, big, above);
                }
                lemma_step_positive(config, 0);
            } else {
                lemma_step_positive(config, 0);
            }
            if level == 0 {
                lemma_is_multiple(floor, 1);
                lemma_is_multiple(block, 1);
            }
        }
    }
}

/// One step down at the same level is what starting anew below the point gives.
proof fn lemma_keep(
    config: Configuration,
    max: int,
    begin: int,
    block: int,
    floor: int,
    level: nat,
)
    requires
        begin >= 0,
        block <= max,
        level > 0 ==> has_level(config, level),
        keeps_level(config, max, begin, block, floor, level),
        block - digest_step(config, level) > floor,
    ensures
        ({
            let below = block - digest_step(config, level);
            &&& begin < below
            &&& top_level(config, max, begin, below) == level
            &&& top_block(config, max, begin, below) == below
            &&& keeps_level(config, max, begin, below, floor, level)
        }),
{
    let step = digest_step(config, level);
    let below = block - step;
    lemma_step_positive(config, level);
    lemma_is_multiple(1, step);
    lemma_multiples_combine(block, step, step);
    lemma_multiples_apart(floor, below, step);
    assert(!is_built(config, max, below, level + 1));
    if level > 0 {
        let big = digest_step(config, level + 1);
        lemma_step_divides(config, level, level + 1);
        lemma_step_next(config, level);
        if config.digest_interval == 1 {
            assert(big == step) by (nonlinear_arith)
                requires
                    big == step * config.digest_interval,
                    config.digest_interval == 1,
            ;
            lemma_round_multiple(below, big);
            assert(false);
        }
    }
    lemma_climb_to(config, max, begin, below, 0, level);
    lemma_round_multiple(below, step);
}

/// Returns parameters of highest level digest block that includes the end of given range
/// and tends to include the whole range: the block, the block down to which the level is kept,
/// the span of the digest and its level.
///
/// A level whose span does not fit a `u32` is not used, and neither is any level if the interval
/// is zero.
pub fn lower_bound_max_digest(
    config: &Configuration,
    max: u64,
    begin: u64,
    end: u64,
) -> (result: Result<(u64, u64, u32, u32), String>)
    ensures
        match result {
            Ok((current, current_begin, step, level)) => {
                &&& begin <= end <= max
                &&& current == top_block(*config, max as int, begin as int, end as int)
                &&& current_begin == top_floor(*config, max as int, begin as int, end as int)
                &&& step == top_step(*config, max as int, begin as int, end as int)
                &&& level == top_level(*config, max as int, begin as int, end as int)
                &&& step == pow(config.digest_interval as int, level as nat)
                &&& is_topmost(
                    *config,
                    max as int,
                    begin as int,
                    end as int,
                    current as int,
                    level as int,
                )
            },
            Err(message) => {
                &&& end > max || begin > end
                &&& message@ == invalid_range()
                &&& message@ == "invalid changes range"@
            },
        },
{
    if end > max || begin > end {
        return Err("invalid changes range".to_string());
    }
    let mut digest_level: u32 = 0;
    let mut digest_step: u32 = 1;
    let mut current: u64 = end;
    let mut current_begin: u64 = begin;
    let ghost conf = *config;
    let ghost b = begin as int;
    let ghost n = end as int;
    let ghost m = max as int;
    proof {
        law_topmost_digest(conf, max, begin, end);
        lemma_step_positive(conf, 0);
        lemma_round_multiple(n, 1);
    }
    if current_begin != current {
        while digest_level != config.digest_levels
            invariant_except_break
                digest_level == 0 ==> current_begin == begin,
                digest_level > 0 ==> current_begin == round_below(n, digest_step as int)
                    && current_begin > begin,
            invariant
                conf == *config,
                b == begin,
                n == end,
                m == max,
                begin < end <= max,
                digest_level <= config.digest_levels,
                digest_step == self::digest_step(conf, digest_level as nat),
                digest_step >= 1,
                digest_level > 0 ==> is_built(conf, m, n, digest_level as nat),
                current == round_up(n, digest_step as int),
                current <= max,
                climb(conf, m, b, n, 0) == climb(conf, m, b, n, digest_level as nat),
            ensures
                climb(conf, m, b, n, 0) == digest_level,
                current_begin == top_floor(conf, m, b, n),
            decreases config.digest_levels - digest_level,
        {
            proof {
                lemma_step_next(conf, digest_level as nat);
                lemma_round(n, digest_step as int);
            }
            if config.digest_interval == 0 {
                break;
            }
            let new_digest_step: u32 = match digest_step.checked_mul(config.digest_interval) {
                Some(step) => step,
                None => {
                    break;
                },
            };
            let new_digest_level: u32 = digest_level + 1;
            proof {
                lemma_step_divides(conf, digest_level as nat, new_digest_level as nat);
                lemma_round_coarser(n, digest_step as int, new_digest_step as int);
                lemma_round(n, new_digest_step as int);
                assert((current - 1) / (new_digest_step as int) * new_digest_step >= 0)
                    by (nonlinear_arith)
                    requires
                        current >= 1,
                        new_digest_step >= 1,
                ;
            }
            let new_digest_begin: u64 = ((current - 1) / new_digest_step as u64)
                * new_digest_step as u64;
            if new_digest_step as u64 > max - new_digest_begin {
                if begin < new_digest_begin {
                    current_begin = new_digest_begin;
                }
                break;
            }
            let new_digest_end: u64 = new_digest_begin + new_digest_step as u64;
            digest_level = new_digest_level;
            digest_step = new_digest_step;
            current = new_digest_end;
            current_begin = new_digest_begin;
            if current_begin <= begin && new_digest_end >= end {
                proof {
                    assert(climb(conf, m, b, n, digest_level as nat) == digest_level);
                }
                break;
            }
        }
    }
    Ok((current, current_begin, digest_step, digest_level))
}

/// The range from `begin` to `n` is entered with the digest of `level` in `block`.
pub open spec fn is_entry(
    config: Configuration,
    max: int,
    begin: int,
    n: int,
    block: int,
    level: nat,
) -> bool {
    &&& begin <= n <= max
    &&& block == top_block(config, max, begin, n)
    &&& level == top_level(config, max, begin, n)
}

/// Each digest is in an earlier block than the one before it.
pub open spec fn points_descend(points: Seq<(u64, u32)>) -> bool {
    forall|i: int, j: int| 0 <= i < j < points.len() ==> points[i].0 > points[j].0
}

/// Below the topmost digest, the next one ends where the span of the topmost one ends.
pub proof fn lemma_top_below(config: Configuration, max: int, begin: int, n: int)
    requires
        begin <= n <= max,
        begin <= round_below(n, digest_step(config, top_level(config, max, begin, n))),
    ensures
        ({
            let below = round_below(n, digest_step(config, top_level(config, max, begin, n)));
            top_block(config, max, begin, below) == below
        }),
{
    let level = top_level(config, max, begin, n);
    let step = digest_step(config, level);
    let below = round_below(n, step);
    let block = round_up(n, step);
    lemma_top(config, max, begin, n);
    lemma_top(config, max, begin, below);
    let next = top_level(config, max, begin, below);
    let s = digest_step(config, next);
    if next == 0 {
        lemma_step_positive(config, 0);
        lemma_round_multiple(below, 1);
    } else if next <= level {
        lemma_step_divides(config, next, level);
        lemma_multiple_of_multiple(below, step, s);
        lemma_round_multiple(below, s);
    } else {
        lemma_climb(config, max, begin, n, 0);
        let big = digest_step(config, level + 1);
        lemma_lower_level_exists(config, level + 1, next);
        lemma_step_divides(config, level, level + 1);
        lemma_step_divides(config, level + 1, next);
        lemma_round_coarser(below, big, s);
        lemma_round(n, big);
        let low = round_below(n, big);
        lemma_multiple_of_multiple(low, big, step);
        lemma_round_coarser(n, step, big);
        if below > low {
            lemma_round_unique(below, big, low);
            assert(false);
        }
        assert(below == low);
        lemma_round(below, s);
        if round_up(below, s) > below {
            lemma_multiple_of_multiple(round_up(below, s), s, big);
            lemma_multiples_apart(below, round_up(below, s), big);
            assert(false);
        }
    }
}

/// The surface descends, and none of it lies behind the best known block.
pub proof fn lemma_surface_points(config: Configuration, max: u64, begin: u64, n: int)
    requires
        begin <= n <= max,
    ensures
        ({
            let points = surface_points(config, max as int, begin as int, n);
            &&& points.len() > 0
            &&& points[0].0 == top_block(config, max as int, begin as int, n)
            &&& points[0].1 == top_level(config, max as int, begin as int, n)
            &&& points_descend(points)
            &&& forall|i: int| 0 <= i < points.len() ==> (#[trigger] points[i]).0 <= points[0].0
            &&& points[0].0 <= max
        }),
    decreases n,
{
    let points = surface_points(config, max as int, begin as int, n);
    let low = round_below(
        n,
        digest_step(config, top_level(config, max as int, begin as int, n)),
    );
    lemma_top(config, max as int, begin as int, n);
    if 0 < low < n && begin <= low {
        let rest = surface_points(config, max as int, begin as int, low);
        lemma_surface_points(config, max, begin, low);
        lemma_top_below(config, max as int, begin as int, n);
        assert forall|i: int| 0 < i < points.len() implies (#[trigger] points[i]).0 <= low by {
            assert(points[i] == rest[i - 1]);
        }
        assert forall|i: int, j: int| 0 <= i < j < points.len() implies points[i].0
            > points[j].0 by {
            assert(points[j] == rest[j - 1]);
            if i > 0 {
                assert(points[i] == rest[i - 1]);
            }
        }
    }
}

/// What is still to come from a surface iterator descends.
pub proof fn lemma_points_descend(state: SurfaceState)
    requires
        state.wf(),
    ensures
        points_descend(state.points()),
        state.current matches Some(block) ==> state.points().len() > 0 && state.points()[0] == (
            block,
            state.digest_level,
        ) && block <= state.max,
        state.current is None ==> state.points().len() == 0,
{
    if let Some(block) = state.current {
        let max = state.max as int;
        let begin = state.begin as int;
        let level = state.digest_level as nat;
        let n = choose|n: int| #[trigger]
            is_entry(state.config, max, begin, n, block as int, level);
        lemma_surface_points(state.config, state.max, state.begin, n);
        lemma_top(state.config, max, begin, n);
        assert(state.points() =~= surface_points(state.config, max, begin, n));
    }
}

/// Where a surface iterator stands.
pub struct SurfaceState {
    pub config: Configuration,
    /// The first block of the range.
    pub begin: u64,
    /// The best known block.
    pub max: u64,
    /// The digest that comes next.
    pub current: Option<u64>,
    /// Down to which block the digests keep the level.
    pub current_begin: u64,
    /// The span of the digest that comes next.
    pub digest_step: u32,
    /// The level of the digest that comes next.
    pub digest_level: u32,
}

impl SurfaceState {
    /// The digests that are still to come.
    pub open spec fn points(self) -> Seq<(u64, u32)> {
        match self.current {
            Some(block) => seq![(block, self.digest_level)] + points_below(
                self.config,
                self.max as int,
                self.begin as int,
                block - self.digest_step,
            ),
            None => Seq::empty(),
        }
    }

    pub open spec fn wf(self) -> bool {
        self.current matches Some(block) ==> {
            &&& block <= self.max
            &&& self.digest_level > 0 ==> has_level(self.config, self.digest_level as nat)
            &&& self.digest_step == digest_step(self.config, self.digest_level as nat)
            &&& self.digest_step >= 1
            &&& keeps_level(
                self.config,
                self.max as int,
                self.begin as int,
                block as int,
                self.current_begin as int,
                self.digest_level as nat,
            )
            &&& exists|n: int| #[trigger]
                is_entry(
                    self.config,
                    self.max as int,
                    self.begin as int,
                    n,
                    block as int,
                    self.digest_level as nat,
                )
        }
    }

    /// Where the iterator stands when it has handed out the current digest.
    pub open spec fn after(self) -> SurfaceState {
        match self.current {
            Some(block) => {
                let below = block - self.digest_step;
                if below <= 0 || below < self.begin {
                    SurfaceState { current: None, ..self }
                } else if below > self.current_begin {
                    SurfaceState { current: Some(below as u64), ..self }
                } else {
                    let max = self.max as int;
                    let begin = self.begin as int;
                    SurfaceState {
                        current: Some(top_block(self.config, max, begin, below) as u64),
                        current_begin: top_floor(self.config, max, begin, below) as u64,
                        digest_step: top_step(self.config, max, begin, below) as u32,
                        digest_level: top_level(self.config, max, begin, below) as u32,
                        ..self
                    }
                }
            },
            None => self,
        }
    }
}

/// Surface iterator - only traverses top-level digests from given range and tries to find
/// all digest changes for the key.
pub struct SurfaceIterator<'a> {
    config: &'a Configuration,
    begin: u64,
    max: u64,
    current: Option<u64>,
    current_begin: u64,
    digest_step: u32,
    digest_level: u32,
}

impl<'a> View for SurfaceIterator<'a> {
    type V = SurfaceState;

    closed spec fn view(&self) -> SurfaceState {
        SurfaceState {
            config: *self.config,
            begin: self.begin,
            max: self.max,
            current: self.current,
            current_begin: self.current_begin,
            digest_step: self.digest_step,
            digest_level: self.digest_level,
        }
    }
}

impl<'a> SurfaceIterator<'a> {
    /// The digests that are still to come.
    pub open spec fn points(&self) -> Seq<(u64, u32)> {
        self@.points()
    }

    pub open spec fn wf(&self) -> bool {
        self@.wf()
    }

    /// Returns the block of the digest that comes next.
    pub(crate) fn peek(&self) -> (block: Option<u64>)
        ensures
            block == self@.current,
    {
        self.current
    }

    /// Returns the next digest, as its block and its level.
    pub fn next(&mut self) -> (item: Option<Result<(u64, u32), String>>)
        requires
            old(self).wf(),
        ensures
            final(self).wf(),
            final(self)@ == old(self)@.after(),
            final(self)@.config == old(self)@.config,
            final(self)@.begin == old(self)@.begin,
            final(self)@.max == old(self)@.max,
            item is None <==> old(self)@.current is None,
            item is None ==> *final(self) == *old(self),
            match item {
                Some(Ok(point)) => {
                    &&& old(self)@.current == Some(point.0)
                    &&& old(self)@.digest_level == point.1
                    &&& old(self).points().len() > 0
                    &&& point == old(self).points()[0]
                    &&& final(self).points() == old(self).points().drop_first()
                },
                Some(Err(_)) => false,
                None => old(self).points().len() == 0 && final(self).points().len() == 0,
            },
    {
        let current: u64 = match self.current {
            Some(current) => current,
            None => {
                return None;
            },
        };
        let digest_level: u32 = self.digest_level;
        let ghost config = *self.config;
        let ghost max = self.max as int;
        let ghost begin = self.begin as int;
        let ghost below = current - self.digest_step;
        proof {
            assert(self.points().drop_first() =~= points_below(config, max, begin, below));
        }
        if current < self.digest_step as u64 {
            self.current = None;
        } else {
            let next: u64 = current - self.digest_step as u64;
            if next == 0 || next < self.begin {
                self.current = None;
            } else if next > self.current_begin {
                proof {
                    let level = self.digest_level as nat;
                    lemma_keep(
                        config,
                        max,
                        begin,
                        current as int,
                        self.current_begin as int,
                        level,
                    );
                    lemma_top(config, max, begin, below);
                    assert(is_entry(config, max, begin, below, below, level));
                }
                self.current = Some(next);
            } else {
                proof {
                    lemma_top(config, max, begin, below);
                    lemma_top_keeps_level(config, max, begin, below);
                    assert(is_entry(
                        config,
                        max,
                        begin,
                        below,
                        top_block(config, max, begin, below),
                        top_level(config, max, begin, below),
                    ));
                }
                let (current, current_begin, digest_step, digest_level) =
                    match lower_bound_max_digest(self.config, self.max, self.begin, next) {
                    Err(err) => {
                        return Some(Err(err));
                    },
                    Ok(range) => range,
                };
                self.current = Some(current);
                self.current_begin = current_begin;
                self.digest_step = digest_step;
                self.digest_level = digest_level;
            }
        }
        Some(Ok((current, digest_level)))
    }
}

/// Returns surface iterator for given range of blocks.
pub fn surface_iterator<'a>(
    config: &'a Configuration,
    max: u64,
    begin: u64,
    end: u64,
) -> (result: Result<SurfaceIterator<'a>, String>)
    ensures
        match result {
            Ok(surface) => {
                &&& begin <= end <= max
                &&& surface.wf()
                &&& surface@.config == *config
                &&& surface@.begin == begin
                &&& surface@.max == max
                &&& surface@.current is Some
                &&& surface@.current->0 == top_block(*config, max as int, begin as int, end as int)
                &&& surface@.current_begin == top_floor(
                    *config,
                    max as int,
                    begin as int,
                    end as int,
                )
                &&& surface@.digest_step == top_step(
                    *config,
                    max as int,
                    begin as int,
                    end as int,
                )
                &&& surface@.digest_level == top_level(
                    *config,
                    max as int,
                    begin as int,
                    end as int,
                )
                &&& surface.points() == surface_points(
                    *config,
                    max as int,
                    begin as int,
                    end as int,
                )
            },
            Err(message) => {
                &&& end > max || begin > end
                &&& message@ == invalid_range()
                &&& message@ == "invalid changes range"@
            },
        },
{
    let (current, current_begin, digest_step, digest_level) = match lower_bound_max_digest(
        config,
        max,
        begin,
        end,
    ) {
        Ok(range) => range,
        Err(err) => {
            return Err(err);
        },
    };
    proof {
        lemma_top(*config, max as int, begin as int, end as int);
        lemma_top_keeps_level(*config, max as int, begin as int, end as int);
    }
    let surface = SurfaceIterator {
        config,
        begin,
        max,
        current: Some(current),
        current_begin,
        digest_step,
        digest_level,
    };
    proof {
        assert(is_entry(
            *config,
            max as int,
            begin as int,
            end as int,
            current as int,
            digest_level as nat,
        ));
        assert(surface.points() =~= surface_points(*config, max as int, begin as int, end as int));
    }
    Ok(surface)
}

} // verus!
