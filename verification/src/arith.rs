//! Facts about multiples and rounding that the digest levels rest on.

use vstd::arithmetic::div_mod::{lemma_fundamental_div_mod, lemma_mod_multiples_basic};
use vstd::prelude::*;

verus! {

/// The greatest multiple of `step` below `n`.
pub open spec fn round_below(n: int, step: int) -> int {
    ((n - 1) / step) * step
}

/// The least multiple of `step` that is not below `n`.
pub open spec fn round_up(n: int, step: int) -> int {
    round_below(n, step) + step
}

/// A multiple is its quotient times the divisor.
pub proof fn lemma_multiple(x: int, step: int)
    requires
        step >= 1,
        x % step == 0,
    ensures
        x == (x / step) * step,
{
    lemma_fundamental_div_mod(x, step);
    assert(step * (x / step) == (x / step) * step) by (nonlinear_arith);
}

pub proof fn lemma_is_multiple(k: int, step: int)
    requires
        step >= 1,
    ensures
        (k * step) % step == 0,
{
    lemma_mod_multiples_basic(k, step);
}

/// Sums and differences of multiples are multiples.
pub proof fn lemma_multiples_combine(x: int, y: int, step: int)
    requires
        step >= 1,
        x % step == 0,
        y % step == 0,
    ensures
        (x + y) % step == 0,
        (x - y) % step == 0,
{
    lemma_multiple(x, step);
    lemma_multiple(y, step);
    let a = x / step;
    let b = y / step;
    assert(a * step + b * step == (a + b) * step) by (nonlinear_arith);
    assert(a * step - b * step == (a - b) * step) by (nonlinear_arith);
    lemma_is_multiple(a + b, step);
    lemma_is_multiple(a - b, step);
}

/// Two multiples are at least one step apart.
pub proof fn lemma_multiples_apart(x: int, y: int, step: int)
    requires
        step >= 1,
        x % step == 0,
        y % step == 0,
        x < y,
    ensures
        x + step <= y,
{
    lemma_multiple(x, step);
    lemma_multiple(y, step);
    let a = x / step;
    let b = y / step;
    assert(a < b) by (nonlinear_arith)
        requires
            a * step < b * step,
            step >= 1,
    ;
    assert((a + 1) * step <= b * step) by (nonlinear_arith)
        requires
            a + 1 <= b,
            step >= 1,
    ;
    assert((a + 1) * step == a * step + step) by (nonlinear_arith);
}

/// A multiple of a multiple of `step` is a multiple of `step`.
pub proof fn lemma_multiple_of_multiple(x: int, big: int, step: int)
    requires
        step >= 1,
        big >= 1,
        big % step == 0,
        x % big == 0,
    ensures
        x % step == 0,
{
    lemma_multiple(x, big);
    lemma_multiple(big, step);
    let a = x / big;
    let b = big / step;
    assert(a * (b * step) == (a * b) * step) by (nonlinear_arith);
    lemma_is_multiple(a * b, step);
}

/// What rounding gives.
pub proof fn lemma_round(n: int, step: int)
    requires
        step >= 1,
    ensures
        round_below(n, step) < n <= round_up(n, step),
        round_below(n, step) % step == 0,
        round_up(n, step) % step == 0,
{
    lemma_fundamental_div_mod(n - 1, step);
    let a = (n - 1) / step;
    assert(step * a == a * step) by (nonlinear_arith);
    lemma_is_multiple(a, step);
    assert((a + 1) * step == a * step + step) by (nonlinear_arith);
    lemma_is_multiple(a + 1, step);
}

/// Only one multiple of `step` lies in the step below `n`.
pub proof fn lemma_round_unique(n: int, step: int, x: int)
    requires
        step >= 1,
        x % step == 0,
        x < n <= x + step,
    ensures
        round_below(n, step) == x,
        round_up(n, step) == x + step,
{
    lemma_round(n, step);
    let y = round_below(n, step);
    if x < y {
        lemma_multiples_apart(x, y, step);
    } else if y < x {
        lemma_multiples_apart(y, x, step);
    }
}

/// A multiple is rounded up to itself.
pub proof fn lemma_round_multiple(n: int, step: int)
    requires
        step >= 1,
        n % step == 0,
    ensures
        round_up(n, step) == n,
        round_below(n, step) == n - step,
{
    assert(step % step == 0) by {
        lemma_is_multiple(1, step);
    }
    lemma_multiples_combine(n, step, step);
    lemma_round_unique(n, step, n - step);
}

/// Rounding to a coarser step is not changed by rounding to a finer one before.
pub proof fn lemma_round_coarser(n: int, step: int, big: int)
    requires
        step >= 1,
        big >= 1,
        big % step == 0,
    ensures
        round_below(round_up(n, step), big) == round_below(n, big),
        round_up(n, step) <= round_up(n, big),
        round_below(n, big) <= round_below(n, step),
{
    lemma_round(n, step);
    lemma_round(n, big);
    let m = round_up(n, step);
    let low = round_below(n, big);
    lemma_multiple_of_multiple(low, big, step);
    lemma_multiple_of_multiple(low + big, big, step);
    if low + big < m {
        lemma_multiples_apart(low + big, m, step);
    }
    if round_below(n, step) < low {
        lemma_multiples_apart(round_below(n, step), low, step);
    }
    lemma_round_unique(m, big, low);
}

} // verus!
