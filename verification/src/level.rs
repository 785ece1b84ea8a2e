//! The height of a new tower: a run of fair coin flips, capped.
//!
//! A tower reaches level `k` with probability about `2^-k`, so that each
//! level holds about half the keys of the level below it.

use vstd::prelude::*;

verus! {

/// One flip of a fair coin.
///
/// Calls `rand::random::<bool>()`, which draws from the generator of the
/// current thread. The outcome is a matter of chance, so nothing is claimed
/// of it; that the two outcomes are equally likely is rand's promise and not
/// stated here. The call panics only if the operating system gives the
/// generator no seed.
#[verifier::external_body]
fn coin_flip() -> (heads: bool) {
    rand::random::<bool>()
}

/// The number of heads before the first tails.
pub open spec fn leading_heads(flips: Seq<bool>) -> nat
    decreases flips.len(),
{
    if flips.len() == 0 || !flips[0] {
        0
    } else {
        1 + leading_heads(flips.drop_first())
    }
}

/// The level that a run of flips gives a tower in a list of `max_level`
/// levels: one level for each head before the first tails, up to the
/// highest level there is.
pub open spec fn level_of_flips(flips: Seq<bool>, max_level: nat) -> nat {
    if leading_heads(flips) < max_level {
        leading_heads(flips)
    } else {
        (max_level - 1) as nat
    }
}

/// A run that starts with `n` heads has `n` leading heads if it ends there
/// or goes on with tails, and more if it goes on with heads.
pub proof fn lemma_leading_heads(flips: Seq<bool>, n: int)
    requires
        0 <= n <= flips.len(),
        forall|i: int| 0 <= i < n ==> flips[i],
    ensures
        n == flips.len() || !flips[n] ==> leading_heads(flips) == n,
        leading_heads(flips) >= n,
    decreases n,
{
    if n > 0 {
        let rest = flips.drop_first();
        assert(flips[0]);
        assert forall|i: int| 0 <= i < n - 1 implies rest[i] by {
            assert(flips[i + 1]);
        }
        lemma_leading_heads(rest, n - 1);
        if n < flips.len() {
            assert(rest[n - 1] == flips[n]);
        }
    }
}

/// The level that `flips` gives: `level_of_flips`, computed.
pub fn level_from_flips(flips: &Vec<bool>, max_level: usize) -> (level: usize)
    requires
        max_level >= 1,
    ensures
        level == level_of_flips(flips@, max_level as nat),
{
    let mut level: usize = 0;
    while level < flips.len() && level + 1 < max_level && flips[level]
        invariant
            level <= flips.len(),
            level < max_level,
            forall|i: int| 0 <= i < level ==> flips@[i],
        decreases flips.len() - level,
    {
        level = level + 1;
    }
    proof {
        lemma_leading_heads(flips@, level as int);
    }
    level
}

/// `flips` is a run of flips that ends at the first tails, and after `limit`
/// flips if no tails has come by then: every flip but the last shows heads,
/// and a run of fewer than `limit` flips has a last flip, which shows tails.
pub open spec fn is_run(flips: Seq<bool>, limit: nat) -> bool {
    &&& flips.len() <= limit
    &&& forall|i: int| 0 <= i < flips.len() - 1 ==> flips[i]
    &&& flips.len() < limit ==> flips.len() > 0 && !flips.last()
}

/// Flips the coin until tails comes or `limit` flips are made, and returns
/// the flips in the order in which they came.
///
/// How the flips fall is a matter of chance. That they form such a run is
/// not: with `limit == 0` no flip is made, and else at least one.
pub fn draw_flips(limit: usize) -> (flips: Vec<bool>)
    ensures
        is_run(flips@, limit as nat),
{
    let mut flips: Vec<bool> = Vec::new();
    let mut heads = true;
    while heads && flips.len() < limit
        invariant
            flips.len() <= limit,
            forall|i: int| 0 <= i < flips.len() - 1 ==> flips@[i],
            flips.len() == 0 ==> heads,
            flips.len() > 0 ==> flips@[flips.len() - 1] == heads,
        decreases (if heads { 1int } else { 0int }), limit - flips.len(),
    {
        heads = coin_flip();
        flips.push(heads);
    }
    flips
}

} // verus!
