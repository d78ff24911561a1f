//! The shape of one growth pass: how many nodes it appends, and where each
//! of them hangs.
use vstd::prelude::*;
use vstd::arithmetic::power2::*;

verus! {

/// How many nodes one growth pass with the given depth limit appends: a full
/// binary tree of that depth below the root, less the root.
pub open spec fn growth_count(depth_limit: nat) -> nat {
    (pow2(depth_limit + 1) - 2) as nat
}

/// The parent of the `k`-th node appended by a growth pass whose first new
/// node has index `first`: the first two hang from the root, the others are
/// numbered level by level as in a binary heap.
pub open spec fn grown_parent(first: int, k: int) -> int {
    if k < 2 {
        0
    } else {
        first + k / 2 - 1
    }
}

/// The depth of the `k`-th node appended by a growth pass.
pub open spec fn grown_depth(k: nat) -> nat
    decreases k,
{
    if k < 2 {
        1
    } else {
        grown_depth((k / 2 - 1) as nat) + 1
    }
}

/// `grown_depth(k)` is the binary logarithm of `k + 2`, rounded down.
pub(crate) proof fn lemma_grown_depth_bounds(k: nat)
    ensures
        pow2(grown_depth(k)) <= k + 2 < pow2(grown_depth(k) + 1),
    decreases k,
{
    if k < 2 {
        lemma_pow2_unfold(1);
        lemma_pow2_unfold(2);
        assert(pow2(0) == 1) by {
            lemma2_to64();
        }
    } else {
        let k2 = (k / 2 - 1) as nat;
        lemma_grown_depth_bounds(k2);
        let d = grown_depth(k2);
        lemma_pow2_unfold(d + 1);
        lemma_pow2_unfold(d + 2);
    }
}

/// Monotonicity of `pow2`, in the form the growth proof uses.
pub(crate) proof fn lemma_pow2_le(a: nat, b: nat)
    requires
        a <= b,
    ensures
        pow2(a) <= pow2(b),
{
    if a < b {
        lemma_pow2_strictly_increases(a, b);
    }
}

/// Every node appended by a growth pass with limit `depth_limit` lies at a
/// depth between 1 and the limit, and the last one appended lies exactly at
/// the limit.
pub proof fn lemma_grown_depth_range(depth_limit: nat, k: nat)
    requires
        k < growth_count(depth_limit),
    ensures
        1 <= grown_depth(k) <= depth_limit,
        k + 1 == growth_count(depth_limit) ==> grown_depth(k) == depth_limit,
{
    lemma_grown_depth_bounds(k);
    lemma_grown_depth_at_least_one(k);
    let d = grown_depth(k);
    lemma_pow2_unfold(depth_limit + 1);
    lemma_pow2_pos(depth_limit);
    if d > depth_limit {
        lemma_pow2_le(depth_limit + 1, d);
    }
    if k + 1 == growth_count(depth_limit) && d < depth_limit {
        lemma_pow2_le(d + 1, depth_limit);
    }
}

/// Appended nodes lie at least one level below the root.
proof fn lemma_grown_depth_at_least_one(k: nat)
    ensures
        grown_depth(k) >= 1,
    decreases k,
{
    if k >= 2 {
        lemma_grown_depth_at_least_one((k / 2 - 1) as nat);
    }
}

/// Nodes appended later by a growth pass hang from parents made no earlier
/// and lie no shallower: the pass works breadth-first.
pub proof fn lemma_growth_is_breadth_first(first: int, k1: nat, k2: nat)
    requires
        k1 <= k2,
    ensures
        grown_parent(first, k1 as int) <= grown_parent(first, k2 as int) || k1 < 2,
        grown_depth(k1) <= grown_depth(k2),
        k1 % 2 == 0 ==> grown_parent(first, k1 as int) == grown_parent(first, (k1 + 1) as int),
{
    lemma_grown_depth_bounds(k1);
    lemma_grown_depth_bounds(k2);
    if grown_depth(k1) > grown_depth(k2) {
        lemma_pow2_le(grown_depth(k2) + 1, grown_depth(k1));
    }
}

} // verus!
