//! Broadphase tree budgets and traversal counters.
use vstd::arithmetic::power2::{lemma_pow2_unfold, pow2};
use vstd::prelude::*;
use vstd::std_specs::bits::u64_leading_zeros;

verus! {

/// Deterministic counters of one tree query.
#[derive(Clone, Copy, Debug, PartialEq, Eq, Structural)]
pub struct TreeQueryStats {
    /// Number of tree nodes visited.
    pub traversal_count: usize,
    /// Number of leaf candidates returned.
    pub candidate_count: usize,
    /// Number of nodes rejected by coarse bounds.
    pub pruned_count: usize,
}

impl Default for TreeQueryStats {
    fn default() -> (r: Self)
        ensures
            r.traversal_count == 0,
            r.candidate_count == 0,
            r.pruned_count == 0,
    {
        TreeQueryStats { traversal_count: 0, candidate_count: 0, pruned_count: 0 }
    }
}

/// The number of binary digits of `n` (zero for zero).
pub open spec fn bit_length(n: nat) -> nat
    decreases n,
{
    if n == 0 {
        0
    } else {
        1 + bit_length(n / 2)
    }
}

/// The depth budget of a balanced tree over `leaf_count` leaves: the leaf depth of a
/// perfectly balanced binary tree plus two levels of slack.
pub open spec fn balanced_depth_budget_spec(leaf_count: nat) -> nat {
    bit_length(if leaf_count == 0 {
        0
    } else {
        (leaf_count - 1) as nat
    }) + 2
}

proof fn lemma_leading_zeros_bit_length(x: u64)
    ensures
        u64_leading_zeros(x) == 64 - bit_length(x as nat),
        bit_length(x as nat) <= 64,
    decreases x,
{
    reveal(u64_leading_zeros);
    if x != 0 {
        lemma_leading_zeros_bit_length(x / 2);
    }
}

proof fn lemma_bit_length_bounds(n: nat)
    ensures
        n < pow2(bit_length(n)),
        n > 0 ==> pow2((bit_length(n) - 1) as nat) <= n,
    decreases n,
{
    vstd::arithmetic::power2::lemma2_to64();
    if n > 0 {
        let h = n / 2;
        lemma_bit_length_bounds(h);
        let b = bit_length(h);
        assert(bit_length(n) == b + 1);
        lemma_pow2_unfold(b + 1);
        assert(pow2(b + 1) == 2 * pow2(b));
        assert(n < 2 * pow2(b));
        if h > 0 {
            lemma_pow2_unfold(b);
            assert(pow2(b) == 2 * pow2((b - 1) as nat));
            assert(2 * pow2((b - 1) as nat) <= 2 * h);
        } else {
            assert(b == 0);
        }
    }
}

/// Returns the depth budget of a balanced tree over `leaf_count` leaves.
pub fn balanced_depth_budget(leaf_count: usize) -> (budget: usize)
    ensures
        budget == balanced_depth_budget_spec(leaf_count as nat),
{
    let x = leaf_count.saturating_sub(1) as u64;
    let zeros = x.leading_zeros();
    proof {
        lemma_leading_zeros_bit_length(x);
    }
    (64 - zeros) as usize + 2
}

/// The budget leaves room for every leaf: a balanced tree `budget - 2` levels deep holds at
/// least `leaf_count` leaves, and one level fewer would not.
pub proof fn lemma_balanced_depth_budget_fits(leaf_count: nat)
    requires
        leaf_count >= 1,
    ensures
        pow2((balanced_depth_budget_spec(leaf_count) - 2) as nat) >= leaf_count,
        balanced_depth_budget_spec(leaf_count) == 2 || pow2(
            (balanced_depth_budget_spec(leaf_count) - 3) as nat,
        ) < leaf_count,
{
    lemma_bit_length_bounds((leaf_count - 1) as nat);
}

} // verus!
