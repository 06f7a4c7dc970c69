//! Binomial coefficients, as far as counting subsets needs them.

use vstd::prelude::*;

verus! {

/// The number of ways to choose `k` things out of `n`, by Pascal's rule.
pub open spec fn binomial(n: int, k: int) -> int
    decreases n,
{
    if k < 0 {
        0
    } else if k == 0 {
        1
    } else if n <= 0 {
        0
    } else {
        binomial(n - 1, k - 1) + binomial(n - 1, k)
    }
}

/// A binomial coefficient is never negative.
pub proof fn lemma_binomial_nonnegative(n: int, k: int)
    ensures
        binomial(n, k) >= 0,
    decreases n,
{
    if k > 0 && n > 0 {
        lemma_binomial_nonnegative(n - 1, k - 1);
        lemma_binomial_nonnegative(n - 1, k);
    }
}

/// There is no way to choose more than there is.
pub proof fn lemma_binomial_above(n: int, k: int)
    requires
        k > n,
        k > 0,
    ensures
        binomial(n, k) == 0,
    decreases n,
{
    if n > 0 {
        lemma_binomial_above(n - 1, k - 1);
        lemma_binomial_above(n - 1, k);
    }
}

/// With one more thing to choose from there are no fewer ways.
pub proof fn lemma_binomial_grows(n: int, k: int)
    requires
        n >= 0,
    ensures
        binomial(n, k) <= binomial(n + 1, k),
{
    lemma_binomial_nonnegative(n, k - 1);
}

/// The numbers of five-card subsets of five, six and seven cards.
pub proof fn lemma_binomial_five()
    ensures
        binomial(5, 5) == 1,
        binomial(6, 5) == 6,
        binomial(7, 5) == 21,
{
    reveal_with_fuel(binomial, 8);
}

} // verus!
