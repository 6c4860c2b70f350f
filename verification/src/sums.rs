//! Sums over an initial range of node ids.

use vstd::prelude::*;

verus! {

/// `f(0) + f(1) + ... + f(n - 1)`.
pub open spec fn sum_below(f: spec_fn(int) -> int, n: nat) -> int
    decreases n,
{
    if n == 0 {
        0
    } else {
        sum_below(f, (n - 1) as nat) + f(n - 1)
    }
}

/// Functions that agree below `n` have the same sum.
pub proof fn lemma_sum_same(f: spec_fn(int) -> int, g: spec_fn(int) -> int, n: nat)
    requires
        forall|i: int| 0 <= i < n ==> #[trigger] f(i) == g(i),
    ensures
        sum_below(f, n) == sum_below(g, n),
    decreases n,
{
    if n > 0 {
        lemma_sum_same(f, g, (n - 1) as nat);
    }
}

/// A smaller function has the smaller sum.
pub proof fn lemma_sum_le(f: spec_fn(int) -> int, g: spec_fn(int) -> int, n: nat)
    requires
        forall|i: int| 0 <= i < n ==> #[trigger] f(i) <= g(i),
    ensures
        sum_below(f, n) <= sum_below(g, n),
    decreases n,
{
    if n > 0 {
        lemma_sum_le(f, g, (n - 1) as nat);
    }
}

/// The sum of a function that is nowhere negative.
pub proof fn lemma_sum_nonneg(f: spec_fn(int) -> int, n: nat)
    requires
        forall|i: int| 0 <= i < n ==> #[trigger] f(i) >= 0,
    ensures
        sum_below(f, n) >= 0,
    decreases n,
{
    if n > 0 {
        lemma_sum_nonneg(f, (n - 1) as nat);
    }
}

/// The sum of a function that is zero below `n`.
pub proof fn lemma_sum_zero(f: spec_fn(int) -> int, n: nat)
    requires
        forall|i: int| 0 <= i < n ==> #[trigger] f(i) == 0,
    ensures
        sum_below(f, n) == 0,
    decreases n,
{
    if n > 0 {
        lemma_sum_zero(f, (n - 1) as nat);
    }
}

/// Functions that differ at `k` alone have sums that differ by the same amount.
pub proof fn lemma_sum_change(f: spec_fn(int) -> int, g: spec_fn(int) -> int, n: nat, k: int)
    requires
        0 <= k < n,
        forall|i: int| 0 <= i < n && i != k ==> #[trigger] f(i) == g(i),
    ensures
        sum_below(g, n) == sum_below(f, n) + g(k) - f(k),
    decreases n,
{
    if k == n - 1 {
        lemma_sum_same(f, g, (n - 1) as nat);
    } else {
        lemma_sum_change(f, g, (n - 1) as nat, k);
    }
}

/// A term of a sum without negative terms is no greater than the sum.
pub proof fn lemma_sum_term(f: spec_fn(int) -> int, n: nat, k: int)
    requires
        0 <= k < n,
        forall|i: int| 0 <= i < n ==> #[trigger] f(i) >= 0,
    ensures
        f(k) <= sum_below(f, n),
    decreases n,
{
    if k == n - 1 {
        lemma_sum_nonneg(f, (n - 1) as nat);
    } else {
        lemma_sum_term(f, (n - 1) as nat, k);
    }
}

/// A longer sum without negative terms is no smaller.
pub proof fn lemma_sum_more(f: spec_fn(int) -> int, k: nat, n: nat)
    requires
        k <= n,
        forall|i: int| 0 <= i < n ==> #[trigger] f(i) >= 0,
    ensures
        sum_below(f, k) <= sum_below(f, n),
    decreases n,
{
    if k < n {
        lemma_sum_more(f, k, (n - 1) as nat);
    }
}

/// A positive sum without negative terms has a positive term.
pub proof fn lemma_sum_positive(f: spec_fn(int) -> int, n: nat) -> (k: int)
    requires
        sum_below(f, n) > 0,
    ensures
        0 <= k < n,
        f(k) > 0,
    decreases n,
{
    if f(n - 1) > 0 {
        n - 1
    } else {
        lemma_sum_positive(f, (n - 1) as nat)
    }
}

/// Sums add up term by term.
pub proof fn lemma_sum_add(
    f: spec_fn(int) -> int,
    g: spec_fn(int) -> int,
    h: spec_fn(int) -> int,
    n: nat,
)
    requires
        forall|i: int| 0 <= i < n ==> #[trigger] h(i) == f(i) + g(i),
    ensures
        sum_below(h, n) == sum_below(f, n) + sum_below(g, n),
    decreases n,
{
    if n > 0 {
        lemma_sum_add(f, g, h, (n - 1) as nat);
    }
}

} // verus!
