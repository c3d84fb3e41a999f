//! Counting the indices of a prefix that satisfy a predicate.

use vstd::prelude::*;

verus! {

/// Number of indices `i` in `0..n` for which `p(i)` holds.
pub open spec fn count_where(n: int, p: spec_fn(int) -> bool) -> nat
    decreases n,
{
    if n <= 0 {
        0
    } else {
        count_where(n - 1, p) + if p(n - 1) {
            1nat
        } else {
            0nat
        }
    }
}

/// Predicates that agree on the prefix count the same.
pub proof fn lemma_count_ext(n: int, p: spec_fn(int) -> bool, q: spec_fn(int) -> bool)
    requires
        forall|i: int| 0 <= i < n ==> #[trigger] p(i) == q(i),
    ensures
        count_where(n, p) == count_where(n, q),
    decreases n,
{
    if n > 0 {
        lemma_count_ext(n - 1, p, q);
    }
}

/// A predicate that is the disjoint union of two others counts their sum.
pub proof fn lemma_count_disjoint(
    n: int,
    p: spec_fn(int) -> bool,
    q: spec_fn(int) -> bool,
    r: spec_fn(int) -> bool,
)
    requires
        forall|i: int| 0 <= i < n ==> #[trigger] r(i) == (p(i) || q(i)),
        forall|i: int| 0 <= i < n ==> !(#[trigger] p(i) && q(i)),
    ensures
        count_where(n, r) == count_where(n, p) + count_where(n, q),
    decreases n,
{
    if n > 0 {
        lemma_count_disjoint(n - 1, p, q, r);
    }
}

/// A count never exceeds the prefix length, and is zero exactly when no index qualifies.
pub proof fn lemma_count_bounds(n: int, p: spec_fn(int) -> bool)
    requires
        n >= 0,
    ensures
        count_where(n, p) <= n,
        count_where(n, p) == 0 <==> (forall|i: int| 0 <= i < n ==> !#[trigger] p(i)),
    decreases n,
{
    if n > 0 {
        lemma_count_bounds(n - 1, p);
        if count_where(n, p) == 0 {
            assert forall|i: int| 0 <= i < n implies !#[trigger] p(i) by {
                if i < n - 1 {
                } else {
                }
            }
        }
    }
}

/// A count is monotone in the predicate.
pub proof fn lemma_count_mono(n: int, p: spec_fn(int) -> bool, q: spec_fn(int) -> bool)
    requires
        forall|i: int| 0 <= i < n ==> #[trigger] p(i) ==> q(i),
    ensures
        count_where(n, p) <= count_where(n, q),
    decreases n,
{
    if n > 0 {
        lemma_count_mono(n - 1, p, q);
    }
}

/// A predicate that holds at exactly one index of the prefix counts one.
pub proof fn lemma_count_single(n: int, p: spec_fn(int) -> bool, k: int)
    requires
        0 <= k < n,
        p(k),
        forall|i: int| 0 <= i < n && i != k ==> !#[trigger] p(i),
    ensures
        count_where(n, p) == 1,
    decreases n,
{
    if n - 1 > k {
        lemma_count_single(n - 1, p, k);
    } else {
        lemma_count_bounds(n - 1, p);
    }
}

/// Some index qualifies exactly when the count is positive.
pub proof fn lemma_count_witness(n: int, p: spec_fn(int) -> bool)
    requires
        n >= 0,
        count_where(n, p) > 0,
    ensures
        exists|i: int| 0 <= i < n && #[trigger] p(i),
{
    lemma_count_bounds(n, p);
}

/// A predicate that holds on the whole prefix counts its length.
pub proof fn lemma_count_all(n: int, p: spec_fn(int) -> bool)
    requires
        n >= 0,
        forall|i: int| 0 <= i < n ==> #[trigger] p(i),
    ensures
        count_where(n, p) == n,
    decreases n,
{
    if n > 0 {
        lemma_count_all(n - 1, p);
    }
}

} // verus!
