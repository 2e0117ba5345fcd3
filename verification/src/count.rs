//! Counting the positions of a prefix that satisfy a predicate.

use vstd::prelude::*;

verus! {

/// The number of positions `k` with `0 <= k < n` at which `p` holds.
pub open spec fn count_below(p: spec_fn(int) -> bool, n: int) -> nat
    decreases n,
{
    if n <= 0 {
        0
    } else {
        count_below(p, n - 1) + if p(n - 1) { 1nat } else { 0nat }
    }
}

/// Two predicates that agree below `n` have the same count below `n`.
pub proof fn lemma_count_agree(p: spec_fn(int) -> bool, q: spec_fn(int) -> bool, n: int)
    requires
        forall|k: int| 0 <= k < n ==> #[trigger] p(k) == q(k),
    ensures
        count_below(p, n) == count_below(q, n),
    decreases n,
{
    if n > 0 {
        lemma_count_agree(p, q, n - 1);
    }
}

/// The positions that satisfy `p` split into those that also satisfy `q`
/// and those that do not.
pub proof fn lemma_count_split(p: spec_fn(int) -> bool, q: spec_fn(int) -> bool, n: int)
    ensures
        count_below(p, n) == count_below(|k: int| p(k) && q(k), n) + count_below(
            |k: int| p(k) && !q(k),
            n,
        ),
    decreases n,
{
    if n > 0 {
        lemma_count_split(p, q, n - 1);
    }
}

/// Where `p` implies `q` below `n`, `p` holds at no more positions than `q`.
pub proof fn lemma_count_implies(p: spec_fn(int) -> bool, q: spec_fn(int) -> bool, n: int)
    requires
        forall|k: int| 0 <= k < n && #[trigger] p(k) ==> q(k),
    ensures
        count_below(p, n) <= count_below(q, n),
    decreases n,
{
    if n > 0 {
        lemma_count_implies(p, q, n - 1);
    }
}

} // verus!
