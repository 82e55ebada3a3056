//! Finding the first number that meets a condition.

use vstd::prelude::*;

verus! {

/// The first number from `n` up to `limit`, `limit` excluded, at which `p` holds;
/// `limit` where there is none.
pub open spec fn first_hit(p: spec_fn(int) -> bool, n: int, limit: int) -> int
    decreases limit - n,
{
    if n >= limit {
        limit
    } else if p(n) {
        n
    } else {
        first_hit(p, n + 1, limit)
    }
}

/// A number at which `p` holds, with none before it, is the first hit; so is the
/// limit where `p` holds nowhere.
pub proof fn lemma_first_hit(p: spec_fn(int) -> bool, n: int, limit: int, r: int)
    requires
        n <= r <= limit,
        r < limit ==> p(r),
        forall|m: int| n <= m < r ==> !#[trigger] p(m),
    ensures
        first_hit(p, n, limit) == r,
    decreases r - n,
{
    if n < r {
        assert(!p(n));
        lemma_first_hit(p, n + 1, limit, r);
    }
}

} // verus!
