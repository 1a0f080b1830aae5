//! Sizes that may be too large to write.
use vstd::prelude::*;

verus! {

/// `r` is the size `n`, or `None` where it cannot be written.
pub open spec fn holds(r: Option<usize>, n: nat) -> bool {
    match r {
        Some(x) => x == n,
        None => n > usize::MAX,
    }
}

/// The size `a * b`.
pub fn times(a: Option<usize>, b: usize) -> (r: Option<usize>)
    ensures
        forall|n: nat| #[trigger] holds(a, n) ==> holds(r, n * b as nat),
{
    if b == 0 {
        assert(forall|n: nat| #[trigger] (n * 0) == 0);
        return Some(0);
    }
    match a {
        Some(x) => {
            let r: Option<usize> = x.checked_mul(b);
            r
        },
        None => {
            assert forall|n: nat| #[trigger] holds(a, n) implies n * b as nat > usize::MAX by {
                assert(n * b as nat >= n) by (nonlinear_arith)
                    requires
                        b >= 1,
                ;
            }
            None
        },
    }
}

/// The size `a + b`.
pub fn plus(a: Option<usize>, b: Option<usize>) -> (r: Option<usize>)
    ensures
        forall|n: nat, m: nat| #[trigger]
            holds(a, n) && #[trigger] holds(b, m) ==> holds(r, n + m),
{
    match (a, b) {
        (Some(x), Some(y)) => x.checked_add(y),
        _ => None,
    }
}

} // verus!
