//! Counters.

use vstd::prelude::*;

verus! {

/// A counter after one more, as far as it fits.
pub open spec fn up(n: usize) -> usize {
    if n < usize::MAX {
        (n + 1) as usize
    } else {
        n
    }
}

/// A sum of bytes, as far as it fits.
pub open spec fn sum(a: u64, b: u64) -> u64 {
    if a + b <= u64::MAX {
        (a + b) as u64
    } else {
        u64::MAX
    }
}

/// Counts one more.
pub fn count_up(n: usize) -> (r: usize)
    ensures
        r == up(n),
{
    n.saturating_add(1)
}

/// Sums up bytes.
pub fn sum_up(a: u64, b: u64) -> (r: u64)
    ensures
        r == sum(a, b),
{
    a.saturating_add(b)
}

// -- Laws -------------------------------------------------------------------

/// A count or a sum is exact as long as it fits, and never goes down.
pub proof fn counts_are_exact_while_they_fit(n: usize, a: u64, b: u64)
    ensures
        n < usize::MAX ==> up(n) == n + 1,
        up(n) >= n,
        a + b <= u64::MAX ==> sum(a, b) == a + b,
        sum(a, b) >= a && sum(a, b) >= b,
        sum(a, b) == sum(b, a),
{
}

} // verus!
