//! A primality test by trial division, as a worked example for the plain
//! wrapper.
use vstd::prelude::*;
use crate::memo::memoize_fn;
use crate::memo::Memoized;

verus! {

broadcast use vstd::std_specs::hash::group_hash_axioms;

/// Primality as trial division over `2..n` reports it: `n` counts as prime
/// when no `d` with `2 <= d < n` divides it. Note that `0` and `1` count as
/// prime under this definition, since the range is empty for them.
pub open spec fn spec_prime(n: u64) -> bool {
    forall|d: u64| 2 <= d < n ==> #[trigger] (n as int % d as int) != 0
}

/// Trial division over `2..n`.
pub fn is_prime(n: u64) -> (r: bool)
    ensures
        r == spec_prime(n),
{
    let mut d: u64 = 2;
    while d < n
        invariant
            2 <= d,
            forall|k: u64| 2 <= k < d ==> #[trigger] (n as int % k as int) != 0,
        decreases n - d,
    {
        if n % d == 0 {
            proof {
                assert(2 <= d < n && (n as int % d as int) == 0);
            }
            return false;
        }
        d = d + 1;
    }
    true
}

/// The primality test served through the plain wrapper: the cached answer is
/// the exact answer.
pub fn is_prime_memoized(n: u64) -> (r: bool)
    ensures
        r == spec_prime(n),
{
    let f = |k: u64| -> (b: bool)
        ensures
            b == spec_prime(k),
        { is_prime(k) };
    let mut m = memoize_fn(f);
    let r = *m.call(n);
    r
}

} // verus!
