//! A memoized Fibonacci, as a worked example of the recursive wrapper.
use vstd::prelude::*;
use vstd::arithmetic::power2::pow2;
use vstd::arithmetic::power2::lemma_pow2_unfold;
use vstd::arithmetic::power2::lemma_pow2_strictly_increases;
use vstd::arithmetic::power2::lemma2_to64;
use vstd::arithmetic::power2::lemma2_to64_rest;
use crate::rec::memoize_rec;
use crate::rec::lemma_wf_entries_supported;
use crate::rec::entry_supported;
use crate::rec::descending;
use crate::rec::Ranked;
use crate::memo::lemma_call_count_bound;
use crate::memo::Memoized;

verus! {

broadcast use vstd::std_specs::hash::group_hash_axioms;

/// The Fibonacci numbers.
pub open spec fn spec_fib(n: nat) -> nat
    decreases n,
{
    if n < 2 {
        n
    } else {
        spec_fib((n - 1) as nat) + spec_fib((n - 2) as nat)
    }
}

/// The Fibonacci numbers grow no faster than the powers of two.
pub proof fn lemma_fib_bound(n: nat)
    ensures
        spec_fib(n) <= pow2(n),
    decreases n,
{
    if n < 2 {
        lemma2_to64();
    } else {
        lemma_fib_bound((n - 1) as nat);
        lemma_fib_bound((n - 2) as nat);
        lemma_pow2_unfold(n);
        lemma_pow2_strictly_increases((n - 2) as nat, (n - 1) as nat);
    }
}

/// A Fibonacci number for an argument below 64 fits in a `u64`.
pub proof fn lemma_fib_fits(n: nat)
    requires
        n < 64,
    ensures
        spec_fib(n) <= u64::MAX,
{
    lemma_fib_bound(n);
    if n < 63 {
        lemma_pow2_strictly_increases(n, 63);
    }
    lemma2_to64_rest();
}

/// The subproblems of the Fibonacci recursion: none below two, else the two
/// predecessors.
pub fn fib_deps(n: u64) -> (das: Vec<u64>)
    ensures
        n < 2 ==> das@.len() == 0,
        n >= 2 ==> das@.len() == 2 && das@[0] == n - 1 && das@[1] == n - 2,
{
    let mut das: Vec<u64> = Vec::new();
    if n >= 2 {
        das.push(n - 1);
        das.push(n - 2);
    }
    das
}

/// One step of the Fibonacci recursion: an argument below two is its own
/// result; otherwise the two subresults are added, capped at `u64::MAX`.
/// (The cap is never reached for arguments below 64.)
pub fn fib_step(n: u64, rs: Vec<u64>) -> (r: u64)
    ensures
        n < 2 ==> r == n,
        n >= 2 && rs@.len() == 2 ==> r == if rs@[0] + rs@[1] <= u64::MAX {
            (rs@[0] + rs@[1]) as u64
        } else {
            u64::MAX
        },
        n >= 2 && rs@.len() != 2 ==> r == 0,
{
    if n < 2 {
        n
    } else if rs.len() == 2 {
        let x = rs[0];
        let y = rs[1];
        if x <= u64::MAX - y {
            x + y
        } else {
            u64::MAX
        }
    } else {
        0
    }
}

/// Exactness of the memoized Fibonacci: whenever every cached entry is
/// accounted for by functions that behave like [`fib_deps`] and [`fib_step`],
/// each cached entry below 64 holds the exact Fibonacci number.
pub proof fn lemma_fib_cache_exact<D, C>(d: D, c: C, cache: Map<u64, u64>, n: u64) where
    D: Fn(u64) -> Vec<u64>,
    C: Fn(u64, Vec<u64>) -> u64,

    requires
        forall|a: u64, das: Vec<u64>| #[trigger] call_ensures(d, (a,), das) ==> (a < 2 ==> das@.len()
            == 0) && (a >= 2 ==> das@.len() == 2 && das@[0] == a - 1 && das@[1] == a - 2),
        forall|a: u64, rs: Vec<u64>, r: u64| #[trigger] call_ensures(c, (a, rs), r) ==> (a < 2
            ==> r == a) && (a >= 2 && rs@.len() == 2 ==> r == if rs@[0] + rs@[1] <= u64::MAX {
            (rs@[0] + rs@[1]) as u64
        } else {
            u64::MAX
        }),
        forall|a: u64| cache.contains_key(a) ==> #[trigger] entry_supported(d, c, cache, a),
        cache.contains_key(n),
        n < 64,
    ensures
        cache[n] as nat == spec_fib(n as nat),
    decreases n,
{
    assert(entry_supported(d, c, cache, n));
    let (das, rs): (Vec<u64>, Vec<u64>) = choose|das: Vec<u64>, rs: Vec<u64>|
        #![trigger call_ensures(d, (n,), das), call_ensures(c, (n, rs), cache[n])]
        {
            &&& call_ensures(d, (n,), das)
            &&& rs@.len() == das@.len()
            &&& forall|i: int| 0 <= i < das@.len() ==> cache.contains_key(#[trigger] das@[i])
                && cloned::<u64>(cache[das@[i]], rs@[i])
            &&& call_ensures(c, (n, rs), cache[n])
        };
    if n < 2 {
        assert(cache[n] == n);
    } else {
        assert(das@[0] == n - 1 && das@[1] == n - 2);
        lemma_u64_cloned(cache[das@[0]], rs@[0]);
        lemma_u64_cloned(cache[das@[1]], rs@[1]);
        lemma_fib_cache_exact(d, c, cache, (n - 1) as u64);
        lemma_fib_cache_exact(d, c, cache, (n - 2) as u64);
        lemma_fib_fits(n as nat);
        assert(rs@[0] + rs@[1] == spec_fib(n as nat));
    }
}

/// A clone of a `u64` is the `u64` itself.
pub proof fn lemma_u64_cloned(x: u64, y: u64)
    requires
        cloned::<u64>(x, y),
    ensures
        x == y,
{
}

/// Plain recursive Fibonacci, without memoization.
pub fn fib(n: u64) -> (r: u64)
    requires
        n < 64,
    ensures
        r as nat == spec_fib(n as nat),
    decreases n,
{
    if n < 2 {
        n
    } else {
        let a = fib(n - 1);
        let b = fib(n - 2);
        proof {
            lemma_fib_fits(n as nat);
        }
        a + b
    }
}

/// Equivalence with the unmemoized function: computing a Fibonacci number
/// through the recursive wrapper returns exactly the number the plain
/// recursive function returns.
pub fn fib_memoized(n: u64) -> (r: u64)
    requires
        n < 64,
    ensures
        r as nat == spec_fib(n as nat),
{
    proof {
        assert(descending(fib_deps));
    }
    let mut m = memoize_rec(fib_deps, fib_step);
    let r = *m.call_recursive(n);
    proof {
        lemma_wf_entries_supported(&m);
        lemma_fib_cache_exact(m.deps(), m.step(), m.cache(), n);
    }
    r
}

/// Subproblem sharing, counted: every entry the wrapper caches while serving
/// arguments up to `n` has a key of at most `n`, so the step function has run
/// at most `n + 1` times - linearly often, where the plain recursion runs
/// exponentially often.
pub proof fn lemma_fib_linear_calls(cache: Map<u64, u64>, calls: nat, n: u64)
    requires
        calls == cache.dom().len(),
        forall|k: u64| #[trigger] cache.contains_key(k) ==> k <= n,
    ensures
        calls <= n + 1,
{
    assert(cache.dom().subset_of(keys_upto(n))) by {
        assert forall|k: u64| cache.dom().contains(k) implies keys_upto(n).contains(k) by {
            assert(cache.contains_key(k));
        }
    }
    lemma_keys_upto(n);
    lemma_call_count_bound(cache, calls, keys_upto(n));
}

/// The arguments of at most `n`.
pub open spec fn keys_upto(n: u64) -> Set<u64> {
    Set::new(|k: u64| k <= n)
}

/// There are `n + 1` arguments of at most `n`.
pub proof fn lemma_keys_upto(n: u64)
    ensures
        keys_upto(n).finite(),
        keys_upto(n).len() == n + 1,
    decreases n,
{
    if n == 0 {
        assert(keys_upto(0) =~= Set::empty().insert(0u64));
    } else {
        lemma_keys_upto((n - 1) as u64);
        assert(keys_upto(n) =~= keys_upto((n - 1) as u64).insert(n));
    }
}

} // verus!
