//! Function memoization.
//!
//! A wrapper around a function caches its results keyed by argument, so that
//! repeated calls with a previously seen argument return the stored result
//! instead of recomputing it. Two wrappers are provided: [`memoize_fn`] for plain
//! functions, and [`memoize_rec`] for self-recursive functions, whose
//! recursive calls are themselves served from the same shared cache.

pub mod memo;
pub mod rec;
pub mod fib;
pub mod prime;

pub use memo::Memoized;
pub use memo::Closure;
pub use memo::memoize_fn;
pub use memo::lemma_call_count_bound;
pub use memo::lemma_idempotent;
pub use rec::RecursiveClosure;
pub use rec::memoize_rec;
pub use rec::entry_supported;
pub use rec::descending;
pub use rec::Ranked;
pub use rec::lemma_entry_supported_grows;
pub use rec::lemma_wf_entries_supported;
pub use fib::spec_fib;
pub use fib::fib;
pub use fib::fib_deps;
pub use fib::fib_step;
pub use fib::fib_memoized;
pub use prime::spec_prime;
pub use prime::is_prime;
pub use prime::is_prime_memoized;
