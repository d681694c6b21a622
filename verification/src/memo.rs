//! The memoization capability and the wrapper for plain functions.
use vstd::prelude::*;
use vstd::std_specs::hash::obeys_key_model;
use vstd::set_lib::lemma_len_subset;
use core::hash::Hash;
use std::collections::HashMap;

verus! {

broadcast use vstd::std_specs::hash::group_hash_axioms;

/// A memoized function over arguments `A` producing results `R`.
///
/// A wrapper holds a private cache, modelled by `cache()`, and a private
/// underlying function, modelled by the predicates `pre` (the arguments it
/// accepts) and `post` (what is known of its results). `calls()` counts how
/// often the underlying function has been invoked; it always equals the number
/// of cached entries, so the function runs at most once per distinct argument.
pub trait Memoized<A, R>: Sized where A: Hash + Eq + Copy {
    /// The cached results, as a map from argument to stored result.
    spec fn cache(&self) -> Map<A, R>;

    /// How many times the underlying function has been invoked so far.
    spec fn calls(&self) -> nat;

    /// Internal invariant of the wrapper.
    spec fn wf(&self) -> bool;

    /// Arguments on which the wrapper may be called.
    spec fn pre(&self, a: A) -> bool;

    /// What holds of a result `r` the wrapper returns for argument `a`.
    spec fn post(&self, a: A, r: R) -> bool;

    /// Whether a call caches an entry for the called argument only
    /// (true for the plain wrapper, false for the recursive one, which
    /// also caches every subproblem it had to compute).
    spec fn is_direct(&self) -> bool;

    /// Calls the function with the given argument.
    ///
    /// On a hit the stored result is returned and nothing changes; on a miss
    /// the underlying function computes the result, which is stored and
    /// returned. Returns a reference to the stored result.
    fn call(&mut self, arg: A) -> (r: &R)
        requires
            old(self).wf(),
            old(self).pre(arg),
        ensures
            final(self).wf(),
            final(self).is_direct() == old(self).is_direct(),
            forall|a: A| final(self).pre(a) == old(self).pre(a),
            forall|a: A, x: R| old(self).post(a, x) ==> final(self).post(a, x),
            old(self).is_direct() ==> forall|a: A, x: R| final(self).post(a, x) == old(self).post(
                a,
                x,
            ),
            final(self).cache().contains_key(arg),
            *r == final(self).cache()[arg],
            final(self).post(arg, *r),
            forall|a: A| #[trigger] old(self).cache().contains_key(a) ==> final(self).cache().contains_key(a) && final(self).cache()[a] == old(self).cache()[a],
            forall|a: A| #[trigger] final(self).cache().contains_key(a) ==> final(self).post(
                a,
                final(self).cache()[a],
            ),
            old(self).cache().contains_key(arg) ==> *final(self) == *old(self) && *r == old(
                self,
            ).cache()[arg],
            final(self).calls() == final(self).cache().dom().len(),
            old(self).is_direct() && !old(self).cache().contains_key(arg) ==> final(self).cache()
                == old(self).cache().insert(arg, *r),
    ;

    /// Shortcut for `self.call(arg).clone()` for
    /// result types that can be cloned.
    fn call_cloned(&mut self, arg: A) -> (r: R) where R: Clone
        requires
            old(self).wf(),
            old(self).pre(arg),
        ensures
            final(self).wf(),
            final(self).is_direct() == old(self).is_direct(),
            forall|a: A| final(self).pre(a) == old(self).pre(a),
            forall|a: A, x: R| old(self).post(a, x) ==> final(self).post(a, x),
            old(self).is_direct() ==> forall|a: A, x: R| final(self).post(a, x) == old(self).post(
                a,
                x,
            ),
            final(self).cache().contains_key(arg),
            cloned::<R>(final(self).cache()[arg], r),
            forall|a: A| #[trigger] old(self).cache().contains_key(a) ==> final(self).cache().contains_key(a) && final(self).cache()[a] == old(self).cache()[a],
            forall|a: A| #[trigger] final(self).cache().contains_key(a) ==> final(self).post(
                a,
                final(self).cache()[a],
            ),
            old(self).cache().contains_key(arg) ==> *final(self) == *old(self),
            final(self).calls() == final(self).cache().dom().len(),
            old(self).is_direct() && !old(self).cache().contains_key(arg) ==> final(self).cache()
                == old(self).cache().insert(arg, final(self).cache()[arg]),
    {
        let r = self.call(arg);
        r.clone()
    }
}

/// Memoizes a plain function: wraps it with a cache keyed by its argument.
pub fn memoize_fn<F, A, R>(f: F) -> (m: Closure<A, R, F>) where
    F: Fn(A) -> R,
    A: Hash + Eq + Copy,

    requires
        obeys_key_model::<A>(),
    ensures
        m.wf(),
        m.cache() == Map::<A, R>::empty(),
        m.calls() == 0,
        m.is_direct(),
        forall|a: A| m.pre(a) <==> call_requires(f, (a,)),
        forall|a: A, r: R| m.post(a, r) <==> call_ensures(f, (a,), r),
{
    Closure { f, map: HashMap::new(), count: Ghost(0nat) }
}

/// A memoized non-recursive function with signature `(A) -> R`.
pub struct Closure<A, R, F> {
    f: F,
    map: HashMap<A, R>,
    count: Ghost<nat>,
}

impl<A, R, F> Memoized<A, R> for Closure<A, R, F> where
    A: Hash + Eq + Copy,
    F: Fn(A) -> R,
 {
    closed spec fn cache(&self) -> Map<A, R> {
        self.map@
    }

    closed spec fn calls(&self) -> nat {
        self.count@
    }

    closed spec fn wf(&self) -> bool {
        &&& obeys_key_model::<A>()
        &&& self.count@ == self.map@.dom().len()
        &&& forall|a: A| #[trigger] self.map@.contains_key(a) ==> call_ensures(
            self.f,
            (a,),
            self.map@[a],
        )
    }

    closed spec fn pre(&self, a: A) -> bool {
        call_requires(self.f, (a,))
    }

    closed spec fn post(&self, a: A, r: R) -> bool {
        call_ensures(self.f, (a,), r)
    }

    closed spec fn is_direct(&self) -> bool {
        true
    }

    fn call(&mut self, arg: A) -> (r: &R) {
        if !self.map.contains_key(&arg) {
            let v = (self.f)(arg);
            self.map.insert(arg, v);
            self.count = Ghost(self.count@ + 1);
            proof {
                assert(self.map@.dom() =~= old(self).map@.dom().insert(arg));
            }
        }
        proof {
            if !old(self).map@.contains_key(arg) {
                assert(self.map@ =~= old(self).map@.insert(arg, self.map@[arg]));
            }
        }
        self.map.get(&arg).unwrap()
    }
}

/// Call-count bound: however many calls a wrapper has served, the underlying
/// function has run once per cached entry, so when every cached argument lies
/// in a set `s`, it has run at most `s.len()` times.
pub proof fn lemma_call_count_bound<A, R>(cache: Map<A, R>, calls: nat, s: Set<A>)
    requires
        calls == cache.dom().len(),
        cache.dom().subset_of(s),
        s.finite(),
    ensures
        calls <= s.len(),
{
    lemma_len_subset(cache.dom(), s);
}

/// Idempotence: a result read from the cache never changes afterwards, since
/// the cache only ever grows and an entry, once present, keeps its value. So
/// repeated calls with one argument return equal values.
pub proof fn lemma_idempotent<A, R>(first: Map<A, R>, later: Map<A, R>, a: A, r1: R, r2: R)
    requires
        first.contains_key(a),
        r1 == first[a],
        forall|k: A| first.contains_key(k) ==> later.contains_key(k) && later[k] == first[k],
        r2 == later[a],
    ensures
        r1 == r2,
{
}

} // verus!
