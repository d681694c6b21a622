//! The wrapper for recursive functions.
//!
//! A recursive function is supplied in open-recursion form, as a pair of
//! functions instead of one self-referring one: `d` names the arguments the
//! recursive callback would be invoked on, and `c` combines the callback's
//! results into the final result. The wrapper owns the shared cache and plays
//! the callback itself: it resolves every subproblem against the cache,
//! computing and caching the missing ones first, so that every recursive
//! step - however deep - is served from one shared cache and the combining
//! function runs at most once per distinct argument.
use vstd::prelude::*;
use vstd::std_specs::hash::obeys_key_model;
use core::hash::Hash;
use std::collections::HashMap;
use crate::memo::Memoized;

verus! {

broadcast use vstd::std_specs::hash::group_hash_axioms;

/// An argument type with a well-founded rank. A recursive function must only
/// recurse on subproblems of smaller rank, which bounds the recursion's depth.
pub trait Ranked: Sized {
    /// The rank of this argument.
    spec fn rank(self) -> nat;
}

impl Ranked for u8 {
    open spec fn rank(self) -> nat {
        self as nat
    }
}

impl Ranked for u16 {
    open spec fn rank(self) -> nat {
        self as nat
    }
}

impl Ranked for u32 {
    open spec fn rank(self) -> nat {
        self as nat
    }
}

impl Ranked for u64 {
    open spec fn rank(self) -> nat {
        self as nat
    }
}

impl Ranked for usize {
    open spec fn rank(self) -> nat {
        self as nat
    }
}

/// Holds when `d` only ever names subproblems of smaller rank than the
/// argument it was applied to.
pub open spec fn descending<A, D>(d: D) -> bool where
    A: Ranked,
    D: Fn(A) -> Vec<A>,
 {
    forall|a: A, das: Vec<A>| #[trigger] call_ensures(d, (a,), das) ==> forall|i: int|
        0 <= i < das@.len() ==> (#[trigger] das@[i]).rank() < a.rank()
}

/// Holds when the cached entry for `a` is accounted for by one run of the
/// wrapped function: `d` named the subproblems `das`, every subproblem is
/// cached, and the entry stores what `c` returned for `a` and clones `rs` of
/// the subproblems' cached results.
pub open spec fn entry_supported<A, R, D, C>(d: D, c: C, cache: Map<A, R>, a: A) -> bool where
    A: Hash + Eq + Copy,
    R: Clone,
    D: Fn(A) -> Vec<A>,
    C: Fn(A, Vec<R>) -> R,
 {
    exists|das: Vec<A>, rs: Vec<R>|
        #![trigger call_ensures(d, (a,), das), call_ensures(c, (a, rs), cache[a])]
        {
            &&& call_ensures(d, (a,), das)
            &&& rs@.len() == das@.len()
            &&& forall|i: int| 0 <= i < das@.len() ==> cache.contains_key(#[trigger] das@[i])
                && cloned::<R>(cache[das@[i]], rs@[i])
            &&& call_ensures(c, (a, rs), cache[a])
        }
}

/// A supported entry stays supported when the cache grows, since entries are
/// never removed or updated.
pub proof fn lemma_entry_supported_grows<A, R, D, C>(
    d: D,
    c: C,
    small: Map<A, R>,
    big: Map<A, R>,
    a: A,
) where A: Hash + Eq + Copy, R: Clone, D: Fn(A) -> Vec<A>, C: Fn(A, Vec<R>) -> R
    requires
        entry_supported(d, c, small, a),
        small.contains_key(a),
        forall|k: A| #[trigger] small.contains_key(k) ==> big.contains_key(k) && big[k]
            == small[k],
    ensures
        entry_supported(d, c, big, a),
{
    let (das, rs): (Vec<A>, Vec<R>) = choose|das: Vec<A>, rs: Vec<R>|
        #![trigger call_ensures(d, (a,), das), call_ensures(c, (a, rs), small[a])]
        {
            &&& call_ensures(d, (a,), das)
            &&& rs@.len() == das@.len()
            &&& forall|i: int| 0 <= i < das@.len() ==> small.contains_key(#[trigger] das@[i])
                && cloned::<R>(small[das@[i]], rs@[i])
            &&& call_ensures(c, (a, rs), small[a])
        };
    assert(call_ensures(c, (a, rs), big[a]));
    assert(forall|i: int| 0 <= i < das@.len() ==> big.contains_key(#[trigger] das@[i])
        && cloned::<R>(big[das@[i]], rs@[i]));
}

/// A memoized recursive function: `d` gives the subproblems of an argument,
/// `c` combines their results.
pub struct RecursiveClosure<A, R, D, C> {
    d: D,
    c: C,
    map: HashMap<A, R>,
    count: Ghost<nat>,
}

impl<A, R, D, C> RecursiveClosure<A, R, D, C> where
    A: Hash + Eq + Copy + Ranked,
    R: Clone,
    D: Fn(A) -> Vec<A>,
    C: Fn(A, Vec<R>) -> R,
 {
    /// The function giving each argument's subproblems.
    pub closed spec fn deps(&self) -> D {
        self.d
    }

    /// The function combining the subproblems' results.
    pub closed spec fn step(&self) -> C {
        self.c
    }

    /// Computes and caches the entry for `a`, if absent, resolving every
    /// missing subproblem first by the same procedure.
    fn compute(&mut self, a: A)
        requires
            old(self).wf(),
        ensures
            final(self).wf(),
            final(self).d == old(self).d,
            final(self).c == old(self).c,
            final(self).map@.contains_key(a),
            forall|k: A| #[trigger] old(self).map@.contains_key(k) ==> final(self).map@.contains_key(k) && final(self).map@[k] == old(self).map@[k],
            forall|k: A| #[trigger] final(self).map@.contains_key(k) ==> old(self).map@.contains_key(k) || k.rank() <= a.rank(),
            old(self).map@.contains_key(a) ==> *final(self) == *old(self),
        decreases a.rank(),
    {
        if !self.map.contains_key(&a) {
            let das = (self.d)(a);
            let mut i: usize = 0;
            while i < das.len()
                invariant
                    self.wf(),
                    self.d == old(self).d,
                    self.c == old(self).c,
                    call_ensures(self.d, (a,), das),
                    i <= das@.len(),
                    !self.map@.contains_key(a),
                    forall|k: int| 0 <= k < i ==> self.map@.contains_key(#[trigger] das@[k]),
                    forall|k: A| #[trigger] old(self).map@.contains_key(k)
                        ==> self.map@.contains_key(k) && self.map@[k] == old(self).map@[k],
                    forall|k: A| #[trigger] self.map@.contains_key(k) ==> old(self).map@.contains_key(k) || k.rank() < a.rank(),
                decreases das@.len() - i,
            {
                self.compute(das[i]);
                i = i + 1;
            }
            let mut rs: Vec<R> = Vec::new();
            let mut j: usize = 0;
            while j < das.len()
                invariant
                    self.wf(),
                    j <= das@.len(),
                    rs@.len() == j,
                    forall|k: int| 0 <= k < das@.len() ==> self.map@.contains_key(
                        #[trigger] das@[k],
                    ),
                    forall|k: int| 0 <= k < j ==> cloned::<R>(
                        self.map@[das@[k]],
                        #[trigger] rs@[k],
                    ),
                decreases das@.len() - j,
            {
                let v = self.map.get(&das[j]).unwrap();
                rs.push(v.clone());
                j = j + 1;
            }
            let ghost pre_map = self.map@;
            let ghost rs_snap = rs;
            let v = (self.c)(a, rs);
            self.map.insert(a, v);
            self.count = Ghost(self.count@ + 1);
            proof {
                assert(self.map@.dom() =~= pre_map.dom().insert(a));
                assert(call_ensures(self.c, (a, rs_snap), self.map@[a]));
                assert(entry_supported(self.d, self.c, self.map@, a));
                assert forall|k: A| #[trigger] self.map@.contains_key(k) implies entry_supported(
                    self.d,
                    self.c,
                    self.map@,
                    k,
                ) by {
                    if k != a {
                        lemma_entry_supported_grows(self.d, self.c, pre_map, self.map@, k);
                    }
                }
            }
        }
    }

    /// Serves `arg` from the shared cache. On a miss, first resolves every
    /// subproblem the recursion reaches - each served from the same cache -
    /// then computes and caches the entry for `arg`. Returns a reference to
    /// the stored result.
    pub fn call_recursive(&mut self, arg: A) -> (r: &R)
        requires
            old(self).wf(),
        ensures
            final(self).wf(),
            final(self).deps() == old(self).deps(),
            final(self).step() == old(self).step(),
            final(self).cache().contains_key(arg),
            *r == final(self).cache()[arg],
            forall|a: A| #[trigger] old(self).cache().contains_key(a) ==> final(self).cache().contains_key(a) && final(self).cache()[a] == old(self).cache()[a],
            forall|a: A| #[trigger] final(self).cache().contains_key(a) ==> entry_supported(
                final(self).deps(),
                final(self).step(),
                final(self).cache(),
                a,
            ),
            forall|a: A| #[trigger] final(self).cache().contains_key(a) ==> old(self).cache().contains_key(a) || a.rank() <= arg.rank(),
            old(self).cache().contains_key(arg) ==> *final(self) == *old(self),
            final(self).calls() == final(self).cache().dom().len(),
    {
        self.compute(arg);
        self.map.get(&arg).unwrap()
    }
}

/// A well-formed recursive wrapper's cache holds only supported entries.
pub proof fn lemma_wf_entries_supported<A, R, D, C>(m: &RecursiveClosure<A, R, D, C>) where
    A: Hash + Eq + Copy + Ranked,
    R: Clone,
    D: Fn(A) -> Vec<A>,
    C: Fn(A, Vec<R>) -> R,

    requires
        m.wf(),
    ensures
        forall|a: A| m.cache().contains_key(a) ==> #[trigger] entry_supported(
            m.deps(),
            m.step(),
            m.cache(),
            a,
        ),
{
}

/// Memoizes a recursive function, given in open-recursion form.
///
/// `d` yields, for an argument, the arguments the function recurses on; `c`
/// computes the function's result for an argument from the recursive calls'
/// results, in the order `d` gave them. The returned wrapper serves every
/// recursive step from one shared cache, so overlapping subproblems are
/// computed once. `d` must be [`descending`]: subproblems have smaller rank
/// than their argument, so the recursion is well founded.
pub fn memoize_rec<A, R, D, C>(d: D, c: C) -> (m: RecursiveClosure<A, R, D, C>) where
    A: Hash + Eq + Copy + Ranked,
    R: Clone,
    D: Fn(A) -> Vec<A>,
    C: Fn(A, Vec<R>) -> R,

    requires
        obeys_key_model::<A>(),
        forall|a: A| call_requires(d, (a,)),
        forall|a: A, rs: Vec<R>| call_requires(c, (a, rs)),
        descending(d),
    ensures
        m.wf(),
        m.cache() == Map::<A, R>::empty(),
        m.calls() == 0,
        !m.is_direct(),
        m.deps() == d,
        m.step() == c,
        forall|a: A| m.pre(a),
{
    RecursiveClosure { d, c, map: HashMap::new(), count: Ghost(0nat) }
}

impl<A, R, D, C> Memoized<A, R> for RecursiveClosure<A, R, D, C> where
    A: Hash + Eq + Copy + Ranked,
    R: Clone,
    D: Fn(A) -> Vec<A>,
    C: Fn(A, Vec<R>) -> R,
 {
    closed spec fn cache(&self) -> Map<A, R> {
        self.map@
    }

    closed spec fn calls(&self) -> nat {
        self.count@
    }

    closed spec fn wf(&self) -> bool {
        &&& obeys_key_model::<A>()
        &&& self.count@ == self.map@.dom().len()
        &&& (forall|a: A| call_requires(self.d, (a,)))
        &&& (forall|a: A, rs: Vec<R>| call_requires(self.c, (a, rs)))
        &&& descending(self.d)
        &&& forall|a: A| #[trigger] self.map@.contains_key(a) ==> entry_supported(
            self.d,
            self.c,
            self.map@,
            a,
        )
    }

    closed spec fn pre(&self, a: A) -> bool {
        true
    }

    closed spec fn post(&self, a: A, r: R) -> bool {
        self.map@.contains_key(a) && r == self.map@[a] && entry_supported(
            self.d,
            self.c,
            self.map@,
            a,
        )
    }

    closed spec fn is_direct(&self) -> bool {
        false
    }

    fn call(&mut self, arg: A) -> (r: &R) {
        self.call_recursive(arg)
    }
}

} // verus!
