use std::cell::Cell;
use memoized::Memoized;
use memoized::memoize_rec;
use memoized::fib;
use memoized::fib_deps;
use memoized::fib_step;
use memoized::fib_memoized;

#[test]
fn fib_scenario() {
    let mut m = memoize_rec(fib_deps, fib_step);
    assert_eq!(m.call_cloned(10), 55);
    assert_eq!(m.call_cloned(0), 0);
    assert_eq!(m.call_cloned(1), 1);
}

#[test]
fn fib_matches_plain_recursive() {
    let mut m = memoize_rec(fib_deps, fib_step);
    for n in 0..=30u64 {
        assert_eq!(m.call_cloned(n), fib(n));
    }
}

#[test]
fn fib_memoized_equals_plain() {
    for n in 0..=20u64 {
        assert_eq!(fib_memoized(n), fib(n));
    }
    assert_eq!(fib_memoized(10), 55);
}

#[test]
fn fib_subproblem_sharing_linear_calls() {
    let count = Cell::new(0u64);
    let step = |n: u64, rs: Vec<u64>| {
        count.set(count.get() + 1);
        fib_step(n, rs)
    };
    let mut m = memoize_rec(fib_deps, step);
    assert_eq!(m.call_cloned(30), 832040);
    // one step per distinct subproblem 0..=30, not exponentially many
    assert_eq!(count.get(), 31);
    m.call_cloned(30);
    assert_eq!(count.get(), 31);
    // one more argument costs exactly one more step
    assert_eq!(m.call_cloned(31), 1346269);
    assert_eq!(count.get(), 32);
}

#[test]
fn deps_and_step_shape() {
    assert_eq!(fib_deps(0), Vec::<u64>::new());
    assert_eq!(fib_deps(1), Vec::<u64>::new());
    assert_eq!(fib_deps(2), vec![1, 0]);
    assert_eq!(fib_deps(5), vec![4, 3]);
    assert_eq!(fib_step(0, vec![]), 0);
    assert_eq!(fib_step(1, vec![]), 1);
    assert_eq!(fib_step(7, vec![8, 13]), 21);
    assert_eq!(fib_step(2, vec![u64::MAX, 1]), u64::MAX);
}

#[test]
fn factorial_via_recursive_wrapper() {
    let count = Cell::new(0u32);
    let deps = |n: u32| if n == 0 { Vec::new() } else { vec![n - 1] };
    let step = |n: u32, rs: Vec<u32>| {
        count.set(count.get() + 1);
        if n == 0 { 1 } else { n * rs[0] }
    };
    let mut m = memoize_rec(deps, step);
    assert_eq!(m.call_cloned(10), 3628800);
    assert_eq!(count.get(), 11);
    assert_eq!(m.call_cloned(5), 120);
    assert_eq!(count.get(), 11);
}
