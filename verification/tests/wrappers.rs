use std::cell::Cell;
use memoized::Memoized;
use memoized::memoize_fn;

#[test]
fn cache_hit_returns_first_result_without_reinvoking() {
    let count = Cell::new(0u32);
    let mut m = memoize_fn(|n: u64| {
        count.set(count.get() + 1);
        n * 2
    });
    let first = *m.call(21);
    assert_eq!(first, 42);
    assert_eq!(count.get(), 1);
    let second = *m.call(21);
    assert_eq!(second, 42);
    assert_eq!(count.get(), 1);
    assert_eq!(m.call_cloned(21), 42);
    assert_eq!(count.get(), 1);
}

#[test]
fn call_count_bounded_by_distinct_arguments() {
    let count = Cell::new(0u32);
    let mut m = memoize_fn(|n: u64| {
        count.set(count.get() + 1);
        n % 3
    });
    let args = [1u64, 2, 3, 1, 2, 3, 1, 2, 3, 3, 2, 1];
    for a in args {
        m.call(a);
    }
    assert_eq!(count.get(), 3);
}

#[test]
fn idempotent_repeated_calls() {
    let mut m = memoize_fn(|n: u64| n + 7);
    let a = m.call_cloned(5);
    let b = m.call_cloned(5);
    let c = *m.call(5);
    assert_eq!(a, b);
    assert_eq!(b, c);
    assert_eq!(a, 12);
}

#[test]
fn independent_instances_have_disjoint_caches() {
    let count = Cell::new(0u32);
    let f = |n: u64| {
        count.set(count.get() + 1);
        n + 1
    };
    let mut m1 = memoize_fn(f);
    let mut m2 = memoize_fn(f);
    assert_eq!(m1.call_cloned(9), 10);
    assert_eq!(count.get(), 1);
    assert_eq!(m2.call_cloned(9), 10);
    assert_eq!(count.get(), 2);
    assert_eq!(m1.call_cloned(9), 10);
    assert_eq!(m2.call_cloned(9), 10);
    assert_eq!(count.get(), 2);
}

#[test]
fn extreme_keys_are_cached_like_any_other() {
    let count = Cell::new(0u32);
    let mut m = memoize_fn(|n: u64| {
        count.set(count.get() + 1);
        n / 2
    });
    assert_eq!(m.call_cloned(u64::MAX), u64::MAX / 2);
    assert_eq!(m.call_cloned(0), 0);
    assert_eq!(m.call_cloned(u64::MAX), u64::MAX / 2);
    assert_eq!(count.get(), 2);
}
