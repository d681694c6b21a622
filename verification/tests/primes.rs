use std::cell::Cell;
use memoized::Memoized;
use memoized::memoize_fn;
use memoized::is_prime;
use memoized::is_prime_memoized;

#[test]
fn prime_scenario() {
    let count = Cell::new(0u32);
    let mut m = memoize_fn(|n: u64| {
        count.set(count.get() + 1);
        is_prime(n)
    });
    assert!(m.call_cloned(7));
    assert!(!m.call_cloned(8));
    // trial division over 2..n finds no divisor for 0 and 1
    assert!(m.call_cloned(1));
    assert!(m.call_cloned(0));
    assert_eq!(count.get(), 4);
    assert!(m.call_cloned(7));
    assert_eq!(count.get(), 4);
}

#[test]
fn is_prime_exact_values() {
    assert!(is_prime(0));
    assert!(is_prime(1));
    assert!(is_prime(2));
    assert!(is_prime(3));
    assert!(!is_prime(4));
    assert!(is_prime(97));
    assert!(!is_prime(91));
    assert!(!is_prime(1000000));
}

#[test]
fn is_prime_memoized_agrees() {
    for n in 0..200u64 {
        assert_eq!(is_prime_memoized(n), is_prime(n));
    }
    assert!(is_prime_memoized(13));
    assert!(!is_prime_memoized(15));
}
