use ed25519::primes::is_prime;

#[test]
fn test_is_prime_small() {
    let primes = [2u64, 3, 5, 7, 11, 13, 17, 19];
    for &p in primes.iter() {
        assert!(is_prime(p), "expected {} to be prime", p);
    }
    for &c in [0u64, 1, 4, 6, 8, 9, 10, 12, 14, 15, 16, 18].iter() {
        assert!(!is_prime(c), "expected {} to be composite", c);
    }
}

#[test]
fn larger_primes_and_composites() {
    assert!(is_prime(7919));
    assert!(is_prime(104729));
    assert!(!is_prime(7917));
    assert!(!is_prime(104730));
    assert!(!is_prime(121));
    assert!(is_prime(2147483647));
}
