//! The sieve returns exactly the odd primes up to its bound.

use paillier::primes::{small_primes, SIEVE_LIMIT};

/// Trial division: an independent judge, not the same sieve.
fn is_prime_by_division(value: u32) -> bool {
    if value < 2 {
        return false;
    }
    let mut divisor = 2u32;
    while divisor * divisor <= value {
        if value % divisor == 0 {
            return false;
        }
        divisor += 1;
    }
    true
}

#[test]
fn sieve_returns_exactly_the_odd_primes() {
    let sieve = small_primes();
    for value in &sieve {
        assert!(is_prime_by_division(*value), "composite {value} in the list");
        assert!(value % 2 == 1, "even {value} in the list");
    }
    let mut expected = Vec::new();
    let mut value = 3u32;
    while value <= SIEVE_LIMIT {
        if is_prime_by_division(value) {
            expected.push(value);
        }
        value += 2;
    }
    assert_eq!(sieve, expected, "sieve and trial division disagree");
}

#[test]
fn the_sieve_starts_at_three_and_ends_below_the_bound() {
    let sieve = small_primes();
    assert_eq!(&sieve[..5], &[3u32, 5, 7, 11, 13][..]);
    assert_eq!(*sieve.last().unwrap(), 4093);
    // π(4096) = 564 primes up to the bound, two excluded.
    assert_eq!(sieve.len(), 563);
}
