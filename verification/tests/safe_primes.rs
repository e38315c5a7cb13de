//! The generator must produce safe primes of exactly the requested
//! length.

use paillier::bignum::Natural;
use paillier::keys::validate_private;
use paillier::primes::{safe_prime, safe_prime_from, small_primes};
use rug::integer::{IsPrime, Order};
use rug::Integer;

const BITS: u32 = 128;

fn to_integer(x: &Natural) -> Integer {
    Integer::from_digits(x.limbs(), Order::Lsf)
}

fn prime(bits: u32) -> Integer {
    to_integer(&safe_prime(bits).expect("the search returns"))
}

#[test]
fn yields_safe_primes_of_the_requested_length() {
    for _ in 0..8 {
        let p = prime(BITS);

        assert_eq!(p.significant_bits(), BITS, "the length is exactly as asked");
        assert_ne!(p.is_probably_prime(40), IsPrime::No, "p itself must be prime");
        let half = Integer::from(&p - 1u32) / 2u32;
        assert_ne!(
            half.is_probably_prime(40),
            IsPrime::No,
            "(p-1)/2 must be prime — otherwise the prime is not safe",
        );
        assert_eq!(p.clone() % 4u32, 3, "Blum-ness comes for free");
    }
}

#[test]
fn two_in_a_row_differ() {
    let first = prime(BITS);
    let second = prime(BITS);

    assert_ne!(first, second);
}

#[test]
fn returns_at_small_sizes() {
    for bits in [8u32, 9, 10, 12, 13, 14, 16] {
        let p = prime(bits);
        assert_eq!(p.significant_bits(), bits, "size {bits}");
        let half = Integer::from(&p - 1u32) / 2u32;
        assert_ne!(half.is_probably_prime(40), IsPrime::No, "size {bits}");
    }
}

#[test]
fn the_smallest_size_gives_a_safe_prime_between_128_and_255() {
    // Eight bits: the safe primes there are 167, 179, 227 and 263 is too
    // long — so the answer is one of the first three.
    for _ in 0..16 {
        let p = prime(8);
        assert!([167u32, 179, 227].iter().any(|v| p == *v), "got {p}");
    }
}

#[test]
fn a_candidate_that_passes_gives_twice_it_plus_one() {
    let sieve = small_primes();
    for (half, p) in [(5u64, 11u32), (83, 167), (89, 179), (113, 227)] {
        let got = safe_prime_from(&sieve, &Natural::from_u64(half)).expect("a safe prime");
        assert_eq!(to_integer(&got), p, "from {half}");
    }
}

#[test]
fn a_candidate_that_fails_gives_nothing() {
    let sieve = small_primes();
    // 67 is prime but 135 = 5 · 27; 91 = 7 · 13; 97 is prime but 195 = 3 · 65.
    for half in [67u64, 91, 97, 1] {
        assert!(safe_prime_from(&sieve, &Natural::from_u64(half)).is_none(), "from {half}");
    }
}

#[test]
fn a_key_from_our_primes_passes_validation() {
    // End to end: what the generator produces must pass
    // `validate_private`.
    let p = safe_prime(1024).expect("the search returns");
    let q = safe_prime(1024).expect("the search returns");

    assert!(
        validate_private(&p, &q).is_ok(),
        "our generator must produce what our own check accepts",
    );
}
