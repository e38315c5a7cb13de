//! The Fermat threshold: a key the check refuses really does factor by
//! Fermat's method, and an ordinary key passes.

use paillier::bignum::Natural;
use paillier::keys::{validate_private, KeyError};
use rand::Rng;
use rug::integer::{IsPrime, Order};
use rug::Integer;

const PRIME_BITS: u32 = 1024;

fn to_natural(x: &Integer) -> Natural {
    Natural::from_limbs(x.to_digits::<u64>(Order::Lsf))
}

fn validate(p: &Integer, q: &Integer) -> Result<(), KeyError> {
    validate_private(&to_natural(p), &to_natural(q)).map(|_| ())
}

fn random_odd(bits: u32) -> Integer {
    let mut rng = rand::thread_rng();
    let width = (bits / 8) as usize;
    let mut raw = vec![0u8; width];
    rng.fill(&mut raw[..]);
    raw[0] |= 0x80;
    let last = width - 1;
    raw[last] |= 1;
    Integer::from_digits(&raw, Order::MsfBe)
}

/// The odd primes below `limit`.
fn sieving_primes(limit: u32) -> Vec<u32> {
    let mut composite = vec![false; limit as usize];
    let mut out = Vec::new();
    for c in 3..limit {
        if c % 2 == 1 && !composite[c as usize] {
            out.push(c);
            let mut m = c as usize * c as usize;
            while m < limit as usize {
                composite[m] = true;
                m += c as usize;
            }
        }
    }
    out
}

/// The nearest safe prime at or above `start` (far above the sieving
/// primes). Candidates `c ≡ 3 (mod 4)` are sieved a segment at a time on
/// both `c` and `(c − 1)/2`, and only the survivors are tested.
fn safe_prime_at_or_above(start: &Integer) -> Integer {
    const SEGMENT: usize = 1 << 16;
    let primes = sieving_primes(1 << 16);
    let mut base = start.clone();
    let shift = (3 + 4 - base.mod_u(4)) % 4;
    base += shift;
    loop {
        let mut marked = vec![false; SEGMENT];
        let half0 = Integer::from(&base - 1u32) / 2u32;
        for &s in &primes {
            let s64 = s as u64;
            let inv2 = (s64 + 1) / 2;
            let inv4 = inv2 * inv2 % s64;
            // c_i = base + 4i ≡ 0  ⇔  i ≡ −base · 4⁻¹ (mod s).
            let rc = base.mod_u(s) as u64;
            let mut i = ((s64 - rc) % s64 * inv4 % s64) as usize;
            while i < SEGMENT {
                marked[i] = true;
                i += s as usize;
            }
            // h_i = half0 + 2i ≡ 0  ⇔  i ≡ −half0 · 2⁻¹ (mod s).
            let rh = half0.mod_u(s) as u64;
            let mut i = ((s64 - rh) % s64 * inv2 % s64) as usize;
            while i < SEGMENT {
                marked[i] = true;
                i += s as usize;
            }
        }
        for (i, dead) in marked.iter().enumerate() {
            if *dead {
                continue;
            }
            let half = Integer::from(&half0 + 2 * i as u32);
            if half.is_probably_prime(40) == IsPrime::No {
                continue;
            }
            let c = Integer::from(&half * 2u32) + 1u32;
            if c.is_probably_prime(40) != IsPrime::No {
                return c;
            }
        }
        base += 4 * SEGMENT as u32;
    }
}

fn fermat(n: &Integer, budget: u64) -> Option<(Integer, u64)> {
    let mut a = n.clone().sqrt();
    if Integer::from(&a * &a) < *n {
        a += 1;
    }
    for step in 0..budget {
        let b2 = Integer::from(&a * &a) - n;
        if b2.is_perfect_square() {
            let b = b2.sqrt();
            return Some((Integer::from(&a - &b), step));
        }
        a += 1;
    }
    None
}

#[test]
fn the_refused_key_really_does_factor_by_fermat() {
    let p = safe_prime_at_or_above(&random_odd(PRIME_BITS));

    let threshold_bits = PRIME_BITS / 2 + 8;
    let gap = Integer::from(1) << (threshold_bits - 1);
    let margin = Integer::from(1) << 24;
    let target = Integer::from(&p - &gap) - margin;
    let q = safe_prime_at_or_above(&target);

    let verdict = validate(&p, &q);
    assert_eq!(
        verdict,
        Err(KeyError::PrimesTooClose),
        "a key that Fermat factors in a few thousand steps must be refused",
    );

    let n = Integer::from(&p * &q);
    let (factor, _steps) = fermat(&n, 100_000_000).expect("Fermat must succeed");
    assert!(factor == p || factor == q);
}

fn safe_prime_at_gap(p: &Integer, gap_bits: u32) -> Integer {
    let gap = Integer::from(1) << (gap_bits - 1);
    let margin = Integer::from(1) << 24;
    safe_prime_at_or_above(&(Integer::from(p - &gap) - margin))
}

#[test]
fn the_threshold_is_pinned_by_number_on_both_sides() {
    let threshold = PRIME_BITS - 100;
    let p = safe_prime_at_or_above(&random_odd(PRIME_BITS));

    let just_below = safe_prime_at_gap(&p, threshold - 1);
    let just_above = safe_prime_at_gap(&p, threshold + 1);

    let below_bits = Integer::from(&p - &just_below).abs().significant_bits();
    let above_bits = Integer::from(&p - &just_above).abs().significant_bits();
    assert!(below_bits < threshold, "the lower sample must be below the threshold");
    assert!(above_bits >= threshold, "the upper sample must be at or above it");

    assert_eq!(
        validate(&p, &just_below),
        Err(KeyError::PrimesTooClose),
        "a difference one bit below the threshold must be refused",
    );
    assert!(
        validate(&p, &just_above).is_ok(),
        "a difference one bit above the threshold must be accepted",
    );
}

#[test]
fn a_normal_key_has_a_prime_gap_of_nearly_full_length() {
    let p = safe_prime_at_or_above(&random_odd(PRIME_BITS));
    let q = safe_prime_at_or_above(&random_odd(PRIME_BITS));
    assert!(validate(&p, &q).is_ok());
}

#[test]
fn each_refusal_of_our_own_key_has_its_input() {
    // 2^1023 + small offsets give primes of 1024 bits; 23 and 59 are safe
    // but short.
    assert_eq!(validate(&Integer::from(23), &Integer::from(59)), Err(KeyError::ModulusTooShort));
    // p ≡ 1 (mod 4) with (p − 1)/2 even: not safe, refused first.
    let mut p = Integer::from(1) << 1023u32;
    p += 1u32;
    let q = safe_prime_at_or_above(&random_odd(PRIME_BITS));
    assert_eq!(validate(&p, &q), Err(KeyError::NotSafePrimes));
}
