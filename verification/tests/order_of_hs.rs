//! The order of `hs` in `Z*_{n²}` is a large divisor of `λ = 2p′q′`.

use paillier::bignum::Natural;
use paillier::keys::{derive_h, derive_hs, KeyError};
use paillier::primes::safe_prime;
use rand::Rng;
use rug::integer::{IsPrime, Order};
use rug::Integer;

fn to_natural(x: &Integer) -> Natural {
    Natural::from_limbs(x.to_digits::<u64>(Order::Lsf))
}

fn to_integer(x: &Natural) -> Integer {
    Integer::from_digits(x.limbs(), Order::Lsf)
}

fn hs_for(x: &Integer, n: &Integer) -> Result<Integer, KeyError> {
    derive_h(&to_natural(x), &to_natural(n))
        .and_then(|h| derive_hs(&h, &to_natural(n)))
        .map(|hs| to_integer(&hs))
}

fn prime(bits: u32) -> Integer {
    to_integer(&safe_prime(bits).expect("the search returns"))
}

/// A random safe prime of `bits` bits for a fixture: the nearest one at
/// or above a random odd start, found by sieving a segment at a time on
/// both `c` and `(c − 1)/2` and testing only the survivors.
fn fixture_safe_prime(bits: u32) -> Integer {
    const SEGMENT: usize = 1 << 16;
    let mut raw = vec![0u8; (bits / 8) as usize];
    rand::thread_rng().fill(&mut raw[..]);
    raw[0] |= 0x80;
    raw[0] &= 0xbf;
    let mut base = Integer::from_digits(&raw, Order::MsfBe);
    let shift = (3 + 4 - base.mod_u(4)) % 4;
    base += shift;
    let mut primes = Vec::new();
    let mut composite = vec![false; 1 << 16];
    for c in 3..(1usize << 16) {
        if c % 2 == 1 && !composite[c] {
            primes.push(c as u64);
            let mut m = c * c;
            while m < composite.len() {
                composite[m] = true;
                m += c;
            }
        }
    }
    loop {
        let mut marked = vec![false; SEGMENT];
        let half0 = Integer::from(&base - 1u32) / 2u32;
        for &s in &primes {
            let inv2 = (s + 1) / 2;
            let inv4 = inv2 * inv2 % s;
            let rc = base.mod_u(s as u32) as u64;
            let mut i = ((s - rc) % s * inv4 % s) as usize;
            while i < SEGMENT {
                marked[i] = true;
                i += s as usize;
            }
            let rh = half0.mod_u(s as u32) as u64;
            let mut i = ((s - rh) % s * inv2 % s) as usize;
            while i < SEGMENT {
                marked[i] = true;
                i += s as usize;
            }
        }
        for (i, dead) in marked.iter().enumerate() {
            if *dead {
                continue;
            }
            let half = Integer::from(&half0 + 2 * i as u32);
            if half.is_probably_prime(40) == IsPrime::No {
                continue;
            }
            let c = Integer::from(&half * 2u32) + 1u32;
            if c.is_probably_prime(40) != IsPrime::No {
                return c;
            }
        }
        base += 4 * SEGMENT as u32;
    }
}

fn order_of(value: &Integer, nn: &Integer, p_half: &Integer, q_half: &Integer) -> Integer {
    let mut order = Integer::from(2u32) * p_half * q_half;
    for divisor in [Integer::from(2u32), p_half.clone(), q_half.clone()] {
        loop {
            let reduced = Integer::from(&order / &divisor);
            if Integer::from(&order % &divisor) != 0
                || value.clone().pow_mod(&reduced, nn).expect("pow_mod") != 1
            {
                break;
            }
            order = reduced;
        }
    }
    order
}

#[test]
fn exhaustively_on_a_toy_key() {
    let (p, q) = (Integer::from(23u32), Integer::from(59u32));
    let p_half = Integer::from(11u32);
    let q_half = Integer::from(29u32);
    let n = Integer::from(&p * &q);
    let nn = Integer::from(&n * &n);

    let allowed = [
        Integer::from(2u32) * &p_half,
        Integer::from(2u32) * &q_half,
        Integer::from(2u32) * &p_half * &q_half,
    ];

    let mut checked = 0usize;
    let mut rejected = 0usize;
    let mut x = Integer::from(2u32);
    let top = Integer::from(&n - 2u32);
    while x <= top {
        match hs_for(&x, &n) {
            Ok(hs) => {
                let order = order_of(&hs, &nn, &p_half, &q_half);
                assert!(allowed.contains(&order), "x = {x} gave order {order}, which is not in the set");
                checked += 1;
            }
            Err(KeyError::BadX) | Err(KeyError::DegenerateHs) => rejected += 1,
            Err(other) => panic!("unexpected error at x = {x}: {other:?}"),
        }
        x += 1u32;
    }

    let total = checked + rejected;
    let expected: usize = (Integer::from(&n - 3u32)).to_usize().expect("it fits");
    assert_eq!(total, expected, "the sweep skipped part of the range");
    assert!(checked * 100 >= total * 80, "accepted {checked} of {total} — the order check saw almost nothing");
    assert!(rejected > 0, "not a single value was refused, which is suspicious");
}

#[test]
fn sampled_on_keys_of_the_real_construction() {
    const KEYS: usize = 12;
    let mut full = 0usize;
    for _ in 0..KEYS {
        let p = prime(256);
        let q = prime(256);
        if p == q {
            continue;
        }
        let p_half = Integer::from(&p - 1u32) / 2u32;
        let q_half = Integer::from(&q - 1u32) / 2u32;
        let n = Integer::from(&p * &q);
        let nn = Integer::from(&n * &n);

        let mut x = Integer::from(3u32);
        let hs = loop {
            match hs_for(&x, &n) {
                Ok(hs) => break hs,
                _ => x += 1u32,
            }
        };
        let order = order_of(&hs, &nn, &p_half, &q_half);
        let lambda = Integer::from(2u32) * &p_half * &q_half;
        if order == lambda {
            full += 1;
        }
    }
    assert_eq!(full, KEYS, "{full} keys of {KEYS} gave the full λ");
}

#[test]
fn one_key_of_production_length() {
    let p = fixture_safe_prime(1024);
    let q = fixture_safe_prime(1024);
    let p_half = Integer::from(&p - 1u32) / 2u32;
    let q_half = Integer::from(&q - 1u32) / 2u32;
    let n = Integer::from(&p * &q);
    let nn = Integer::from(&n * &n);

    let mut x = Integer::from(3u32);
    let hs = loop {
        match hs_for(&x, &n) {
            Ok(hs) => break hs,
            _ => x += 1u32,
        }
    };

    assert_eq!(
        order_of(&hs, &nn, &p_half, &q_half),
        Integer::from(2u32) * &p_half * &q_half
    );
}

#[test]
fn hs_vanishes_at_lambda_on_the_toy_key() {
    // λ = (p − 1)(q − 1)/2 = 22 · 58 / 2 = 638.
    let n = Integer::from(23u32 * 59u32);
    let nn = Integer::from(&n * &n);
    let lambda = Integer::from(638u32);
    let mut seen = 0;
    for candidate in 2u32..200 {
        if let Ok(hs) = hs_for(&Integer::from(candidate), &n) {
            assert_eq!(hs.pow_mod(&lambda, &nn).unwrap(), 1, "x = {candidate}");
            seen += 1;
        }
    }
    assert!(seen > 100);
}
