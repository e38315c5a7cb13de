//! Safe primes are the principal check on our key: a key with smooth
//! `λ`, refused by that check, gives up its plaintext from `n` alone.

use paillier::bignum::Natural;
use paillier::keys::{
    derive_h, derive_hs, validate_private, validate_public, KeyError, MIN_MODULUS_BITS,
};
use rand::seq::SliceRandom;
use rand::Rng;
use rug::integer::{IsPrime, Order};
use rug::ops::RemRounding;
use rug::Integer;

fn to_natural(x: &Integer) -> Natural {
    Natural::from_limbs(x.to_digits::<u64>(Order::Lsf))
}

fn to_integer(x: &Natural) -> Integer {
    Integer::from_digits(x.limbs(), Order::Lsf)
}

fn small_primes(from: u32, to: u32) -> Vec<u32> {
    (from..to)
        .filter(|c| Integer::from(*c).is_probably_prime(30) != IsPrime::No)
        .collect()
}

fn smooth_blum_prime(pool: &[u32], target_bits: u32) -> (Integer, Vec<u32>) {
    let mut rng = rand::thread_rng();
    loop {
        let mut chosen: Vec<u32> = Vec::new();
        let mut s = Integer::from(1);
        let mut shuffled = pool.to_vec();
        shuffled.shuffle(&mut rng);
        for prime in shuffled {
            if s.significant_bits() >= target_bits {
                break;
            }
            chosen.push(prime);
            s *= prime;
        }
        let candidate = Integer::from(&s * 2u32) + 1u32;
        if candidate.is_probably_prime(40) != IsPrime::No {
            assert_eq!(candidate.clone() % 4u32, 3);
            chosen.sort_unstable();
            return (candidate, chosen);
        }
    }
}

fn pollard_p_minus_1(n: &Integer, bound: u32) -> Option<Integer> {
    let mut base = Integer::from(2);
    for k in 2..=bound {
        base = base.pow_mod(&Integer::from(k), n).ok()?;
        if k % 512 == 0 {
            let divisor = Integer::from(&base - 1u32).gcd(n);
            if divisor > 1 && divisor < *n {
                return Some(divisor);
            }
        }
    }
    let divisor = Integer::from(&base - 1u32).gcd(n);
    if divisor > 1 && divisor < *n {
        Some(divisor)
    } else {
        None
    }
}

#[test]
fn the_length_floor_applies_to_the_owner_too() {
    let p = Integer::from(23);
    let q = Integer::from(59);

    assert_eq!(
        validate_private(&to_natural(&p), &to_natural(&q)).map(|_| ()),
        Err(KeyError::ModulusTooShort)
    );
}

#[test]
fn a_short_modulus_is_refused_on_import() {
    let n = (Integer::from(1) << 2000u32) + 1u32;

    assert_eq!(validate_public(&to_natural(&n)), Err(KeyError::ModulusTooShort));
}

#[test]
fn an_over_long_modulus_is_refused() {
    let n = (Integer::from(1) << 9000u32) + 1u32;

    assert_eq!(validate_public(&to_natural(&n)), Err(KeyError::ModulusTooLong));
}

#[test]
fn a_modulus_of_normal_length_is_accepted() {
    let n = (Integer::from(1) << 3071u32) + 1u32;

    assert_eq!(validate_public(&to_natural(&n)), Ok(()));
}

#[test]
fn a_modulus_one_bit_below_nominal_is_accepted() {
    // 2047 bits: the product of two 1024-bit primes lands there too.
    let n = (Integer::from(1) << 2046u32) + 1u32;
    assert_eq!(validate_public(&to_natural(&n)), Ok(()));
    let n = (Integer::from(1) << 2045u32) + 1u32;
    assert_eq!(validate_public(&to_natural(&n)), Err(KeyError::ModulusTooShort));
}

#[test]
fn a_key_with_smooth_lambda_gives_up_the_plaintext() {
    let (p, factors_p) = smooth_blum_prime(&small_primes(3, 30_000), 1030);
    let (q, factors_q) = smooth_blum_prime(&small_primes(30_000, 65_000), 1050);
    assert!(
        factors_p.iter().all(|f| !factors_q.contains(f)),
        "the factor pools must not overlap",
    );

    let n = Integer::from(&p * &q);
    let nn = Integer::from(&n * &n);

    assert!(n.significant_bits() >= MIN_MODULUS_BITS, "the length must not be the reason");
    assert_eq!(p.clone() % 4u32, 3);
    assert_eq!(q.clone() % 4u32, 3);
    assert_eq!(Integer::from(&p - 1u32).gcd(&Integer::from(&q - 1u32)), 2);
    let difference = Integer::from(&p - &q).abs();
    assert!(
        difference.significant_bits() + 100 >= p.significant_bits().max(q.significant_bits()),
        "the primes must not be close",
    );
    assert_eq!(
        validate_private(&to_natural(&p), &to_natural(&q)).map(|_| ()),
        Err(KeyError::NotSafePrimes),
        "a key with smooth λ must be refused",
    );

    let x = Integer::from(&n / 3u32) + 12345u32;
    let h = derive_h(&to_natural(&x), &to_natural(&n)).expect("h");
    let hs = to_integer(&derive_hs(&h, &to_natural(&n)).expect("hs"));
    let exponent_bits = n.significant_bits() / 2;
    let mut raw = vec![0u8; ((exponent_bits + 7) / 8) as usize];
    rand::thread_rng().fill(&mut raw[..]);
    let r = Integer::from_digits(&raw, Order::MsfBe);
    let secret = Integer::from(4_242_424_242u64);
    let cipher = (Integer::from(1 + secret.clone() * &n) * hs.clone().pow_mod(&r, &nn).unwrap())
        % nn.clone();

    let factor = pollard_p_minus_1(&n, 70_000).expect("Pollard must succeed");
    let other = Integer::from(&n / &factor);
    assert_eq!(Integer::from(&factor * &other), n, "the divisor is genuine");

    let lambda = Integer::from(&factor - 1u32).lcm(&Integer::from(&other - 1u32));
    let numerator = cipher.clone().pow_mod(&lambda, &nn).unwrap();
    let l_value = Integer::from(&numerator - 1u32) / &n;
    let mu = Integer::from(&lambda % &n).invert(&n).expect("gcd(λ, n) = 1");
    let plain = (l_value * mu).rem_euc(n.clone());

    assert_eq!(plain, secret, "the plaintext must come out — that is the point of the refusal above");
}

#[test]
fn the_safety_of_the_primes_is_judged_before_the_length() {
    // 13 is not safe ((13 − 1)/2 = 6), and the key is short as well: the
    // safe-prime refusal is the one the caller sees.
    let p = Integer::from(13);
    let q = Integer::from(23);

    assert_eq!(
        validate_private(&to_natural(&p), &to_natural(&q)).map(|_| ()),
        Err(KeyError::NotSafePrimes)
    );
}

#[test]
fn an_even_modulus_is_refused_on_import() {
    let n = Integer::from(1) << 3071u32;

    assert_eq!(validate_public(&to_natural(&n)), Err(KeyError::ModulusEven));
}

#[test]
fn each_refusal_has_its_words() {
    assert_eq!(KeyError::ModulusEven.message(), "modulus must be odd");
    assert_eq!(
        KeyError::HNotAntiResidue.message(),
        "h is a quadratic residue: the sign was lost"
    );
}
