//! Our decryption must give back exactly what was encrypted. The
//! ciphertexts are made independently of the library: textbook Paillier,
//! `(1 + n)^m · r^n mod n²`, computed with GMP on the same primes.

use paillier::bignum::{Natural, Signed};
use paillier::secret::Decryptor;
use rand::Rng;
use rug::integer::Order;
use rug::ops::RemRounding;
use rug::Integer;

fn to_natural(x: &Integer) -> Natural {
    Natural::from_limbs(x.to_digits::<u64>(Order::Lsf))
}

fn to_integer(x: &Natural) -> Integer {
    Integer::from_digits(x.limbs(), Order::Lsf)
}

fn signed_int(x: &Signed) -> Integer {
    let m = to_integer(&x.magnitude);
    if x.negative {
        -m
    } else {
        m
    }
}

fn key() -> (Integer, Integer, Integer) {
    let mut p = (Integer::from(1) << 256u32) + 1u32;
    p.next_prime_mut();
    let mut q = (Integer::from(1) << 200u32) + 7u32;
    q.next_prime_mut();
    let n = Integer::from(&p * &q);
    (p, q, n)
}

/// Textbook Paillier encryption with `g = n + 1` and a random unit `r`.
fn encrypt(n: &Integer, value: &Integer) -> Integer {
    let nn = Integer::from(n * n);
    let mut rng = rand::thread_rng();
    let r = loop {
        let mut raw = vec![0u8; ((n.significant_bits() + 7) / 8) as usize];
        rng.fill(&mut raw[..]);
        let r = Integer::from_digits(&raw, Order::MsfBe) % n;
        if r > 1 && Integer::from(r.gcd_ref(n)) == 1 {
            break r;
        }
    };
    let m = value.clone().rem_euc(n.clone());
    let g = Integer::from(n + 1u32);
    let gm = g.pow_mod(&m, &nn).unwrap();
    let rn = r.pow_mod(n, &nn).unwrap();
    gm * rn % nn
}

fn decrypt(d: &Decryptor, c: &Integer) -> Option<Integer> {
    d.decrypt(&to_natural(c)).map(|v| signed_int(&v))
}

#[test]
fn our_decryption_matches_the_reference_crate() {
    let (p, q, n) = key();
    let ours = Decryptor::new(&to_natural(&p), &to_natural(&q)).expect("the decryptor assembles");

    let mut probes = vec![
        Integer::from(0),
        Integer::from(1),
        Integer::from(-1),
        Integer::from(1234567890u64),
        Integer::from(-987654321i64),
    ];
    probes.push(Integer::from(&n / 2u32) - 1u32);
    probes.push(-(Integer::from(&n / 2u32) - 1u32));

    for value in probes {
        let cipher = encrypt(&n, &value);
        let got = decrypt(&ours, &cipher).expect("our decryptor");
        assert_eq!(got, value, "value {value}");
    }
}

#[test]
fn an_invalid_ciphertext_is_refused() {
    let (p, q, n) = key();
    let ours = Decryptor::new(&to_natural(&p), &to_natural(&q)).expect("the decryptor");
    let nn = Integer::from(&n * &n);

    assert_eq!(decrypt(&ours, &Integer::from(0)), None);
    assert_eq!(decrypt(&ours, &nn), None);
    assert_eq!(decrypt(&ours, &(nn.clone() + 1u32)), None);
    assert_eq!(decrypt(&ours, &n), None);
}

#[test]
fn a_homomorphic_sum_decrypts_with_ours() {
    let (p, q, n) = key();
    let ours = Decryptor::new(&to_natural(&p), &to_natural(&q)).expect("the decryptor");
    let nn = Integer::from(&n * &n);

    let mut product = Integer::from(1);
    let mut total = Integer::from(0);
    for value in [10i64, -3, 500, -7] {
        let cipher = encrypt(&n, &Integer::from(value));
        product = product * cipher % &nn;
        total += value;
    }

    assert_eq!(decrypt(&ours, &product), Some(total));
}

#[test]
fn equal_primes_admit_no_decryptor() {
    let (p, _, _) = key();
    assert!(Decryptor::new(&to_natural(&p), &to_natural(&p)).is_none());
}

#[test]
fn the_signed_boundary_is_n_over_two() {
    // n is odd, so ⌊n/2⌋ decrypts as itself and ⌊n/2⌋ + 1 as its
    // negative counterpart.
    let (p, q, n) = key();
    let ours = Decryptor::new(&to_natural(&p), &to_natural(&q)).expect("the decryptor");
    let half = Integer::from(&n / 2u32);
    assert_eq!(decrypt(&ours, &encrypt(&n, &half)), Some(half.clone()));
    let above = Integer::from(&half + 1u32);
    assert_eq!(
        decrypt(&ours, &encrypt(&n, &above)),
        Some(Integer::from(&above - &n))
    );
}
