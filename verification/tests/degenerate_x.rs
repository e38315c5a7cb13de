//! `x = 1` must be refused: it passes `gcd` and the Jacobi check but
//! gives `hs = n² − 1`.

use paillier::bignum::Natural;
use paillier::keys::{derive_h, derive_h_checked, derive_hs, KeyError};
use rug::integer::Order;
use rug::Integer;

fn to_natural(x: &Integer) -> Natural {
    Natural::from_limbs(x.to_digits::<u64>(Order::Lsf))
}

fn to_integer(x: &Natural) -> Integer {
    Integer::from_digits(x.limbs(), Order::Lsf)
}

fn small_key() -> (Integer, Integer, Integer) {
    let p = Integer::from(23);
    let q = Integer::from(59);
    let n = Integer::from(&p * &q);
    (p, q, n)
}

fn h_of(x: &Integer, n: &Integer) -> Result<Integer, KeyError> {
    derive_h(&to_natural(x), &to_natural(n)).map(|h| to_integer(&h))
}

fn hs_of(h: &Integer, n: &Integer) -> Result<Integer, KeyError> {
    derive_hs(&to_natural(h), &to_natural(n)).map(|hs| to_integer(&hs))
}

#[test]
fn one_is_refused_before_hs_is_derived() {
    let (_, _, n) = small_key();

    assert_eq!(h_of(&Integer::from(1), &n), Err(KeyError::BadX));
}

#[test]
fn zero_and_the_upper_bound_are_refused_by_range() {
    let (_, _, n) = small_key();

    assert_eq!(h_of(&Integer::from(0), &n), Err(KeyError::BadX));
    let top = Integer::from(&n - 1u32);
    assert_eq!(h_of(&top, &n), Err(KeyError::BadX));
}

#[test]
fn the_sign_check_is_green_on_one_and_therefore_not_a_defence() {
    let (p, q, n) = small_key();
    let h_minus_one = Integer::from(&n - 1u32);

    assert_eq!(h_minus_one.jacobi(&p), -1);
    assert_eq!(h_minus_one.jacobi(&q), -1);
}

#[test]
fn second_line_of_defence_fires_on_real_input() {
    let (p, q, n) = small_key();
    let limit = n.to_u32().unwrap();

    let mut found = 0;
    for candidate in 2..(limit - 1) {
        let x = Integer::from(candidate);
        if Integer::from(&x * &x) % &n != 1 {
            continue;
        }
        found += 1;
        let h = derive_h_checked(&to_natural(&x), &to_natural(&p), &to_natural(&q), &to_natural(&n))
            .map(|h| to_integer(&h))
            .expect("a non-trivial root must pass the range and Jacobi checks");
        assert_eq!(hs_of(&h, &n), Err(KeyError::DegenerateHs));
    }
    assert!(found > 0, "no non-trivial roots were found — the fixture is the wrong one");
}

#[test]
fn degenerate_hs_is_refused_even_when_planted_by_hand() {
    let (_, _, n) = small_key();

    assert_eq!(hs_of(&Integer::from(&n - 1u32), &n), Err(KeyError::DegenerateHs));
    assert_eq!(hs_of(&Integer::from(1), &n), Err(KeyError::DegenerateHs));
}

#[test]
fn a_usable_x_passes_or_the_refusals_above_mean_nothing() {
    let (p, q, n) = small_key();
    let limit = n.to_u32().unwrap();

    let mut accepted = 0;
    for candidate in 2..(limit - 1) {
        let x = Integer::from(candidate);
        if let Ok(h) = derive_h_checked(&to_natural(&x), &to_natural(&p), &to_natural(&q), &to_natural(&n)) {
            if derive_hs(&h, &to_natural(&n)).is_ok() {
                accepted += 1;
            }
        }
    }
    assert!(accepted > 0, "not a single x was accepted — the refusals above mean nothing");
}

#[test]
fn h_is_minus_x_squared() {
    let (_, _, n) = small_key();
    // x = 2: −4 mod 1357 = 1353.
    assert_eq!(h_of(&Integer::from(2), &n), Ok(Integer::from(1353)));
    // hs = h^n mod n², compared with GMP.
    let nn = Integer::from(&n * &n);
    let want = Integer::from(1353).pow_mod(&n, &nn).unwrap();
    assert_eq!(hs_of(&Integer::from(1353), &n), Ok(want));
}

#[test]
fn a_zero_modulus_has_no_hs() {
    assert_eq!(hs_of(&Integer::from(5), &Integer::from(0)), Err(KeyError::PowModUndefined));
}

#[test]
fn the_wrong_sign_is_refused_by_the_owner() {
    // With primes ≡ 1 (mod 4), −1 is a square, so −x² is a residue
    // modulo both and the owner's sign check refuses every usable x.
    let (p, q) = (Integer::from(13), Integer::from(17));
    let n = Integer::from(&p * &q);
    let mut refused = 0;
    for candidate in 2..200u32 {
        let x = Integer::from(candidate);
        if Integer::from(x.gcd_ref(&n)) != 1 {
            continue;
        }
        if let Err(e) = derive_h_checked(&to_natural(&x), &to_natural(&p), &to_natural(&q), &to_natural(&n)) {
            assert_eq!(e, KeyError::HNotAntiResidue, "x = {x}");
            refused += 1;
        }
    }
    assert!(refused > 0);
}
