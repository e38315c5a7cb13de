//! The scheme end to end: keys, encryption, the homomorphic operations,
//! decryption, and every refusal on an input that provokes it.

use paillier::bignum::{Natural, Signed};
use paillier::secret::Decryptor;
use paillier::keys::KeyError;
use paillier::scheme::{
    add_ciphertexts, check_pairing, checked_scale, encrypt, encrypt_with,
    exponent_bytes_for, generate_keypair, hs_from_draw, join_blob, multiply_with, plaintext_bound,
    product_scale, rerandomize, rerandomize_with, split_blob, BlobError, PublicKey, SchemeError,
    SUM_HEADROOM_TERMS,
};
use rug::integer::Order;
use rug::Integer;

fn to_natural(x: &Integer) -> Natural {
    Natural::from_limbs(x.to_digits::<u64>(Order::Lsf))
}

fn to_integer(x: &Natural) -> Integer {
    Integer::from_digits(x.limbs(), Order::Lsf)
}

fn signed(x: &Integer) -> Signed {
    Signed {
        negative: *x < 0,
        magnitude: to_natural(&Integer::from(x.abs_ref())),
    }
}

fn signed_int(x: &Signed) -> Integer {
    let m = to_integer(&x.magnitude);
    if x.negative {
        -m
    } else {
        m
    }
}

/// A key of full length from two fixed primes, far apart: the peer side
/// built from `n`, and the decryption prepared from `p` and `q` directly.
fn fixed_key() -> (PublicKey, Decryptor) {
    let mut p = (Integer::from(3) << 1022u32) + 977u32;
    p.next_prime_mut();
    let mut q = (Integer::from(1) << 1024u32) - (Integer::from(5) << 900u32);
    q.next_prime_mut();
    let n = Integer::from(&p * &q);
    let pk = PublicKey::from_n(&n.to_digits::<u8>(Order::MsfBe)).expect("the key assembles");
    let d = Decryptor::new(&to_natural(&p), &to_natural(&q)).expect("the decryptor assembles");
    (pk, d)
}

fn open(d: &Decryptor, blob: &[u8]) -> (u8, Integer) {
    let (pow10, c) = split_blob(blob).expect("a blob");
    let x = d.decrypt(&c).expect("a ciphertext under this key");
    (pow10, signed_int(&x))
}

fn enc(pk: &PublicKey, x: i64, pow10: u8) -> Vec<u8> {
    encrypt(pk, &signed(&Integer::from(x)), pow10).expect("encryption")
}

fn modulus(pk: &PublicKey) -> Integer {
    to_integer(pk.modulus_value())
}

#[test]
fn a_key_outside_the_bounds_is_refused_before_anything_is_generated() {
    assert!(matches!(generate_keypair(1024), Err(SchemeError::KeyTooShort(1024))));
    assert!(matches!(generate_keypair(2047), Err(SchemeError::KeyTooShort(2047))));
    assert!(matches!(generate_keypair(9000), Err(SchemeError::KeyTooLong(9000))));
}

#[test]
fn a_key_round_trips_integers_and_scales() {
    let (pk, d) = fixed_key();
    let n = modulus(&pk);
    assert_eq!(n.significant_bits(), 2048);
    assert_eq!(pk.exponent_bits(), exponent_bytes_for(n.significant_bits()) * 8);
    assert_eq!(pk.exponent_bits(), 1024);

    let bound = Integer::from(&n / (2u32 * SUM_HEADROOM_TERMS));
    assert_eq!(pk.plaintext_bound_bits(), bound.significant_bits());
    for value in [
        Integer::from(0),
        Integer::from(1),
        Integer::from(-1),
        Integer::from(150_000_000),
        Integer::from(-75_000_000),
        bound.clone(),
        -bound.clone(),
    ] {
        for pow10 in [0u8, 8, 18] {
            let blob = encrypt(&pk, &signed(&value), pow10).expect("encryption");
            assert_eq!(blob[0], pow10);
            assert_eq!(open(&d, &blob), (pow10, value.clone()), "value {value}");
        }
    }

    // Two encryptions of one value differ: the exponent is random.
    assert_ne!(enc(&pk, 7, 8), enc(&pk, 7, 8));

    // Beyond the bound, and at an unknown scale: refused.
    let over = Integer::from(&bound + 1u32);
    assert_eq!(encrypt(&pk, &signed(&over), 8), Err(SchemeError::PlaintextTooLarge));
    assert_eq!(encrypt(&pk, &signed(&-over), 8), Err(SchemeError::PlaintextTooLarge));
    assert_eq!(encrypt(&pk, &signed(&Integer::from(1)), 19), Err(SchemeError::Scale(19)));
}

#[test]
fn a_key_rebuilt_from_its_modulus_agrees_with_the_first() {
    let (pk, d) = fixed_key();
    let peer = PublicKey::from_n(&pk.modulus_bytes()).expect("the peer key assembles");
    assert_eq!(peer.exponent_bits(), pk.exponent_bits());
    assert_eq!(to_integer(peer.modulus_value()), modulus(&pk));
    // What the second key encrypts decrypts, although it derived its own
    // `hs`.
    let blob = enc(&peer, -42, 8);
    assert_eq!(open(&d, &blob), (8, Integer::from(-42)));
}

#[test]
fn sums_products_and_rerandomising_decrypt_to_what_they_should() {
    let (pk, d) = fixed_key();
    let n = modulus(&pk);
    let nn = Integer::from(&n * &n);

    // The sum.
    let values = [10i64, -3, 500, -7, 150_000_000];
    let blobs: Vec<Vec<u8>> = values.iter().map(|v| enc(&pk, *v, 8)).collect();
    let total = add_ciphertexts(&pk, &blobs).expect("the sum");
    assert_eq!(open(&d, &total), (8, Integer::from(values.iter().sum::<i64>())));
    // Deterministic, and a single term comes back verbatim.
    assert_eq!(add_ciphertexts(&pk, &blobs).expect("the sum"), total);
    assert_eq!(add_ciphertexts(&pk, &vec![blobs[2].clone()]).expect("one term"), blobs[2]);

    // The product by a scalar, at the sum of the scales.
    let blob = enc(&pk, 1234, 8);
    assert_eq!(product_scale(&pk, 1, &blob, None), Ok(8));
    assert_eq!(product_scale(&pk, 1, &blob, Some(3)), Ok(3));
    for k in [3i64, -5, 1, -1, i64::MAX] {
        let product = multiply_with(&pk, 1, &blob, &signed(&Integer::from(k)), 8).expect("the product");
        assert_eq!(open(&d, &product), (16, Integer::from(1234) * k), "k = {k}");
    }
    let wide = Integer::from(u64::MAX);
    let product = multiply_with(&pk, 1, &blob, &signed(&wide), 2).expect("the product");
    assert_eq!(open(&d, &product), (10, Integer::from(&wide * 1234u32)));

    // Re-randomising: other bytes, the same plaintext and scale.
    let again = rerandomize(&pk, 1, &blob).expect("re-randomised");
    assert_ne!(again, blob);
    assert_eq!(open(&d, &again), (8, Integer::from(1234)));
    // With a zero exponent the mask is one and nothing changes.
    let zero = vec![0u8; pk.exponent_bits() / 8];
    assert_eq!(rerandomize_with(&pk, 1, &blob, &zero).expect("masked"), blob);

    // An exact encryption: with a zero exponent, c = 1 + x·n.
    let plain = encrypt_with(&pk, &signed(&Integer::from(5)), 8, &zero).expect("encryption");
    let (_, c) = split_blob(&plain).expect("a blob");
    assert_eq!(to_integer(&c), Integer::from(1u32) + Integer::from(5u32) * &n);
    let negative = encrypt_with(&pk, &signed(&Integer::from(-5)), 8, &zero).expect("encryption");
    let (_, c) = split_blob(&negative).expect("a blob");
    assert_eq!(to_integer(&c), Integer::from(&nn + 1u32) - Integer::from(5u32) * &n);
}

#[test]
fn each_refusal_of_the_operations_has_its_input() {
    let (pk, d) = fixed_key();
    let n = modulus(&pk);
    let nn = Integer::from(&n * &n);
    let good = enc(&pk, 1, 8);
    let other_scale = enc(&pk, 1, 12);

    // The sum.
    assert_eq!(add_ciphertexts(&pk, &vec![]), Err(SchemeError::EmptySum));
    let too_many = vec![Vec::new(); SUM_HEADROOM_TERMS as usize + 1];
    assert_eq!(
        add_ciphertexts(&pk, &too_many),
        Err(SchemeError::TooManyTerms(SUM_HEADROOM_TERMS as usize + 1))
    );
    assert_eq!(
        add_ciphertexts(&pk, &vec![good.clone(), Vec::new()]),
        Err(SchemeError::Blob(2, BlobError::Empty))
    );
    assert_eq!(
        add_ciphertexts(&pk, &vec![good.clone(), vec![19u8, 1]]),
        Err(SchemeError::Blob(2, BlobError::ScaleTooLarge(19)))
    );
    assert_eq!(
        add_ciphertexts(&pk, &vec![good.clone(), other_scale.clone()]),
        Err(SchemeError::ScaleMismatch(2, 12, 8))
    );
    assert_eq!(
        add_ciphertexts(&pk, &vec![join_blob(8, &to_natural(&Integer::from(0)))]),
        Err(SchemeError::OutOfRange(1))
    );
    assert_eq!(
        add_ciphertexts(&pk, &vec![good.clone(), join_blob(8, &to_natural(&nn))]),
        Err(SchemeError::OutOfRange(2))
    );

    // The product.
    assert_eq!(check_pairing(3, 2), Err(SchemeError::LengthMismatch(3, 2)));
    assert_eq!(check_pairing(2, 2), Ok(()));
    assert_eq!(
        product_scale(&pk, 1, &good, Some(11)),
        Err(SchemeError::ProductScale(1, 19))
    );
    assert_eq!(product_scale(&pk, 4, &[], None), Err(SchemeError::Blob(4, BlobError::Empty)));
    let one = signed(&Integer::from(1));
    assert_eq!(
        multiply_with(&pk, 3, &other_scale, &one, 12),
        Err(SchemeError::ProductScale(3, 24))
    );
    assert_eq!(
        multiply_with(&pk, 2, &good, &signed(&Integer::from(0)), 8),
        Err(SchemeError::ScalarZero(2))
    );
    let too_wide = Integer::from(1) << 64u32;
    assert_eq!(
        multiply_with(&pk, 2, &good, &signed(&too_wide), 8),
        Err(SchemeError::ScalarTooWide(2))
    );
    assert_eq!(
        multiply_with(&pk, 2, &good, &signed(&-too_wide), 8),
        Err(SchemeError::ScalarTooWide(2))
    );
    // `n` lies in `[1, n²)` but shares a factor with `n`.
    assert_eq!(
        multiply_with(&pk, 5, &join_blob(8, &to_natural(&n)), &one, 8),
        Err(SchemeError::NotInvertible(5))
    );

    // Re-randomising.
    assert_eq!(
        rerandomize(&pk, 6, &join_blob(8, &to_natural(&nn))),
        Err(SchemeError::OutOfRange(6))
    );
    assert_eq!(rerandomize(&pk, 7, &[]), Err(SchemeError::Blob(7, BlobError::Empty)));

    // A value outside `[1, n²)` or sharing a factor with `n` is no
    // ciphertext.
    assert!(d.decrypt(&to_natural(&n)).is_none());
    assert!(d.decrypt(&to_natural(&nn)).is_none());
}

#[test]
fn a_modulus_from_a_peer_is_checked_by_its_bytes() {
    assert!(matches!(
        PublicKey::from_n(&vec![0xffu8; 1025]),
        Err(SchemeError::ModulusTooLong(1025))
    ));
    let mut even = vec![0xffu8; 256];
    even[255] = 0xfe;
    assert!(matches!(PublicKey::from_n(&even), Err(SchemeError::ModulusEven)));
    assert!(matches!(PublicKey::from_n(&[]), Err(SchemeError::ModulusEven)));
    assert!(matches!(
        PublicKey::from_n(&[0x01u8, 0x01]),
        Err(SchemeError::Key(KeyError::ModulusTooShort))
    ));
    // An odd modulus of full length is accepted, whatever its factors.
    let mut odd = vec![0xc3u8; 256];
    odd[255] = 0x01;
    let pk = PublicKey::from_n(&odd).expect("accepted");
    assert_eq!(pk.modulus_bytes(), odd);
    assert_eq!(pk.exponent_bits(), 1024);
}

#[test]
fn the_blob_format_is_a_scale_byte_then_the_ciphertext() {
    let c = Integer::from(0x0102_0304u32);
    let blob = join_blob(8, &to_natural(&c));
    assert_eq!(blob, vec![8u8, 1, 2, 3, 4]);
    let (pow10, back) = split_blob(&blob).expect("a blob");
    assert_eq!(pow10, 8);
    assert_eq!(to_integer(&back), c);
    assert_eq!(join_blob(3, &to_natural(&Integer::from(0))), vec![3u8]);
    assert!(matches!(split_blob(&[]), Err(BlobError::Empty)));
    assert!(matches!(split_blob(&[19u8, 1]), Err(BlobError::ScaleTooLarge(19))));
    assert_eq!(checked_scale(18), Ok(18));
    assert_eq!(checked_scale(19), Err(BlobError::ScaleTooLarge(19)));
}

#[test]
fn the_plaintext_bound_and_the_exponent_length_are_exact() {
    let n = (Integer::from(1) << 2047u32) + 12345u32;
    let bound = to_integer(&plaintext_bound(&to_natural(&n)));
    assert_eq!(bound, Integer::from(&n >> 21u32));
    assert_eq!(exponent_bytes_for(2048), 128);
    assert_eq!(exponent_bytes_for(2047), 128);
    assert_eq!(exponent_bytes_for(1026), 65);
    assert_eq!(exponent_bytes_for(17), 1);
}

/// The key of `n = 2^2047 + 1`, which `from_n` accepts: odd and long
/// enough.
fn key_of_a_round_modulus() -> PublicKey {
    let mut raw = vec![0x80u8];
    raw.extend(std::iter::repeat(0u8).take(254));
    raw.push(0x01);
    PublicKey::from_n(&raw).expect("the key assembles")
}

#[test]
fn a_sum_is_written_at_minimal_length() {
    let pk = key_of_a_round_modulus();
    let blobs = vec![vec![8u8, 0x02], vec![8u8, 0x03]];

    assert_eq!(add_ciphertexts(&pk, &blobs), Ok(vec![8u8, 0x06]));
}

#[test]
fn a_product_is_written_at_minimal_length() {
    // 2^5 modulo n² behind the scale byte 1 + 1.
    let pk = key_of_a_round_modulus();
    let k = signed(&Integer::from(5));

    assert_eq!(multiply_with(&pk, 1, &[1u8, 0x02], &k, 1), Ok(vec![2u8, 0x20]));
}

#[test]
fn a_draw_is_decided_by_its_value_modulo_n() {
    // n = 23: x = 5 gives h = −25 mod 23 = 21 and hs = 21^23 mod 529.
    let n = Natural::from_u64(23);
    let hs = hs_from_draw(&[5u8], &n, None).expect("a usable draw");
    let expected = Integer::from(21).pow_mod(&Integer::from(23), &Integer::from(529)).unwrap();
    assert_eq!(to_integer(&hs), expected);
    // 28 reduces to the same 5.
    let again = hs_from_draw(&[28u8], &n, None).expect("a usable draw");
    assert_eq!(to_integer(&again), expected);
    // 1 and n − 1 = 22 are refused, and so is a multiple of n.
    assert!(hs_from_draw(&[1u8], &n, None).is_none());
    assert!(hs_from_draw(&[22u8], &n, None).is_none());
    assert!(hs_from_draw(&[46u8], &n, None).is_none());
}
