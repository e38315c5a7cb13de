//! The window table must give exactly what GMP's `pow_mod` gives: the
//! technique changes the speed, never the result.

use paillier::bignum::Natural;
use paillier::fast::{build_window_table, pow_by_table, windows_for, windows_of};
use rug::integer::Order;
use rug::Integer;

fn to_natural(x: &Integer) -> Natural {
    Natural::from_limbs(x.to_digits::<u64>(Order::Lsf))
}

fn to_integer(x: &Natural) -> Integer {
    Integer::from_digits(x.limbs(), Order::Lsf)
}

/// A small modulus: the arithmetic does not depend on the size.
fn fixture() -> (Integer, Integer) {
    let n = Integer::from(23u32) * 59u32;
    let nn = Integer::from(&n * &n);
    let hs = Integer::from(1234567u32) % nn.clone();
    (hs, nn)
}

#[test]
fn the_table_matches_pow_mod_on_every_two_byte_exponent() {
    let (hs, nn) = fixture();
    let table = build_window_table(&to_natural(&hs), &to_natural(&nn), 4);

    for value in 0u32..=0xffff {
        let raw = [(value >> 8) as u8, value as u8];
        let expected = hs
            .clone()
            .pow_mod(&Integer::from(value), &nn)
            .expect("pow_mod");
        let got = to_integer(&pow_by_table(&table, &windows_of(&raw)));
        assert_eq!(got, expected, "exponent {value}");
    }
}

#[test]
fn the_table_matches_at_a_production_length_exponent() {
    let (hs, nn) = fixture();
    let width = 128;
    let table = build_window_table(&to_natural(&hs), &to_natural(&nn), width * 2);

    for seed in 0u8..8 {
        let raw: Vec<u8> = (0..width)
            .map(|i| (i as u8).wrapping_mul(37).wrapping_add(seed))
            .collect();
        let exponent = Integer::from_digits(&raw, Order::MsfBe);
        let expected = hs.clone().pow_mod(&exponent, &nn).expect("pow_mod");
        let got = to_integer(&pow_by_table(&table, &windows_of(&raw)));
        assert_eq!(got, expected, "seed {seed}");
    }
}

#[test]
fn the_table_is_correct_with_multi_limb_entries() {
    let n = Integer::from(1u32) << 160u32;
    let n = n + 7u32;
    let nn = Integer::from(&n * &n);
    let hs = Integer::from(987654321u32);

    let table = build_window_table(&to_natural(&hs), &to_natural(&nn), 4);
    assert!(
        table.entry_width() >= 5,
        "the entry must span several limbs, and it spans {}",
        table.entry_width()
    );

    for value in 0u32..=0xffff {
        let raw = [(value >> 8) as u8, value as u8];
        let expected = hs
            .clone()
            .pow_mod(&Integer::from(value), &nn)
            .expect("pow_mod");
        let got = to_integer(&pow_by_table(&table, &windows_of(&raw)));
        assert_eq!(got, expected, "exponent {value}");
    }
}

#[test]
fn a_zero_exponent_gives_one() {
    let (hs, nn) = fixture();
    let table = build_window_table(&to_natural(&hs), &to_natural(&nn), 4);

    let got = to_integer(&pow_by_table(&table, &windows_of(&[0u8, 0u8])));

    assert_eq!(got, 1);
}

#[test]
fn the_window_count_matches_the_split() {
    for bytes in [1usize, 2, 3, 7, 8, 63, 64, 128, 129, 256] {
        assert_eq!(
            windows_of(&vec![0u8; bytes]).len(),
            windows_for(bytes),
            "{bytes} bytes: the table build and the exponent split disagree"
        );
    }
}

#[test]
fn the_digits_reassemble_the_exponent() {
    // Six-bit digits, least significant first, out of big-endian bytes:
    // 0x0f 0xff is 4095 = 63 + 63·64, then zeros.
    let digits = windows_of(&[0x0fu8, 0xffu8]);
    assert_eq!(digits, vec![63u8, 63, 0]);
    // 0x010040 = 65600 = 0 + 1·64 + 16·64², in four digits.
    let digits = windows_of(&[0x01u8, 0x00u8, 0x40u8]);
    assert_eq!(digits, vec![0u8, 1, 16, 0]);
}

#[test]
fn the_table_reports_its_shape() {
    let (hs, nn) = fixture();
    let table = build_window_table(&to_natural(&hs), &to_natural(&nn), 7);
    assert_eq!(table.windows(), 7);
    assert_eq!(table.entry_width(), 1);
}
