//! Montgomery multiplication on fixed-width limb buffers, against GMP.

use paillier::bignum::{Natural, Signed};
use paillier::mont::{Limb, Montgomery, Work, LIMB_BITS};
use rug::integer::Order;
use rug::Integer;

fn to_natural(x: &Integer) -> Natural {
    Natural::from_limbs(x.to_digits::<u64>(Order::Lsf))
}

fn to_integer(x: &Natural) -> Integer {
    Integer::from_digits(x.limbs(), Order::Lsf)
}

fn signed(x: &Integer) -> Signed {
    Signed {
        negative: *x < 0,
        magnitude: to_natural(&Integer::from(x.abs_ref())),
    }
}

fn form_of(nn: &Integer) -> Montgomery {
    Montgomery::new(&signed(nn)).expect("odd modulus")
}

/// Three shapes of `n²`: flush with its limbs and a general `R mod n²`,
/// flush with a sliver of `R mod n²`, and two bits of slack.
fn moduli_of(key_bits: u32) -> Vec<(&'static str, Integer)> {
    let half = key_bits / 2;
    let build = |p_seed: Integer, q_seed: Integer| {
        let (mut p, mut q) = (p_seed, q_seed);
        p.next_prime_mut();
        q.next_prime_mut();
        let n = Integer::from(&p * &q);
        Integer::from(&n * &n)
    };
    vec![
        (
            "flush",
            build(Integer::from(7) << (half - 3), (Integer::from(7) << (half - 3)) + 4242u32),
        ),
        (
            "flush-sliver",
            build(
                (Integer::from(1) << half) - 12345u32,
                (Integer::from(1) << half) - 54321u32,
            ),
        ),
        (
            "mid",
            build(Integer::from(3) << (half - 2), Integer::from(5) << (half - 3)),
        ),
    ]
}

fn slack_of(nn: &Integer) -> u32 {
    let limbs = (nn.significant_bits() + LIMB_BITS - 1) / LIMB_BITS;
    limbs * LIMB_BITS - nn.significant_bits()
}

#[test]
fn the_fixture_set_covers_the_production_shape() {
    for key_bits in [512u32, 1024, 2048] {
        let shapes = moduli_of(key_bits);
        let slacks: Vec<(&str, u32)> = shapes
            .iter()
            .map(|(name, nn)| (*name, slack_of(nn)))
            .collect();

        assert!(
            slacks.iter().any(|(_, slack)| *slack == 0),
            "no flush modulus at {key_bits} bits: {slacks:?}"
        );
        assert!(
            slacks.iter().any(|(_, slack)| *slack >= 2),
            "no slack modulus at {key_bits} bits: {slacks:?}"
        );
    }
}

fn assert_reduced(got: &[Limb], nn: &Integer, what: &str) {
    let value = Integer::from_digits(got, Order::LsfLe);
    assert!(
        value < *nn,
        "{what}: mul returned {value}, which is not below the modulus"
    );
}

#[test]
fn multiplication_matches_rug() {
    for bits in [512u32, 1024, 2048] {
        for (name, nn) in moduli_of(bits) {
            let form = form_of(&nn);
            let mut work = Work::new(form.limbs());

            for step in 0..64u32 {
                let a = Integer::from(&nn / (3u32 + step % 5)) + step;
                let b = Integer::from(&nn / (7u32 + step % 3)) + 11u32 + step;

                let want = Integer::from(&a * &b) % &nn;

                let am = form.enter(&to_natural(&a), &mut work);
                let bm = form.enter(&to_natural(&b), &mut work);
                let mut got = vec![0 as Limb; form.limbs()];
                form.mul(&am, &bm, &mut got, &mut work);
                assert_reduced(&got, &nn, &format!("{name}/{bits}, step {step}"));

                let got = to_integer(&form.leave(&got, &mut work));
                assert_eq!(want, got, "{name}, bits {bits}, step {step}");
            }
        }
    }
}

#[test]
fn edges_match_rug() {
    for (name, nn) in moduli_of(1024) {
        let form = form_of(&nn);
        let mut work = Work::new(form.limbs());

        let edges = [
            Integer::from(0),
            Integer::from(1),
            Integer::from(&nn - 1u32),
            Integer::from(&nn - 2u32),
            Integer::from(&nn >> 1u32),
        ];
        for a in &edges {
            for b in &edges {
                let want = Integer::from(a * b) % &nn;
                let am = form.enter(&to_natural(a), &mut work);
                let bm = form.enter(&to_natural(b), &mut work);
                let mut got = vec![0 as Limb; form.limbs()];
                form.mul(&am, &bm, &mut got, &mut work);
                assert_reduced(&got, &nn, &format!("{name}, a={a}, b={b}"));
                assert_eq!(
                    want,
                    to_integer(&form.leave(&got, &mut work)),
                    "{name}, a={a}, b={b}"
                );
            }
        }
    }
}

#[test]
fn one_is_a_fixed_width_buffer() {
    for bits in [1024u32, 2048] {
        for (name, nn) in moduli_of(bits) {
            let form = form_of(&nn);
            let one = form.one();

            assert_eq!(one.len(), form.limbs(), "{name}");

            let mut work = Work::new(form.limbs());
            let a = Integer::from(&nn / 3u32) + 7u32;
            let am = form.enter(&to_natural(&a), &mut work);
            let mut got = vec![0 as Limb; form.limbs()];
            form.mul(&am, one, &mut got, &mut work);
            assert_eq!(a, to_integer(&form.leave(&got, &mut work)), "{name}");
        }
    }
}

#[test]
fn below_modulus_compares_from_the_top() {
    let nn = moduli_of(512)[0].1.clone();
    let form = form_of(&nn);
    let k = form.limbs();

    let mut smaller = vec![0 as Limb; k];
    Integer::from(&nn - 1u32).write_digits(&mut smaller, Order::LsfLe);
    assert!(form.below_modulus(&smaller), "n^2 - 1 is below n^2");

    let mut equal = vec![0 as Limb; k];
    nn.write_digits(&mut equal, Order::LsfLe);
    assert!(!form.below_modulus(&equal), "n^2 is not below itself");

    let mut mixed = equal.clone();
    mixed[0] = 0;
    mixed[k - 1] = mixed[k - 1].wrapping_add(1);
    assert!(
        !form.below_modulus(&mixed),
        "a value with a larger top limb is not below the modulus"
    );
}

#[test]
fn an_even_or_non_positive_modulus_is_refused() {
    assert!(Montgomery::new(&signed(&Integer::from(1024))).is_none());
    assert!(Montgomery::new(&signed(&Integer::from(0))).is_none());
    assert!(Montgomery::new(&signed(&Integer::from(-3))).is_none());
}

#[test]
fn leaving_undoes_entering() {
    let nn = moduli_of(512)[2].1.clone();
    let form = form_of(&nn);
    let mut work = Work::new(form.limbs());
    for v in [Integer::from(0), Integer::from(1), Integer::from(&nn - 1u32), Integer::from(&nn / 7u32)] {
        let entered = form.enter(&to_natural(&v), &mut work);
        assert_eq!(to_integer(&form.leave(&entered, &mut work)), v);
    }
}

#[test]
fn one_holds_r_mod_n() {
    // 3 · 5 = 15 is odd: R = 2^64, and R mod 15 = 1.
    let form = Montgomery::new(&signed(&Integer::from(15))).expect("odd");
    assert_eq!(form.limbs(), 1);
    assert_eq!(form.one(), &[1u64][..]);
}

#[test]
fn modulo_one_everything_is_zero() {
    let form = form_of(&Integer::from(1));
    let mut work = Work::new(form.limbs());
    let zero = form.enter(&to_natural(&Integer::from(0)), &mut work);
    assert_eq!(to_integer(&form.leave(&zero, &mut work)), 0);
    let mut product = vec![0 as Limb; form.limbs()];
    form.mul(&zero, &zero, &mut product, &mut work);
    assert_eq!(to_integer(&form.leave(&product, &mut work)), 0);
}
