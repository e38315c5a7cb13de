//! The random exponent: every byte of it is drawn.

use paillier::scheme::random_exponent;

#[test]
fn the_whole_exponent_is_drawn() {
    const WIDTH: usize = 128;
    const DRAWS: usize = 200;

    let mut seen_non_zero = vec![false; WIDTH];
    for _ in 0..DRAWS {
        let raw = random_exponent(WIDTH);
        assert_eq!(raw.len(), WIDTH, "the exponent changed length");
        for (position, byte) in raw.iter().enumerate() {
            if *byte != 0 {
                seen_non_zero[position] = true;
            }
        }
    }

    let dead: Vec<usize> = seen_non_zero
        .iter()
        .enumerate()
        .filter(|(_, live)| !**live)
        .map(|(position, _)| position)
        .collect();
    assert!(
        dead.is_empty(),
        "byte positions {dead:?} were zero in all {DRAWS} draws: the exponent keeps its width but not its entropy"
    );
}

#[test]
fn two_exponents_differ() {
    assert_ne!(random_exponent(64), random_exponent(64));
}

#[test]
fn an_empty_exponent_is_empty() {
    assert!(random_exponent(0).is_empty());
}
