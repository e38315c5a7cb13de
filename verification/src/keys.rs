//! Key validation and derivation of `h`, `hs`.
//!
//! Our own key (`validate_private`) is checked in full: safe primes,
//! Blumness, the `gcd`, the prime gap, the length. A peer's modulus
//! (`validate_public`) is checked for oddness and length only — partial
//! public key validation as NIST SP 800-56B prescribes.

use vstd::prelude::*;
use crate::arith::{bit_count, gcd};
use crate::laws::gap;
use crate::bignum::{
    jacobi_symbol, nat_bits, value_limit, nat_gcd, nat_jacobi, nat_mod_u32, nat_mul, nat_pow_mod,
    nat_primality, nat_rem, nat_sub, primality_verdict, Natural, PrimeVerdict,
};

verus! {

/// How far `|p − q|` may fall short of the prime length, in bits, before
/// the modulus is refused (FIPS 186-4 B.3.1).
pub const PQ_DIFFERENCE_SLACK_BITS: u32 = 100;

/// Miller–Rabin rounds, both when generating a prime and when checking an
/// accepted key.
pub const PRIMALITY_ROUNDS: u32 = 40;

/// The smallest admissible modulus, in bits (NIST SP 800-57: 112-bit
/// strength).
pub const MIN_MODULUS_BITS: u32 = 2048;

/// The largest admissible foreign modulus, in bits.
pub const MAX_MODULUS_BITS: u32 = 8192;

/// Evidence that `validate_private` ran and accepted the key. The field
/// is private, so nothing outside this module can make one.
#[derive(Debug, PartialEq, Eq)]
pub struct Validated(());

#[derive(Debug, PartialEq, Eq, Structural, Clone, Copy)]
pub enum KeyError {
    NotSafePrimes,
    NotBlum,
    BadGcd,
    PrimesTooClose,
    HNotAntiResidue,
    BadX,
    DegenerateHs,
    PowModUndefined,
    ModulusTooShort,
    ModulusTooLong,
    ModulusEven,
    NoUsableX,
}

/// What each key-level refusal means, in words.
pub open spec fn key_error_text(e: KeyError) -> Seq<char> {
    match e {
        KeyError::NotSafePrimes => "primes are not safe: (p−1)/2 or (q−1)/2 is composite, so the order of h may be smooth and the short exponent falls to Pohlig–Hellman"@,
        KeyError::NotBlum => "primes are not Blum (need p ≡ q ≡ 3 mod 4): h = −x² would not sit outside the group of squares"@,
        KeyError::BadGcd => "gcd(p−1, q−1) ≠ 2: Z*_n gains an extra cyclic component"@,
        KeyError::PrimesTooClose => "p and q are too close: the modulus falls to Fermat factorisation (FIPS 186-4 B.3.1, |p−q| ≥ prime_bits − 100)"@,
        KeyError::HNotAntiResidue => "h is a quadratic residue: the sign was lost"@,
        KeyError::BadX => "x must lie in [2, n−2] and be coprime with n"@,
        KeyError::DegenerateHs => "hs is degenerate: its order is at most two, so the randomiser takes at most two values"@,
        KeyError::PowModUndefined => "modular exponentiation is undefined for these arguments"@,
        KeyError::ModulusTooShort => "modulus is shorter than 2048 bits: NIST SP 800-57 puts 112-bit strength at 2048"@,
        KeyError::ModulusTooLong => "modulus is longer than 8192 bits: nothing needs a key that long, and deriving hs from it takes time quadratic in its length"@,
        KeyError::ModulusEven => "modulus must be odd"@,
        KeyError::NoUsableX => "no usable x found within the attempt budget: on an honest modulus unusable values are a handful, so this points at the modulus itself"@,
    }
}

impl KeyError {
    /// The refusal in words.
    pub fn message(&self) -> (m: String)
        ensures
            m@ == key_error_text(*self),
    {
        match self {
            KeyError::NotSafePrimes => String::from_str("primes are not safe: (p−1)/2 or (q−1)/2 is composite, so the order of h may be smooth and the short exponent falls to Pohlig–Hellman"),
            KeyError::NotBlum => String::from_str("primes are not Blum (need p ≡ q ≡ 3 mod 4): h = −x² would not sit outside the group of squares"),
            KeyError::BadGcd => String::from_str("gcd(p−1, q−1) ≠ 2: Z*_n gains an extra cyclic component"),
            KeyError::PrimesTooClose => String::from_str("p and q are too close: the modulus falls to Fermat factorisation (FIPS 186-4 B.3.1, |p−q| ≥ prime_bits − 100)"),
            KeyError::HNotAntiResidue => String::from_str("h is a quadratic residue: the sign was lost"),
            KeyError::BadX => String::from_str("x must lie in [2, n−2] and be coprime with n"),
            KeyError::DegenerateHs => String::from_str("hs is degenerate: its order is at most two, so the randomiser takes at most two values"),
            KeyError::PowModUndefined => String::from_str("modular exponentiation is undefined for these arguments"),
            KeyError::ModulusTooShort => String::from_str("modulus is shorter than 2048 bits: NIST SP 800-57 puts 112-bit strength at 2048"),
            KeyError::ModulusTooLong => String::from_str("modulus is longer than 8192 bits: nothing needs a key that long, and deriving hs from it takes time quadratic in its length"),
            KeyError::ModulusEven => String::from_str("modulus must be odd"),
            KeyError::NoUsableX => String::from_str("no usable x found within the attempt budget: on an honest modulus unusable values are a handful, so this points at the modulus itself"),
        }
    }
}

/// `(p − 1) / 2`, truncated toward zero as GMP divides: zero for zero.
pub open spec fn half_of(p: nat) -> nat {
    if p == 0 {
        0
    } else {
        ((p - 1) / 2) as nat
    }
}

/// `|a − b|`.
pub open spec fn distance(a: nat, b: nat) -> nat {
    if a >= b {
        (a - b) as nat
    } else {
        (b - a) as nat
    }
}

/// The verdict on our own key, given for each prime whether the
/// primality test proved `(prime − 1)/2` composite. The most substantive
/// check, are the primes safe, comes first, so its error is the one seen
/// when several fail; the length floor follows.
pub open spec fn private_key_verdict(
    p: nat,
    q: nat,
    p_half_composite: bool,
    q_half_composite: bool,
) -> Result<(), KeyError> {
    if p_half_composite || q_half_composite {
        Err(KeyError::NotSafePrimes)
    } else if bit_count(p) < MIN_MODULUS_BITS / 2 || bit_count(q) < MIN_MODULUS_BITS / 2 {
        Err(KeyError::ModulusTooShort)
    } else if p % 4 != 3 || q % 4 != 3 {
        Err(KeyError::NotBlum)
    } else if gcd((p - 1) as nat, (q - 1) as nat) != 2 {
        Err(KeyError::BadGcd)
    } else if bit_count(distance(p, q)) + PQ_DIFFERENCE_SLACK_BITS < (if bit_count(p) >= bit_count(
        q,
    ) {
        bit_count(p)
    } else {
        bit_count(q)
    }) {
        Err(KeyError::PrimesTooClose)
    } else {
        Ok(())
    }
}

/// The verdict on a foreign modulus: its oddness, then its length.
pub open spec fn public_key_verdict(n: nat) -> Result<(), KeyError> {
    if n % 2 == 0 {
        Err(KeyError::ModulusEven)
    } else if bit_count(n) + 1 < MIN_MODULUS_BITS {
        Err(KeyError::ModulusTooShort)
    } else if bit_count(n) > MAX_MODULUS_BITS {
        Err(KeyError::ModulusTooLong)
    } else {
        Ok(())
    }
}

/// `x` is a usable seed for `h` modulo `n`: in `[2, n − 2]` and coprime
/// with `n`.
pub open spec fn usable_x(x: nat, n: nat) -> bool {
    2 <= x && x + 2 <= n && gcd(x, n) == 1
}

/// `h = −x² mod n`.
pub open spec fn h_of(x: nat, n: nat) -> nat {
    ((n - (x * x) % n) % (n as int)) as nat
}

/// The bits of a number, as a machine word: no `Natural` has `2^32` bits
/// (see `MAX_LIMBS`).
fn bits_of(x: &Natural) -> (b: u32)
    ensures
        b as nat == bit_count(x@),
{
    nat_bits(x)
}

/// The verdict of `private_key_verdict`, computed.
pub fn check_private_key(
    p: &Natural,
    q: &Natural,
    p_half_composite: bool,
    q_half_composite: bool,
) -> (verdict: Result<(), KeyError>)
    ensures
        verdict == private_key_verdict(p@, q@, p_half_composite, q_half_composite),
{
    if p_half_composite || q_half_composite {
        return Err(KeyError::NotSafePrimes);
    }
    let p_bits = bits_of(p);
    let q_bits = bits_of(q);
    if p_bits < MIN_MODULUS_BITS / 2 || q_bits < MIN_MODULUS_BITS / 2 {
        return Err(KeyError::ModulusTooShort);
    }
    if nat_mod_u32(p, 4) != 3 || nat_mod_u32(q, 4) != 3 {
        return Err(KeyError::NotBlum);
    }
    proof {
        // Both have at least 1024 bits, so both are positive.
        assert(p@ != 0);
        assert(q@ != 0);
    }
    let one = Natural::from_u64(1);
    let g = nat_gcd(&nat_sub(p, &one), &nat_sub(q, &one));
    if !g.equals(&Natural::from_u64(2)) {
        return Err(KeyError::BadGcd);
    }
    let prime_bits = if p_bits >= q_bits {
        p_bits
    } else {
        q_bits
    };
    let difference = if q.less_than(p) {
        nat_sub(p, q)
    } else {
        nat_sub(q, p)
    };
    let difference_bits = bits_of(&difference);
    if (difference_bits as u64) + (PQ_DIFFERENCE_SLACK_BITS as u64) < prime_bits as u64 {
        return Err(KeyError::PrimesTooClose);
    }
    Ok(())
}

/// GMP's primality test proves `(p − 1)/2` composite.
pub open spec fn half_refuted(p: nat) -> bool {
    primality_verdict(half_of(p), PRIMALITY_ROUNDS as nat) is Composite
}

/// Full validation of our own key. Returns the witness that the check
/// took place. The primality of `(p − 1)/2` and `(q − 1)/2` is judged by
/// GMP's probabilistic test (`nat_primality`), whose refusals are always
/// justified.
pub fn validate_private(p: &Natural, q: &Natural) -> (result: Result<Validated, KeyError>)
    ensures
        result is Ok <==> private_key_verdict(p@, q@, half_refuted(p@), half_refuted(q@)) is Ok,
        result matches Err(e) ==> private_key_verdict(p@, q@, half_refuted(p@), half_refuted(q@))
            == Err::<(), KeyError>(e),
        result is Ok ==> {
            &&& !half_refuted(p@) && !half_refuted(q@)
            &&& bit_count(p@) >= MIN_MODULUS_BITS / 2 && bit_count(q@) >= MIN_MODULUS_BITS / 2
            &&& p@ % 4 == 3 && q@ % 4 == 3
            &&& gcd((p@ - 1) as nat, (q@ - 1) as nat) == 2
            &&& bit_count(gap(p@, q@)) + PQ_DIFFERENCE_SLACK_BITS >= bit_count(p@)
            &&& bit_count(gap(p@, q@)) + PQ_DIFFERENCE_SLACK_BITS >= bit_count(q@)
        },
        private_key_verdict(p@, q@, half_refuted(p@), half_refuted(q@)) == private_key_verdict(
            q@,
            p@,
            half_refuted(q@),
            half_refuted(p@),
        ),
{
    proof {
        crate::laws::law_private_verdict_symmetric(p@, q@, half_refuted(p@), half_refuted(q@));
        if private_key_verdict(p@, q@, half_refuted(p@), half_refuted(q@)) is Ok {
            crate::laws::law_accepted_key_shape(p@, q@, half_refuted(p@), half_refuted(q@));
        }
    }
    // The safety of the primes is judged first, before the length.
    let p_half_composite = match nat_primality(&half_natural(p), PRIMALITY_ROUNDS) {
        PrimeVerdict::Composite => true,
        _ => false,
    };
    let q_half_composite = if p_half_composite {
        false
    } else {
        match nat_primality(&half_natural(q), PRIMALITY_ROUNDS) {
            PrimeVerdict::Composite => true,
            _ => false,
        }
    };
    let verdict = check_private_key(p, q, p_half_composite, q_half_composite);
    match verdict {
        Ok(()) => Ok(Validated(())),
        Err(e) => Err(e),
    }
}

/// `(p − 1) / 2` as a number.
fn half_natural(p: &Natural) -> (h: Natural)
    ensures
        h@ == half_of(p@),
{
    if p.is_zero() {
        return Natural::zero();
    }
    let (h, _) = crate::bignum::nat_div_rem(&nat_sub(p, &Natural::from_u64(1)), &Natural::from_u64(2));
    h
}

/// Validation of a foreign modulus: oddness and length, and nothing else.
pub fn validate_public(n: &Natural) -> (result: Result<(), KeyError>)
    ensures
        result == public_key_verdict(n@),
{
    if !n.is_odd() {
        return Err(KeyError::ModulusEven);
    }
    let bits = bits_of(n);
    if (bits as u64) + 1 < MIN_MODULUS_BITS as u64 {
        return Err(KeyError::ModulusTooShort);
    }
    if bits > MAX_MODULUS_BITS {
        return Err(KeyError::ModulusTooLong);
    }
    Ok(())
}

/// `h = −x² mod n`, for `x` in `[2, n − 2]` and coprime with `n`: one and
/// `n − 1` both give `h = −1`, which neither a `gcd` nor a Jacobi symbol
/// would catch. `n²` must be representable.
pub fn derive_h(x: &Natural, n: &Natural) -> (h: Result<Natural, KeyError>)
    requires
        n@ * n@ < value_limit(),
    ensures
        h is Ok <==> usable_x(x@, n@),
        h matches Ok(v) ==> v@ == h_of(x@, n@),
        h matches Err(e) ==> e == KeyError::BadX,
{
    let two = Natural::from_u64(2);
    // `n < x + 2`, without forming `x + 2`.
    if x.less_than(&two) || n.less_than(&two) || nat_sub(n, &two).less_than(x) {
        return Err(KeyError::BadX);
    }
    if !nat_gcd(x, n).equals(&Natural::from_u64(1)) {
        return Err(KeyError::BadX);
    }
    proof {
        assert(x@ * x@ <= n@ * n@) by (nonlinear_arith)
            requires
                x@ <= n@,
        ;
    }
    let square = nat_rem(&nat_mul(x, x), n);
    proof {
        vstd::arithmetic::div_mod::lemma_mod_bound((x@ * x@) as int, n@ as int);
    }
    let h = nat_rem(&nat_sub(n, &square), n);
    Ok(h)
}

/// `h = −x² mod n` with the sign verified by the Jacobi symbol modulo
/// each prime: the owner checks that `h` is a non-residue modulo both.
pub fn derive_h_checked(x: &Natural, p: &Natural, q: &Natural, n: &Natural) -> (h: Result<
    Natural,
    KeyError,
>)
    requires
        p@ % 2 == 1,
        q@ % 2 == 1,
        n@ * n@ < value_limit(),
    ensures
        !usable_x(x@, n@) ==> h == Err::<Natural, KeyError>(KeyError::BadX),
        usable_x(x@, n@) && (jacobi_symbol(h_of(x@, n@), p@) != -1 || jacobi_symbol(
            h_of(x@, n@),
            q@,
        ) != -1) ==> h == Err::<Natural, KeyError>(KeyError::HNotAntiResidue),
        h is Ok <==> (usable_x(x@, n@) && jacobi_symbol(h_of(x@, n@), p@) == -1 && jacobi_symbol(
            h_of(x@, n@),
            q@,
        ) == -1),
        h matches Ok(v) ==> v@ == h_of(x@, n@),
{
    let h = match derive_h(x, n) {
        Ok(h) => h,
        Err(e) => {
            return Err(e);
        },
    };
    if nat_jacobi(&h, p) != -1 || nat_jacobi(&h, q) != -1 {
        return Err(KeyError::HNotAntiResidue);
    }
    Ok(h)
}

/// `hs` is degenerate: at most one, or `n² − 1`.
pub open spec fn degenerate_hs(hs: nat, nn: nat) -> bool {
    hs <= 1 || hs + 1 == nn
}

/// `hs = h^n mod n²`, with the degenerate case refused: with safe primes
/// the only degeneracy a single `x` can produce is an order of at most
/// two, which shows up as `hs ∈ {0, 1, n² − 1}`.
pub fn derive_hs(h: &Natural, n: &Natural) -> (hs: Result<Natural, KeyError>)
    requires
        n@ * n@ < value_limit(),
    ensures
        n@ == 0 ==> hs == Err::<Natural, KeyError>(KeyError::PowModUndefined),
        n@ > 0 && degenerate_hs(crate::arith::power(h@, n@) % (n@ * n@), n@ * n@) ==> hs == Err::<
            Natural,
            KeyError,
        >(KeyError::DegenerateHs),
        hs is Ok <==> (n@ > 0 && !degenerate_hs(crate::arith::power(h@, n@) % (n@ * n@), n@ * n@)),
        hs matches Ok(v) ==> v@ == crate::arith::power(h@, n@) % (n@ * n@),
{
    let nn = nat_mul(n, n);
    proof {
        if n@ > 0 {
            assert(n@ * n@ > 0) by (nonlinear_arith)
                requires
                    n@ > 0,
            ;
        } else {
            assert(n@ * n@ == 0);
        }
    }
    let hs = match nat_pow_mod(h, n, &nn) {
        Some(v) => v,
        None => {
            return Err(KeyError::PowModUndefined);
        },
    };
    let one = Natural::from_u64(1);
    if !one.less_than(&hs) || crate::bignum::nat_add(&hs, &one).equals(&nn) {
        return Err(KeyError::DegenerateHs);
    }
    Ok(hs)
}

} // verus!
