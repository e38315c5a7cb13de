//! The Paillier scheme on integers: keys, the ciphertext blob, encryption
//! with a short exponent, homomorphic addition and multiplication by a
//! known scalar, re-randomisation and decryption.
//!
//! A blob is a scale byte followed by the ciphertext, most significant
//! byte first. The scale is a power of ten, carried in the ciphertext so
//! that decryption reads it from there and addition refuses a batch that
//! mixes scales. Turning floats into integers and back is the caller's
//! business; everything here is exact integer arithmetic.

use vstd::prelude::*;
use vstd::arithmetic::div_mod::*;
use vstd::arithmetic::power2::*;
use crate::arith::{
    bit_count, gcd, is_prime, lemma_bit_count_at_most, lemma_bit_count_bound, power,
};
use crate::bignum::{
    nat_add, nat_bits, nat_div_rem, nat_from_bytes, nat_invert, nat_mul, nat_rem,
    nat_secure_pow_mod, nat_sub, nat_to_bytes, jacobi_symbol, primality_verdict, Natural,
    PrimeVerdict, Signed, lemma_below_limit, lemma_limit_bits, lemma_product_below_limit,
    value_limit, MAX_LIMBS,
};
use crate::fast::{
    build_window_table, lemma_byte_radix_pow2, pow_by_table, window_count, windows_for,
    windows_of, WindowTable,
};
use crate::keys::{
    degenerate_hs, derive_h, derive_h_checked, derive_hs, h_of, half_refuted, private_key_verdict,
    public_key_verdict, usable_x, validate_private, validate_public, KeyError, Validated,
    MAX_MODULUS_BITS, MIN_MODULUS_BITS, PRIMALITY_ROUNDS,
};
use crate::limbs::{byte_radix, bytes_value, lemma_bytes_value_bound, minimal_bytes, radix};
use crate::primes::{distinct_safe_prime, safe_prime, searched_prime};
use crate::secret::{crt_decrypt, Decryptor};

verus! {

/// The default scale: `10^8`.
pub const DEFAULT_SCALE_POW10: u8 = 8;

/// The largest accepted scale exponent.
pub const MAX_SCALE_POW10: u8 = 18;

/// How many terms a sum must withstand: only `|x| ≤ n/(2 · 2^20)` is
/// accepted, and `add_many` takes at most `2^20` terms per call.
pub const SUM_HEADROOM_TERMS: u32 = 0x10_0000;

/// How many values of `x` to try before giving up on a modulus.
pub const HS_ATTEMPTS: u32 = 64;

/// The width, in bits, that an encoded scalar must fit.
pub const SCALAR_BITS: u32 = 64;

/// Why a blob is not a ciphertext under this scheme.
#[derive(Debug, PartialEq, Eq, Structural, Clone, Copy)]
pub enum BlobError {
    /// No scale byte.
    Empty,
    /// A scale exponent above `MAX_SCALE_POW10`.
    ScaleTooLarge(u8),
}

/// The refusals of the scheme. Where an index is carried it counts the
/// terms of a batch from one.
#[derive(Debug, PartialEq, Eq, Structural, Clone, Copy)]
pub enum SchemeError {
    /// A key-level refusal.
    Key(KeyError),
    /// A requested key length below the floor, in bits.
    KeyTooShort(u32),
    /// A requested key length above the ceiling, in bits.
    KeyTooLong(u32),
    /// A modulus longer, in bytes, than `MAX_MODULUS_BITS` allow.
    ModulusTooLong(usize),
    /// An even modulus.
    ModulusEven,
    /// The two primes admit no CRT split.
    NoDecryptor,
    /// The search for a safe prime gave up.
    PrimeSearchExhausted,
    /// A scale exponent above `MAX_SCALE_POW10`.
    Scale(u8),
    /// Term `index` is not a blob.
    Blob(usize, BlobError),
    /// Term `index` is not in `[1, n²)`.
    OutOfRange(usize),
    /// Term `index` has scale `pow10` while the sum started at `first`.
    ScaleMismatch(usize, u8, u8),
    /// An empty sum.
    EmptySum,
    /// More terms than `SUM_HEADROOM_TERMS`.
    TooManyTerms(usize),
    /// A plaintext beyond the range reserved for sums.
    PlaintextTooLarge,
    /// The scale of product `index` would be `pow10`, above the maximum.
    ProductScale(usize, u32),
    /// Scalar `index` encodes to zero.
    ScalarZero(usize),
    /// Scalar `index` does not fit `SCALAR_BITS` bits.
    ScalarTooWide(usize),
    /// Ciphertext `index` has no inverse modulo `n²`.
    NotInvertible(usize),
    /// The blob to decrypt is malformed.
    NotABlob(BlobError),
    /// The blob is not a ciphertext under this key.
    NotACiphertext,
    /// Two batches that are paired by position differ in length.
    LengthMismatch(usize, usize),
}

/// The scale exponent, if it is admissible.
pub open spec fn scale_verdict(pow10: u8) -> Result<u8, BlobError> {
    if pow10 > MAX_SCALE_POW10 {
        Err(BlobError::ScaleTooLarge(pow10))
    } else {
        Ok(pow10)
    }
}

/// What a blob holds: its scale exponent and its ciphertext.
pub open spec fn blob_verdict(blob: Seq<u8>) -> Result<(u8, nat), BlobError> {
    if blob.len() == 0 {
        Err(BlobError::Empty)
    } else if blob[0] > MAX_SCALE_POW10 {
        Err(BlobError::ScaleTooLarge(blob[0]))
    } else {
        Ok((blob[0], bytes_value(blob.skip(1))))
    }
}

/// Validation of a scale exponent arriving from outside or from a
/// ciphertext.
pub fn checked_scale(pow10: u8) -> (r: Result<u8, BlobError>)
    ensures
        r == scale_verdict(pow10),
{
    if pow10 > MAX_SCALE_POW10 {
        return Err(BlobError::ScaleTooLarge(pow10));
    }
    Ok(pow10)
}

/// A blob short enough for its ciphertext to be read into a `Natural`:
/// at most `8 · MAX_LIMBS` bytes behind the scale byte.
pub open spec fn within_blob_limit(blob: Seq<u8>) -> bool {
    blob.len() <= 8 * MAX_LIMBS + 1
}

/// Split a blob: the first byte is the scale exponent, the rest the
/// ciphertext, most significant byte first. An empty blob or an unknown
/// exponent is refused, not guessed.
pub fn split_blob(blob: &[u8]) -> (r: Result<(u8, Natural), BlobError>)
    requires
        within_blob_limit(blob@),
    ensures
        match (r, blob_verdict(blob@)) {
            (Ok((pow10, c)), Ok((e, v))) => pow10 == e && c@ == v,
            (Err(a), Err(b)) => a == b,
            _ => false,
        },
{
    if blob.len() == 0 {
        return Err(BlobError::Empty);
    }
    let head = blob[0];
    match checked_scale(head) {
        Ok(_) => {},
        Err(e) => {
            return Err(e);
        },
    }
    let body = &blob[1..blob.len()];
    proof {
        assert(body@ =~= blob@.skip(1));
    }
    Ok((head, nat_from_bytes(body)))
}

/// Assemble a blob: the exponent, then the ciphertext.
pub fn join_blob(pow10: u8, cipher: &Natural) -> (blob: Vec<u8>)
    ensures
        blob.len() >= 1,
        blob@[0] == pow10,
        bytes_value(blob@.skip(1)) == cipher@,
        minimal_bytes(blob@.skip(1)),
{
    let digits = nat_to_bytes(cipher);
    let mut out: Vec<u8> = Vec::new();
    out.push(pow10);
    let mut i: usize = 0;
    while i < digits.len()
        invariant
            i <= digits.len(),
            out.len() == i + 1,
            out@[0] == pow10,
            out@.skip(1) =~= digits@.take(i as int),
        decreases digits.len() - i,
    {
        out.push(digits[i]);
        i = i + 1;
        proof {
            assert(out@.skip(1) =~= digits@.take(i as int));
        }
    }
    proof {
        assert(digits@.take(digits.len() as int) =~= digits@);
        if digits.len() > 0 {
            assert(out@.skip(1)[0] == digits@[0]);
        }
    }
    out
}

/// The largest accepted plaintext in magnitude: `n/2` shrunk by
/// `SUM_HEADROOM_TERMS`.
pub fn plaintext_bound(n: &Natural) -> (bound: Natural)
    ensures
        bound@ == n@ / (2 * SUM_HEADROOM_TERMS as nat),
{
    let divisor = Natural::from_u64(2 * SUM_HEADROOM_TERMS as u64);
    let (q, _) = nat_div_rem(n, &divisor);
    q
}

/// Exponent length in bytes, from the actual modulus length: half of it,
/// rounded up to whole bytes.
pub fn exponent_bytes_for(modulus_bits: u32) -> (bytes: usize)
    ensures
        bytes == (modulus_bits / 2 + 7) / 8,
{
    ((modulus_bits / 2 + 7) / 8) as usize
}

/// `width` bytes from the operating system's generator, through `rand`
/// (`rand::rngs::OsRng`, `RngCore::fill_bytes`), the source from which
/// `rand`'s thread-local generator seeds itself. Nothing is stated of
/// the values.
#[verifier::external_body]
pub(crate) fn random_bytes(width: usize) -> (raw: Vec<u8>)
    ensures
        raw.len() == width,
{
    let mut raw = vec![0u8; width];
    rand::RngCore::fill_bytes(&mut rand::rngs::OsRng, &mut raw[..]);
    raw
}

/// The random exponent, drawn for every place that needs one: `width`
/// bytes, every one of them drawn.
pub fn random_exponent(width: usize) -> (raw: Vec<u8>)
    ensures
        raw.len() == width,
{
    random_bytes(width)
}

/// `hs` derived from `x`: `(−x² mod n)^n mod n²`.
pub open spec fn hs_of(x: nat, n: nat) -> nat {
    power(h_of(x, n), n) % (n * n)
}

/// `hs` is one a seed could have produced, and not degenerate.
pub open spec fn derived_hs(hs: nat, n: nat) -> bool {
    exists|x: nat| #[trigger] usable_x(x, n) && hs == hs_of(x, n) && !degenerate_hs(hs, n * n)
}

/// `hs` derived with the owner's check of the sign of `h`.
pub open spec fn derived_hs_checked(hs: nat, n: nat, p: nat, q: nat) -> bool {
    exists|x: nat|
        #[trigger] usable_x(x, n) && hs == hs_of(x, n) && !degenerate_hs(hs, n * n)
            && jacobi_symbol(h_of(x, n), p) == -1 && jacobi_symbol(h_of(x, n), q) == -1
}

/// One draw of the seed, decided: the bytes `raw` reduced modulo `n` give
/// `x`; `Some(hs)` with `hs = (−x² mod n)^n mod n²` exactly when `x` is
/// usable, `hs` is not degenerate and, where the owner's primes are
/// given, `h = −x² mod n` is a non-residue modulo both; `None` when the
/// draw is refused. No other refusal can arise for `n > 0`.
pub fn hs_from_draw(raw: &[u8], n: &Natural, owner: Option<(&Natural, &Natural)>) -> (r: Option<
    Natural,
>)
    requires
        n@ > 0,
        n@ * n@ < value_limit(),
        raw.len() <= 8 * MAX_LIMBS,
        owner matches Some((p, q)) ==> p@ % 2 == 1 && q@ % 2 == 1,
    ensures
        r is Some <==> {
            let x = bytes_value(raw@) % n@;
            &&& usable_x(x, n@)
            &&& !degenerate_hs(hs_of(x, n@), n@ * n@)
            &&& (owner matches Some((p, q)) ==> jacobi_symbol(h_of(x, n@), p@) == -1
                && jacobi_symbol(h_of(x, n@), q@) == -1)
        },
        r matches Some(v) ==> v@ == hs_of(bytes_value(raw@) % n@, n@),
{
    let candidate = nat_rem(&nat_from_bytes(raw), n);
    let derived = match owner {
        Some((p, q)) => derive_h_checked(&candidate, p, q, n),
        None => derive_h(&candidate, n),
    };
    let h = match derived {
        Ok(h) => h,
        Err(_) => {
            return None;
        },
    };
    match derive_hs(&h, n) {
        Ok(hs) => Some(hs),
        Err(_) => None,
    }
}

/// Derive `hs` for a modulus from random seeds, optionally with the
/// owner's primes to check the sign of `h`: each of up to `HS_ATTEMPTS`
/// draws of as many bytes as `n` has is decided by `hs_from_draw`, and
/// the first accepted one is returned. After `HS_ATTEMPTS` refusals the
/// modulus itself is suspect.
pub fn derive_hs_for(n: &Natural, owner: Option<(&Natural, &Natural)>) -> (hs: Result<
    Natural,
    KeyError,
>)
    requires
        n@ > 0,
        n@ * n@ < value_limit(),
        owner matches Some((p, q)) ==> p@ % 2 == 1 && q@ % 2 == 1,
    ensures
        hs matches Ok(v) ==> derived_hs(v@, n@),
        hs matches Ok(v) ==> (owner matches Some((p, q)) ==> derived_hs_checked(v@, n@, p@, q@)),
        hs matches Err(e) ==> e == KeyError::NoUsableX,
{
    proof {
        assert(n@ <= n@ * n@) by (nonlinear_arith)
            requires
                n@ > 0,
        ;
        lemma_limit_bits(n@);
    }
    let width = ((nat_bits(n) as u64 + 7) / 8) as usize;
    let mut attempt: u32 = 0;
    while attempt < HS_ATTEMPTS
        invariant
            n@ > 0,
            n@ * n@ < value_limit(),
            width <= 8 * MAX_LIMBS,
            owner matches Some((p, q)) ==> p@ % 2 == 1 && q@ % 2 == 1,
        decreases HS_ATTEMPTS - attempt,
    {
        attempt = attempt + 1;
        let raw = random_bytes(width);
        match hs_from_draw(raw.as_slice(), n, owner) {
            Some(hs) => {
                proof {
                    let x = bytes_value(raw@) % n@;
                    assert(usable_x(x, n@));
                }
                return Ok(hs);
            },
            None => {},
        }
    }
    Err(KeyError::NoUsableX)
}

/// A public key: `n`, `n²`, the exponent length and the window table of
/// `hs`, which is derived from `n` alone.
pub struct PublicKey {
    n: Natural,
    nn: Natural,
    exponent_bytes: usize,
    table: WindowTable,
}

/// A secret key: the prepared decryption and the witness that the key was
/// validated.
pub struct SecretKey {
    inner: Decryptor,
    validated: Validated,
}

impl SecretKey {
    /// The first prime.
    pub closed spec fn prime_p(&self) -> nat {
        self.inner.prime_p()
    }

    /// The second prime.
    pub closed spec fn prime_q(&self) -> nat {
        self.inner.prime_q()
    }

    /// The prepared decryption: odd primes and consistent inverses.
    pub closed spec fn wf(&self) -> bool {
        &&& self.inner.wf()
        &&& self.inner.prime_p() % 2 == 1
        &&& self.inner.prime_q() % 2 == 1
    }

    /// `L_p(g^(p−1))^(-1) mod p`.
    pub closed spec fn hp(&self) -> nat {
        self.inner.hp_value()
    }

    /// `L_q(g^(q−1))^(-1) mod q`.
    pub closed spec fn hq(&self) -> nat {
        self.inner.hq_value()
    }

    /// `p^(-1) mod q`.
    pub closed spec fn p_inverse(&self) -> nat {
        self.inner.p_inverse_value()
    }

    /// What well-formedness gives: decryption is the CRT decryption with
    /// the key's own values, and those values are consistent; with two
    /// distinct primes it is a `decryption_key`.
    pub proof fn lemma_key(&self)
        requires
            self.wf(),
        ensures
            forall|c: nat|
                #[trigger] self.decryption(c) == crt_decrypt(
                    self.prime_p(),
                    self.prime_q(),
                    self.hp(),
                    self.hq(),
                    self.p_inverse(),
                    c,
                ),
            is_prime(self.prime_p()) && is_prime(self.prime_q()) && self.prime_p()
                != self.prime_q() ==> crate::laws::decryption_key(
                self.prime_p(),
                self.prime_q(),
                self.hp(),
                self.hq(),
                self.p_inverse(),
            ),
    {
        self.inner.lemma_wf();
    }

    /// What decryption gives for the ciphertext `c`.
    pub closed spec fn decryption(&self, c: nat) -> Option<int> {
        crt_decrypt(
            self.inner.prime_p(),
            self.inner.prime_q(),
            self.inner.hp_value(),
            self.inner.hq_value(),
            self.inner.p_inverse_value(),
            c,
        )
    }
}

impl PublicKey {
    /// The modulus `n`.
    pub closed spec fn modulus(&self) -> nat {
        self.n@
    }

    /// The fixed base of encryption, `hs`.
    pub closed spec fn randomizer(&self) -> nat {
        self.table.base_value()
    }

    /// The exponent length in bytes.
    pub closed spec fn exponent_len(&self) -> nat {
        self.exponent_bytes as nat
    }

    /// Well-formed: an odd modulus above one, its square, a window table
    /// for `n²` whose base was derived from `n`, and an exponent length
    /// that is a function of the length of `n`.
    pub closed spec fn wf(&self) -> bool {
        let n = self.n@;
        &&& n % 2 == 1
        &&& n > 1
        &&& self.nn@ == n * n
        &&& self.table.wf()
        &&& self.table.modulus_value() == n * n
        &&& bit_count(n) <= MAX_MODULUS_BITS
        &&& self.exponent_bytes <= 0x0fff_ffff
        &&& self.exponent_bytes == (bit_count(n) / 2 + 7) / 8
        &&& self.table.window_total() == window_count(self.exponent_bytes as nat)
        &&& derived_hs(self.table.base_value(), n)
    }

    /// What well-formedness gives a caller: an odd modulus above one and a
    /// base derived from it.
    pub proof fn lemma_wf(&self)
        requires
            self.wf(),
        ensures
            self.modulus() > 1,
            self.modulus() % 2 == 1,
            derived_hs(self.randomizer(), self.modulus()),
            self.exponent_len() == exponent_len_for(bit_count(self.modulus())),
    {
    }

    /// The modulus in bytes: the only thing that travels to a peer.
    pub fn modulus_bytes(&self) -> (raw: Vec<u8>)
        ensures
            bytes_value(raw@) == self.modulus(),
    {
        nat_to_bytes(&self.n)
    }

    /// The modulus.
    pub fn modulus_value(&self) -> (n: &Natural)
        ensures
            n@ == self.modulus(),
    {
        &self.n
    }

    /// Exponent length in bits.
    pub fn exponent_bits(&self) -> (bits: usize)
        requires
            self.wf(),
        ensures
            bits == self.exponent_len() * 8,
    {
        self.exponent_bytes * 8
    }

    /// The largest accepted plaintext in magnitude, in bits.
    pub fn plaintext_bound_bits(&self) -> (bits: u32)
        ensures
            bits as nat == bit_count(self.modulus() / (2 * SUM_HEADROOM_TERMS as nat)),
    {
        nat_bits(&plaintext_bound(&self.n))
    }
}

/// The longest modulus accepted, in bytes: what `MAX_MODULUS_BITS` allow.
pub const MODULUS_BYTES_LIMIT: usize = 1024;

/// Why a modulus arriving as bytes is refused, in the order of the checks.
pub open spec fn modulus_verdict(raw: Seq<u8>) -> Result<(), SchemeError> {
    let n = bytes_value(raw);
    if raw.len() > MODULUS_BYTES_LIMIT {
        Err(SchemeError::ModulusTooLong(raw.len() as usize))
    } else if n % 2 == 0 {
        Err(SchemeError::ModulusEven)
    } else {
        match public_key_verdict(n) {
            Err(e) => Err(SchemeError::Key(e)),
            Ok(_) => Ok(()),
        }
    }
}

/// The exponent length for a modulus of `bits` bits, in bytes.
pub open spec fn exponent_len_for(bits: nat) -> nat {
    (bits / 2 + 7) / 8
}

/// A modulus within the ceiling is below `2^8192`, its square below
/// `2^16384`, and products of two numbers below the square stay below
/// the limit of every `Natural`.
pub proof fn lemma_modulus_sizes(n: nat)
    requires
        bit_count(n) <= MAX_MODULUS_BITS,
    ensures
        n < pow2(8192),
        n * n < pow2(16384),
        n * n < value_limit(),
{
    lemma_bit_count_bound(n);
    if bit_count(n) < 8192 {
        lemma_pow2_strictly_increases(bit_count(n), 8192);
    }
    lemma_product_below_limit(n, n, 8192, 8192);
}

/// Sums and products of numbers up to `n²`, for a modulus within the
/// ceiling, stay below the limit of every `Natural`.
pub proof fn lemma_fits_under_square(n: nat, a: nat, b: nat)
    requires
        bit_count(n) <= MAX_MODULUS_BITS,
        a <= n * n,
        b <= n * n,
    ensures
        a * b < value_limit(),
        a + b < value_limit(),
        a + 1 < value_limit(),
{
    lemma_modulus_sizes(n);
    lemma_product_below_limit(a, b, 16384, 16384);
    lemma_pow2_unfold(16385);
    lemma_below_limit(a + b, 16385);
    lemma_below_limit(a + 1, 16385);
}

/// A modulus below `2^b`, with `b` at most the ceiling, has a square that
/// the window table can hold.
proof fn lemma_square_fits(n: nat, b: nat)
    requires
        n < pow2(b),
        b <= MAX_MODULUS_BITS,
    ensures
        n * n < radix(0x0100_0000),
{
    lemma_pow2_pos(b);
    assert(n * n < pow2(b) * pow2(b)) by (nonlinear_arith)
        requires
            n < pow2(b),
    ;
    lemma_pow2_adds(b, b);
    if b + b < 16384 {
        lemma_pow2_strictly_increases(b + b, 16384);
    }
    crate::arith::lemma_radix_is_power(256);
    crate::arith::lemma_power_is_pow(2, 64 * 256);
    lemma_pow2(16384);
    crate::limbs::lemma_radix_monotone(256, 0x0100_0000);
}

/// The exponent length and the window table of a modulus, with `hs`
/// derived from it.
fn key_tables(n: &Natural, nn: &Natural, hs: &Natural) -> (r: (usize, WindowTable))
    requires
        n@ > 1,
        n@ % 2 == 1,
        nn@ == n@ * n@,
        bit_count(n@) <= MAX_MODULUS_BITS,
        hs@ < nn@,
    ensures
        r.0 == exponent_len_for(bit_count(n@)),
        r.0 <= 0x0fff_ffff,
        r.1.wf(),
        r.1.base_value() == hs@,
        r.1.modulus_value() == nn@,
        r.1.window_total() == window_count(r.0 as nat),
{
    let exponent_bytes = exponent_bytes_for(nat_bits(n));
    proof {
        lemma_bit_count_bound(n@);
        lemma_square_fits(n@, bit_count(n@));
        crate::secret::lemma_odd_square(n@);
        assert(nn@ > 1) by (nonlinear_arith)
            requires
                nn@ == n@ * n@,
                n@ > 1,
        ;
        lemma_small_mod(hs@, nn@);
    }
    let table = build_window_table(hs, nn, windows_for(exponent_bytes));
    (exponent_bytes, table)
}

impl PublicKey {
    /// Assemble a public key from the modulus alone, deriving `hs` here:
    /// the encrypting side need not trust an `hs` from outside. The length
    /// is refused on the raw bytes, before anything is computed.
    pub fn from_n(raw: &[u8]) -> (pk: Result<PublicKey, SchemeError>)
        ensures
            modulus_verdict(raw@) matches Err(e) ==> pk == Err::<PublicKey, SchemeError>(e),
            pk matches Ok(k) ==> k.wf() && k.modulus() == bytes_value(raw@),
            modulus_verdict(raw@) is Ok && pk is Err ==> pk == Err::<PublicKey, SchemeError>(
                SchemeError::Key(KeyError::NoUsableX),
            ),
    {
        if raw.len() > MODULUS_BYTES_LIMIT {
            return Err(SchemeError::ModulusTooLong(raw.len()));
        }
        let n = nat_from_bytes(raw);
        if !n.is_odd() {
            return Err(SchemeError::ModulusEven);
        }
        match validate_public(&n) {
            Ok(()) => {},
            Err(e) => {
                return Err(SchemeError::Key(e));
            },
        }
        proof {
            lemma_bytes_value_bound(raw@);
            lemma_byte_radix_pow2(raw.len() as nat);
            if bit_count(n@) > MAX_MODULUS_BITS {
                assert(false);
            }
            if n@ <= 1 {
                assert(bit_count(n@) <= 1) by {
                    assert(bit_count(0) == 0);
                    assert(bit_count(1) == 1 + bit_count(0));
                }
            }
            lemma_modulus_sizes(n@);
        }
        let nn = nat_mul(&n, &n);
        let hs = match derive_hs_for(&n, None) {
            Ok(hs) => hs,
            Err(e) => {
                return Err(SchemeError::Key(e));
            },
        };
        proof {
            let x = choose|x: nat| #[trigger] usable_x(x, n@) && hs@ == hs_of(x, n@) && !degenerate_hs(hs@, n@ * n@);
            assert(n@ * n@ > 0) by (nonlinear_arith)
                requires
                    n@ > 1,
            ;
            lemma_mod_bound(power(h_of(x, n@), n@) as int, (n@ * n@) as int);
        }
        let (exponent_bytes, table) = key_tables(&n, &nn, &hs);
        Ok(PublicKey { n, nn, exponent_bytes, table })
    }
}

/// Generate a key pair from two safe primes of `bits / 2` bits each and
/// validate it. The modulus is checked against the floor and the ceiling
/// before anything is generated.
pub fn generate_keypair(bits: u32) -> (keys: Result<(PublicKey, SecretKey), SchemeError>)
    ensures
        bits < MIN_MODULUS_BITS ==> keys == Err::<(PublicKey, SecretKey), SchemeError>(
            SchemeError::KeyTooShort(bits),
        ),
        MIN_MODULUS_BITS <= bits && bits > MAX_MODULUS_BITS ==> keys == Err::<
            (PublicKey, SecretKey),
            SchemeError,
        >(SchemeError::KeyTooLong(bits)),
        keys matches Ok((pk, sk)) ==> {
            let p = sk.prime_p();
            let q = sk.prime_q();
            &&& MIN_MODULUS_BITS <= bits <= MAX_MODULUS_BITS
            &&& pk.wf()
            &&& sk.wf()
            &&& pk.modulus() == p * q
            &&& bit_count(p) == bits / 2
            &&& bit_count(q) == bits / 2
            &&& private_key_verdict(p, q, half_refuted(p), half_refuted(q)) is Ok
            &&& primality_verdict(p, PRIMALITY_ROUNDS as nat) != PrimeVerdict::Composite
            &&& primality_verdict(q, PRIMALITY_ROUNDS as nat) != PrimeVerdict::Composite
            &&& derived_hs_checked(pk.randomizer(), pk.modulus(), p, q)
            &&& p != q
            &&& searched_prime(p, (bits / 2) as nat)
            &&& searched_prime(q, (bits / 2) as nat)
        },
        keys matches Err(e) ==> (MIN_MODULUS_BITS <= bits <= MAX_MODULUS_BITS ==> (
        e is PrimeSearchExhausted || e is NoDecryptor || e is Key)),
        keys matches Err(SchemeError::Key(e)) ==> {
            &&& MIN_MODULUS_BITS <= bits <= MAX_MODULUS_BITS
            &&& !(e is NotSafePrimes) && !(e is ModulusTooShort) && !(e is NotBlum)
            &&& (e is NoUsableX || exists|p: nat, q: nat|
                p != q && #[trigger] searched_prime(p, (bits / 2) as nat) && #[trigger] searched_prime(
                    q,
                    (bits / 2) as nat,
                ) && private_key_verdict(p, q, half_refuted(p), half_refuted(q)) == Err::<
                    (),
                    KeyError,
                >(e))
        },
{
    if bits < MIN_MODULUS_BITS {
        return Err(SchemeError::KeyTooShort(bits));
    }
    if bits > MAX_MODULUS_BITS {
        return Err(SchemeError::KeyTooLong(bits));
    }
    let half = bits / 2;
    let p = match safe_prime(half) {
        Some(p) => p,
        None => {
            return Err(SchemeError::PrimeSearchExhausted);
        },
    };
    let q = match distinct_safe_prime(half, &p) {
        Some(q) => q,
        None => {
            return Err(SchemeError::PrimeSearchExhausted);
        },
    };
    proof {
        assert(searched_prime(p@, half as nat));
        crate::laws::law_searched_primes_pass_the_key_checks(p@, q@);
    }
    let validated = match validate_private(&p, &q) {
        Ok(v) => v,
        Err(e) => {
            proof {
                assert(searched_prime(p@, half as nat) && searched_prime(q@, half as nat));
            }
            return Err(SchemeError::Key(e));
        },
    };
    proof {
        lemma_bit_count_bound(p@);
        lemma_bit_count_bound(q@);
        lemma_product_below_limit(p@, q@, half as nat, half as nat);
    }
    let n = nat_mul(&p, &q);
    proof {
        let b = half as nat;
        assert(p@ % 2 == 1 && q@ % 2 == 1);
        assert(p@ > 1 && q@ > 1) by {
            assert(bit_count(0) == 0);
            assert(bit_count(1) == 1 + bit_count(0));
        }
        assert(n@ % 2 == 1) by {
            lemma_fundamental_div_mod(p@ as int, 2);
            lemma_fundamental_div_mod(q@ as int, 2);
            let a = p@ / 2;
            let c = q@ / 2;
            assert(n@ == 2 * (2 * a * c + a + c) + 1) by (nonlinear_arith)
                requires
                    n@ == p@ * q@,
                    p@ == 2 * a + 1,
                    q@ == 2 * c + 1,
            ;
            lemma_mod_multiples_vanish((2 * a * c + a + c) as int, 1, 2);
        }
        assert(n@ > 1) by (nonlinear_arith)
            requires
                n@ == p@ * q@,
                p@ > 1,
                q@ > 1,
        ;
        lemma_pow2_pos(b);
        assert(n@ < pow2(b) * pow2(b)) by (nonlinear_arith)
            requires
                n@ == p@ * q@,
                p@ < pow2(b),
                q@ < pow2(b),
        ;
        lemma_pow2_adds(b, b);
        lemma_bit_count_at_most(n@, b + b);
        lemma_modulus_sizes(n@);
    }
    let nn = nat_mul(&n, &n);
    let hs = match derive_hs_for(&n, Some((&p, &q))) {
        Ok(hs) => hs,
        Err(e) => {
            return Err(SchemeError::Key(e));
        },
    };
    proof {
        let x = choose|x: nat| #[trigger] usable_x(x, n@) && hs@ == hs_of(x, n@) && !degenerate_hs(hs@, n@ * n@);
        assert(n@ * n@ > 0) by (nonlinear_arith)
            requires
                n@ > 1,
        ;
        lemma_mod_bound(power(h_of(x, n@), n@) as int, (n@ * n@) as int);
    }
    let (exponent_bytes, table) = key_tables(&n, &nn, &hs);
    let inner = match Decryptor::new(&p, &q) {
        Some(d) => d,
        None => {
            return Err(SchemeError::NoDecryptor);
        },
    };
    Ok((PublicKey { n, nn, exponent_bytes, table }, SecretKey { inner, validated }))
}

/// `1 + x·n`, reduced to `[0, n²)`: how a plaintext enters a ciphertext
/// (`g^x` for `g = n + 1`).
pub open spec fn plain_part(x: int, n: nat) -> nat {
    ((1 + x * n) % ((n * n) as int)) as nat
}

/// The ciphertext of `x` under `n` with the fixed base `hs` and the
/// exponent `r`: `(1 + x·n) · hs^r mod n²`.
pub open spec fn encryption(n: nat, hs: nat, x: int, r: nat) -> nat {
    (plain_part(x, n) * (power(hs, r) % (n * n))) % (n * n)
}

/// The mask an exponent `r` puts on a ciphertext: `c · hs^r mod n²`.
pub open spec fn masked(n: nat, hs: nat, c: nat, r: nat) -> nat {
    (c * (power(hs, r) % (n * n))) % (n * n)
}

/// `hs^r mod n²` for the exponent bytes `raw`, read by windows.
fn mask_for(pk: &PublicKey, raw: &[u8]) -> (b: Natural)
    requires
        pk.wf(),
        raw.len() <= pk.exponent_len(),
    ensures
        b@ == power(pk.randomizer(), bytes_value(raw@)) % (pk.modulus() * pk.modulus()),
{
    let digits = windows_of(raw);
    proof {
        assert(window_count(raw.len() as nat) <= window_count(pk.exponent_bytes as nat)) by {
            lemma_div_is_ordered((raw.len() * 8 + 5) as int, (pk.exponent_bytes * 8 + 5) as int, 6);
        }
    }
    pow_by_table(&pk.table, digits.as_slice())
}

impl PublicKey {
    /// The largest accepted plaintext in magnitude.
    pub open spec fn bound(&self) -> nat {
        self.modulus() / (2 * SUM_HEADROOM_TERMS as nat)
    }

    /// `n²`.
    pub open spec fn modulus_square(&self) -> nat {
        self.modulus() * self.modulus()
    }
}

/// Encrypt the integer `x` at scale `10^scale_pow10` with the exponent
/// bytes `raw`: `(1 + x·n) · hs^r mod n²`, behind the scale byte. A
/// plaintext beyond `bound` is refused, since headroom for a sum is
/// reserved in advance. The remainder is the Euclidean one, so a negative
/// `x` lands in `[0, n²)` like any other.
pub fn encrypt_with(pk: &PublicKey, x: &Signed, scale_pow10: u8, raw: &[u8]) -> (blob: Result<
    Vec<u8>,
    SchemeError,
>)
    requires
        pk.wf(),
        raw.len() <= pk.exponent_len(),
    ensures
        scale_pow10 > MAX_SCALE_POW10 ==> blob == Err::<Vec<u8>, SchemeError>(
            SchemeError::Scale(scale_pow10),
        ),
        scale_pow10 <= MAX_SCALE_POW10 && x.magnitude@ > pk.bound() ==> blob == Err::<
            Vec<u8>,
            SchemeError,
        >(SchemeError::PlaintextTooLarge),
        blob is Ok <==> scale_pow10 <= MAX_SCALE_POW10 && x.magnitude@ <= pk.bound(),
        blob matches Ok(b) ==> b@.len() >= 1 && b@[0] == scale_pow10 && minimal_bytes(b@.skip(1)) && bytes_value(b@.skip(1))
            == encryption(pk.modulus(), pk.randomizer(), x@, bytes_value(raw@)),
{
    if scale_pow10 > MAX_SCALE_POW10 {
        return Err(SchemeError::Scale(scale_pow10));
    }
    let bound = plaintext_bound(&pk.n);
    if bound.less_than(&x.magnitude) {
        return Err(SchemeError::PlaintextTooLarge);
    }
    let ghost n = pk.n@;
    let ghost nn = n * n;
    let ghost m = x.magnitude@;
    proof {
        assert(m <= n) by {
            lemma_div_is_ordered_by_denominator(n as int, 1, (2 * SUM_HEADROOM_TERMS) as int);
        }
        assert(m * n <= n * n) by (nonlinear_arith)
            requires
                m <= n,
        ;
        lemma_fits_under_square(n, m * n, 0);
        lemma_fits_under_square(n, nn, 0);
    }
    let t = nat_mul(&x.magnitude, &pk.n);
    let one = Natural::from_u64(1);
    proof {
        assert(t@ <= nn) by (nonlinear_arith)
            requires
                t@ == m * n,
                m <= n,
                nn == n * n,
        ;
        assert(nn > 0) by (nonlinear_arith)
            requires
                nn == n * n,
                n > 1,
        ;
    }
    let a = if x.negative {
        let r = nat_rem(&nat_sub(&nat_add(&pk.nn, &one), &t), &pk.nn);
        proof {
            lemma_mod_add_multiples_vanish(1 - m * n, nn as int);
            assert(x@ == -(m as int));
            assert(1 + x@ * n == 1 - m * n) by (nonlinear_arith)
                requires
                    x@ == -(m as int),
            ;
        }
        r
    } else {
        nat_rem(&nat_add(&one, &t), &pk.nn)
    };
    assert(a@ == plain_part(x@, n));
    let b = mask_for(pk, raw);
    proof {
        lemma_mod_bound(power(pk.randomizer(), bytes_value(raw@)) as int, nn as int);
        lemma_mod_bound((1 + x@ * n) as int, nn as int);
        lemma_fits_under_square(n, a@, b@);
    }
    let c = nat_rem(&nat_mul(&a, &b), &pk.nn);
    Ok(join_blob(scale_pow10, &c))
}

/// Encrypt the integer `x` with a freshly drawn exponent of the key's
/// length.
pub fn encrypt(pk: &PublicKey, x: &Signed, scale_pow10: u8) -> (blob: Result<Vec<u8>, SchemeError>)
    requires
        pk.wf(),
    ensures
        scale_pow10 > MAX_SCALE_POW10 ==> blob == Err::<Vec<u8>, SchemeError>(
            SchemeError::Scale(scale_pow10),
        ),
        scale_pow10 <= MAX_SCALE_POW10 && x.magnitude@ > pk.bound() ==> blob == Err::<
            Vec<u8>,
            SchemeError,
        >(SchemeError::PlaintextTooLarge),
        blob is Ok <==> scale_pow10 <= MAX_SCALE_POW10 && x.magnitude@ <= pk.bound(),
        blob matches Ok(b) ==> b@.len() >= 1 && b@[0] == scale_pow10 && minimal_bytes(b@.skip(1)) && exists|r: nat|
            r < byte_radix(pk.exponent_len()) && bytes_value(b@.skip(1)) == #[trigger] encryption(
                pk.modulus(),
                pk.randomizer(),
                x@,
                r,
            ),
{
    let raw = random_exponent(pk.exponent_bytes);
    proof {
        lemma_bytes_value_bound(raw@);
    }
    encrypt_with(pk, x, scale_pow10, raw.as_slice())
}

/// What a term of a batch holds, with its position counted from one: its
/// scale and its ciphertext, or why it is refused.
pub open spec fn term_verdict(blob: Seq<u8>, index: usize, nn: nat) -> Result<(u8, nat), SchemeError> {
    match blob_verdict(blob) {
        Err(e) => Err(SchemeError::Blob(index, e)),
        Ok((pow10, c)) => if c < 1 || c >= nn {
            Err(SchemeError::OutOfRange(index))
        } else {
            Ok((pow10, c))
        },
    }
}

/// Read term `index` of a batch: the blob split, the ciphertext in
/// `[1, n²)`. Zero is not invertible, so it is the ciphertext of nothing.
fn read_term(pk: &PublicKey, index: usize, blob: &[u8]) -> (r: Result<(u8, Natural), SchemeError>)
    requires
        within_blob_limit(blob@),
        pk.wf(),
    ensures
        match (r, term_verdict(blob@, index, pk.modulus_square())) {
            (Ok((pow10, c)), Ok((e, v))) => pow10 == e && c@ == v,
            (Err(a), Err(b)) => a == b,
            _ => false,
        },
{
    let (pow10, cipher) = match split_blob(blob) {
        Ok(parts) => parts,
        Err(e) => {
            return Err(SchemeError::Blob(index, e));
        },
    };
    if cipher.is_zero() || !cipher.less_than(&pk.nn) {
        return Err(SchemeError::OutOfRange(index));
    }
    Ok((pow10, cipher))
}

/// Re-randomise the ciphertext `blob`, term `index` of a batch, with the
/// exponent bytes `raw`: multiply it by `hs^r`, an independent encryption
/// of zero. The scale byte passes through unchanged.
pub fn rerandomize_with(pk: &PublicKey, index: usize, blob: &[u8], raw: &[u8]) -> (out: Result<
    Vec<u8>,
    SchemeError,
>)
    requires
        within_blob_limit(blob@),
        pk.wf(),
        raw.len() <= pk.exponent_len(),
    ensures
        match (out, term_verdict(blob@, index, pk.modulus_square())) {
            (Ok(b), Ok((pow10, c))) => b@.len() >= 1 && b@[0] == pow10 && minimal_bytes(b@.skip(1))
                && bytes_value(b@.skip(1))
                == masked(pk.modulus(), pk.randomizer(), c, bytes_value(raw@)),
            (Err(a), Err(b)) => a == b,
            _ => false,
        },
{
    let (pow10, cipher) = match read_term(pk, index, blob) {
        Ok(parts) => parts,
        Err(e) => {
            return Err(e);
        },
    };
    let mask = mask_for(pk, raw);
    proof {
        lemma_mod_bound(power(pk.randomizer(), bytes_value(raw@)) as int, (pk.n@ * pk.n@) as int);
        lemma_fits_under_square(pk.n@, cipher@, mask@);
    }
    let result = nat_rem(&nat_mul(&cipher, &mask), &pk.nn);
    Ok(join_blob(pow10, &result))
}

/// Re-randomise with a freshly drawn exponent: same plaintext, different
/// bytes.
pub fn rerandomize(pk: &PublicKey, index: usize, blob: &[u8]) -> (out: Result<Vec<u8>, SchemeError>)
    requires
        within_blob_limit(blob@),
        pk.wf(),
    ensures
        match (out, term_verdict(blob@, index, pk.modulus_square())) {
            (Ok(b), Ok((pow10, c))) => b@.len() >= 1 && b@[0] == pow10 && minimal_bytes(b@.skip(1))
                && exists|r: nat|
                r < byte_radix(pk.exponent_len()) && bytes_value(b@.skip(1)) == #[trigger] masked(
                    pk.modulus(),
                    pk.randomizer(),
                    c,
                    r,
                ),
            (Err(a), Err(b)) => a == b,
            _ => false,
        },
{
    let raw = random_exponent(pk.exponent_bytes);
    proof {
        lemma_bytes_value_bound(raw@);
    }
    rerandomize_with(pk, index, blob, raw.as_slice())
}

/// The running sum of the first `k` terms: the common scale so far and
/// the product of the ciphertexts modulo `n²`, or the first refusal.
pub open spec fn sum_state(blobs: Seq<Vec<u8>>, nn: nat, k: nat) -> Result<(Option<u8>, nat), SchemeError>
    decreases k,
{
    if k == 0 {
        Ok((None, 1))
    } else {
        match sum_state(blobs, nn, (k - 1) as nat) {
            Err(e) => Err(e),
            Ok((scale, total)) => match blob_verdict(blobs[k - 1]@) {
                Err(e) => Err(SchemeError::Blob(k as usize, e)),
                Ok((pow10, c)) => if scale is Some && scale.unwrap() != pow10 {
                    Err(SchemeError::ScaleMismatch(k as usize, pow10, scale.unwrap()))
                } else if c < 1 || c >= nn {
                    Err(SchemeError::OutOfRange(k as usize))
                } else {
                    Ok((Some(pow10), (total * c) % nn))
                },
            },
        }
    }
}

/// A refusal of the running sum stands for every longer prefix.
pub proof fn lemma_sum_state_stops(blobs: Seq<Vec<u8>>, nn: nat, k: nat, j: nat)
    requires
        k <= j,
        sum_state(blobs, nn, k) is Err,
    ensures
        sum_state(blobs, nn, j) == sum_state(blobs, nn, k),
    decreases j,
{
    if k < j {
        lemma_sum_state_stops(blobs, nn, k, (j - 1) as nat);
    }
}

/// Add ciphertexts: multiply them modulo `n²`. An empty batch and one of
/// more than `SUM_HEADROOM_TERMS` terms are refused; so is a batch that
/// mixes scales, since adding different units gives a plausible wrong
/// number. Only the range of each term is checked, not its
/// invertibility: a `gcd` per term would cost more than the sum.
pub fn add_ciphertexts(pk: &PublicKey, blobs: &Vec<Vec<u8>>) -> (sum: Result<Vec<u8>, SchemeError>)
    requires
        forall|i: int| 0 <= i < blobs.len() ==> within_blob_limit(#[trigger] blobs@[i]@),
        pk.wf(),
    ensures
        blobs.len() == 0 ==> sum == Err::<Vec<u8>, SchemeError>(SchemeError::EmptySum),
        blobs.len() > SUM_HEADROOM_TERMS ==> sum == Err::<Vec<u8>, SchemeError>(
            SchemeError::TooManyTerms(blobs.len()),
        ),
        1 <= blobs.len() <= SUM_HEADROOM_TERMS ==> match (
            sum,
            sum_state(blobs@, pk.modulus_square(), blobs.len() as nat),
        ) {
            (Ok(b), Ok((Some(pow10), total))) => b@.len() >= 1 && b@[0] == pow10 && minimal_bytes(
                b@.skip(1),
            ) && bytes_value(
                b@.skip(1),
            ) == total,
            (Err(a), Err(b)) => a == b,
            _ => false,
        },
        sum matches Ok(b) ==> forall|i: int|
            0 <= i < blobs.len() ==> (#[trigger] blobs@[i])@.len() >= 1 && blobs@[i]@[0] == b@[0],
        (exists|i: int, j: int|
            0 <= i < blobs.len() && 0 <= j < blobs.len() && (#[trigger] blobs@[i])@.len() >= 1
                && (#[trigger] blobs@[j])@.len() >= 1 && blobs@[i]@[0] != blobs@[j]@[0])
            ==> sum is Err,
{
    if blobs.len() == 0 {
        return Err(SchemeError::EmptySum);
    }
    if blobs.len() > SUM_HEADROOM_TERMS as usize {
        return Err(SchemeError::TooManyTerms(blobs.len()));
    }
    let ghost nn = pk.modulus_square();
    proof {
        assert(nn > 1) by (nonlinear_arith)
            requires
                nn == pk.modulus() * pk.modulus(),
                pk.modulus() > 1,
        ;
    }
    let mut total = Natural::from_u64(1);
    let mut scale: Option<u8> = None;
    let mut i: usize = 0;
    while i < blobs.len()
        invariant
            pk.wf(),
            nn == pk.modulus_square(),
            1 <= blobs.len() <= SUM_HEADROOM_TERMS,
            i <= blobs.len(),
            sum_state(blobs@, nn, i as nat) == Ok::<(Option<u8>, nat), SchemeError>((scale, total@)),
            i > 0 <==> scale is Some,
            total@ < nn,
            forall|j: int| 0 <= j < blobs.len() ==> within_blob_limit(#[trigger] blobs@[j]@),
        decreases blobs.len() - i,
    {
        let index = i + 1;
        let (pow10, cipher) = match split_blob(blobs[i].as_slice()) {
            Ok(parts) => parts,
            Err(e) => {
                proof {
                    lemma_sum_state_stops(blobs@, nn, index as nat, blobs.len() as nat);
                }
                return Err(SchemeError::Blob(index, e));
            },
        };
        match scale {
            Some(first) => {
                if first != pow10 {
                    proof {
                        lemma_sum_state_stops(blobs@, nn, index as nat, blobs.len() as nat);
                    }
                    return Err(SchemeError::ScaleMismatch(index, pow10, first));
                }
            },
            None => {},
        }
        if cipher.is_zero() || !cipher.less_than(&pk.nn) {
            proof {
                lemma_sum_state_stops(blobs@, nn, index as nat, blobs.len() as nat);
            }
            return Err(SchemeError::OutOfRange(index));
        }
        proof {
            lemma_fits_under_square(pk.n@, total@, cipher@);
        }
        total = nat_rem(&nat_mul(&total, &cipher), &pk.nn);
        proof {
            lemma_mod_bound((total@) as int, nn as int);
        }
        scale = Some(pow10);
        i = i + 1;
    }
    proof {
        assert forall|i: int| 0 <= i < blobs.len() implies (#[trigger] blobs@[i])@.len() >= 1
            && blobs@[i]@[0] == scale.unwrap() by {
            crate::laws::law_sum_has_one_scale(blobs@, nn, blobs.len() as nat, i);
        }
        if exists|i: int, j: int|
            0 <= i < blobs.len() && 0 <= j < blobs.len() && (#[trigger] blobs@[i])@.len() >= 1
                && (#[trigger] blobs@[j])@.len() >= 1 && blobs@[i]@[0] != blobs@[j]@[0] {
            let (i, j) = choose|i: int, j: int|
                0 <= i < blobs.len() && 0 <= j < blobs.len() && (#[trigger] blobs@[i])@.len() >= 1
                    && (#[trigger] blobs@[j])@.len() >= 1 && blobs@[i]@[0] != blobs@[j]@[0];
            crate::laws::law_mixed_scales_refused(blobs@, nn, blobs.len() as nat, i, j);
        }
    }
    match scale {
        Some(pow10) => Ok(join_blob(pow10, &total)),
        None => {
            proof {
                assert(false);
            }
            Err(SchemeError::EmptySum)
        },
    }
}

/// `3 · 2^64`: added to every scalar so that each exponentiation runs
/// at the same width, `SCALAR_BITS + 2` bits, whatever the scalar.
pub open spec fn scalar_offset() -> nat {
    3 * 0x1_0000_0000_0000_0000
}

/// The scales of a product of term `index` by a scalar at
/// `10^scalar_pow10` (by default the ciphertext's own), or why the term
/// is refused: the scale of a product is the sum of the two.
pub open spec fn product_plan(blob: Seq<u8>, index: usize, nn: nat, scalar_pow10: Option<u8>) -> Result<
    (u8, u8, nat),
    SchemeError,
> {
    match term_verdict(blob, index, nn) {
        Err(e) => Err(e),
        Ok((pow10, c)) => {
            let scalar = match scalar_pow10 {
                Some(s) => s,
                None => pow10,
            };
            if pow10 + scalar > MAX_SCALE_POW10 {
                Err(SchemeError::ProductScale(index, (pow10 + scalar) as u32))
            } else {
                Ok((pow10, scalar, c))
            }
        },
    }
}

/// The scale at which scalar `index` is to be encoded before it
/// multiplies the ciphertext `blob`, once the term and the scale of the
/// product are checked.
pub fn product_scale(pk: &PublicKey, index: usize, blob: &[u8], scalar_pow10: Option<u8>) -> (r: Result<
    u8,
    SchemeError,
>)
    requires
        within_blob_limit(blob@),
        pk.wf(),
    ensures
        match (r, product_plan(blob@, index, pk.modulus_square(), scalar_pow10)) {
            (Ok(s), Ok((_, e, _))) => s == e,
            (Err(a), Err(b)) => a == b,
            _ => false,
        },
        scalar_pow10 is None && r is Ok ==> r == Ok::<u8, SchemeError>(blob@[0]),
        scalar_pow10 is Some && r is Ok ==> r == Ok::<u8, SchemeError>(scalar_pow10.unwrap()),
        scalar_pow10 is None && term_verdict(blob@, index, pk.modulus_square()) is Ok && 2 * blob@[0]
            <= MAX_SCALE_POW10 ==> r == Ok::<u8, SchemeError>(blob@[0]),
{
    proof {
        crate::laws::law_default_scalar_scale(blob@, index, pk.modulus_square());
    }
    let (pow10, _cipher) = match read_term(pk, index, blob) {
        Ok(parts) => parts,
        Err(e) => {
            return Err(e);
        },
    };
    let scalar = match scalar_pow10 {
        Some(s) => s,
        None => pow10,
    };
    let product_pow10: u32 = pow10 as u32 + scalar as u32;
    if product_pow10 > MAX_SCALE_POW10 as u32 {
        return Err(SchemeError::ProductScale(index, product_pow10));
    }
    Ok(scalar)
}

/// Multiply the ciphertext `blob`, term `index` of a batch, by the known
/// integer `k` encoded at `10^scalar_pow10`: `E(x) → E(k·x)`, with the
/// scale byte raised to the sum of the two scales. A zero scalar is
/// refused (the product would be the constant one), and so is one of
/// `SCALAR_BITS` bits or more. The exponent is offset to a fixed width,
/// `c^(k + 3·2^64) · (c^(3·2^64))^(-1)`, with the exponentiation safe for a
/// secret exponent; the offset is divided out by a modular inverse.
pub fn multiply_with(pk: &PublicKey, index: usize, blob: &[u8], k: &Signed, scalar_pow10: u8) -> (out:
    Result<Vec<u8>, SchemeError>)
    requires
        within_blob_limit(blob@),
        pk.wf(),
    ensures
        match product_plan(blob@, index, pk.modulus_square(), Some(scalar_pow10)) {
            Err(e) => out == Err::<Vec<u8>, SchemeError>(e),
            Ok((pow10, scalar, c)) => {
                let nn = pk.modulus_square();
                let planted = power(c, scalar_offset()) % nn;
                if k.magnitude@ == 0 {
                    out == Err::<Vec<u8>, SchemeError>(SchemeError::ScalarZero(index))
                } else if k.magnitude@ >= 0x1_0000_0000_0000_0000 {
                    out == Err::<Vec<u8>, SchemeError>(SchemeError::ScalarTooWide(index))
                } else if gcd(planted, nn) != 1 {
                    out == Err::<Vec<u8>, SchemeError>(SchemeError::NotInvertible(index))
                } else {
                    out matches Ok(b) && b@.len() >= 1 && b@[0] == pow10 + scalar && minimal_bytes(
                        b@.skip(1),
                    ) && bytes_value(
                        b@.skip(1),
                    ) < nn && (bytes_value(b@.skip(1)) * planted) % nn == power(
                        c,
                        (k@ + scalar_offset()) as nat,
                    ) % nn
                }
            },
        },
{
    let (pow10, cipher) = match read_term(pk, index, blob) {
        Ok(parts) => parts,
        Err(e) => {
            return Err(e);
        },
    };
    let product_pow10: u32 = pow10 as u32 + scalar_pow10 as u32;
    if product_pow10 > MAX_SCALE_POW10 as u32 {
        return Err(SchemeError::ProductScale(index, product_pow10));
    }
    if k.magnitude.is_zero() {
        return Err(SchemeError::ScalarZero(index));
    }
    let word = Natural::from_u64(0x1_0000_0000);
    assert(0x1_0000_0000 * 0x1_0000_0000 < value_limit() && 3 * 0x1_0000_0000_0000_0000
        < value_limit()) by {
        lemma2_to64();
        lemma2_to64_rest();
        lemma_pow2_unfold(66);
        lemma_pow2_unfold(65);
        lemma_below_limit(0x1_0000_0000 * 0x1_0000_0000, 66);
        lemma_below_limit(3 * 0x1_0000_0000_0000_0000, 66);
    }
    let limit = nat_mul(&word, &word);
    if !k.magnitude.less_than(&limit) {
        return Err(SchemeError::ScalarTooWide(index));
    }
    let offset = nat_mul(&Natural::from_u64(3), &limit);
    let ghost m = k.magnitude@;
    assert(offset@ + m < value_limit()) by {
        lemma2_to64_rest();
        lemma_pow2_unfold(66);
        lemma_pow2_unfold(65);
        lemma_below_limit(offset@ + m, 66);
    }
    let shifted = if k.negative {
        nat_sub(&offset, &k.magnitude)
    } else {
        nat_add(&offset, &k.magnitude)
    };
    let ghost nn = pk.modulus_square();
    proof {
        assert(shifted@ == k@ + scalar_offset());
        assert(pk.nn@ % 2 == 1) by {
            crate::secret::lemma_odd_square(pk.n@);
        }
    }
    let raised = nat_secure_pow_mod(&cipher, &shifted, &pk.nn);
    let planted = nat_secure_pow_mod(&cipher, &offset, &pk.nn);
    let undo = match nat_invert(&planted, &pk.nn) {
        Some(u) => u,
        None => {
            return Err(SchemeError::NotInvertible(index));
        },
    };
    assert(raised@ * undo@ < value_limit()) by {
        assert(pk.n@ * pk.n@ > 0) by (nonlinear_arith)
            requires
                pk.n@ > 1,
        ;
        lemma_mod_bound(power(cipher@, shifted@) as int, (pk.n@ * pk.n@) as int);
        lemma_fits_under_square(pk.n@, raised@, undo@);
    }
    let product = nat_rem(&nat_mul(&raised, &undo), &pk.nn);
    proof {
        assert(nn > 1) by (nonlinear_arith)
            requires
                nn == pk.n@ * pk.n@,
                pk.n@ > 1,
        ;
        lemma_mod_bound((raised@ * undo@) as int, nn as int);
        lemma_mod_bound(power(cipher@, shifted@) as int, nn as int);
        lemma_mul_mod_noop_left((raised@ * undo@) as int, planted@ as int, nn as int);
        assert(raised@ * undo@ * planted@ == raised@ * (undo@ * planted@)) by (nonlinear_arith);
        assert(undo@ * planted@ == planted@ * undo@) by (nonlinear_arith);
        lemma_mul_mod_noop_right(raised@ as int, (undo@ * planted@) as int, nn as int);
        lemma_small_mod(1, nn);
        lemma_small_mod(raised@, nn);
    }
    Ok(join_blob(product_pow10 as u8, &product))
}

/// The pairing of ciphertexts with scalars: two batches paired by
/// position must have the same length.
pub fn check_pairing(ciphertexts: usize, scalars: usize) -> (r: Result<(), SchemeError>)
    ensures
        r is Ok <==> ciphertexts == scalars,
        r matches Err(e) ==> e == SchemeError::LengthMismatch(ciphertexts, scalars),
{
    if ciphertexts != scalars {
        return Err(SchemeError::LengthMismatch(ciphertexts, scalars));
    }
    Ok(())
}

/// Decrypt one blob: its scale and the signed plaintext. A blob that does
/// not parse and a ciphertext that is not one under this key are refused.
pub fn decrypt_blob(sk: &SecretKey, blob: &[u8]) -> (r: Result<(u8, Signed), SchemeError>)
    requires
        within_blob_limit(blob@),
        sk.wf(),
    ensures
        match blob_verdict(blob@) {
            Err(e) => r == Err::<(u8, Signed), SchemeError>(SchemeError::NotABlob(e)),
            Ok((pow10, c)) => match sk.decryption(c) {
                None => r == Err::<(u8, Signed), SchemeError>(SchemeError::NotACiphertext),
                Some(v) => r matches Ok((s, x)) && s == pow10 && x@ == v,
            },
        },
{
    let (pow10, cipher) = match split_blob(blob) {
        Ok(parts) => parts,
        Err(e) => {
            return Err(SchemeError::NotABlob(e));
        },
    };
    match sk.inner.decrypt(&cipher) {
        Some(x) => Ok((pow10, x)),
        None => Err(SchemeError::NotACiphertext),
    }
}

} // verus!
