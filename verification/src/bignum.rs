//! Big natural and signed integers, held as limbs, with the arithmetic
//! that GMP (through `rug`) performs on them.
//!
//! The comparisons, the conversions to and from fixed-width limb buffers
//! and the small constructors are written and proved here. Everything
//! that is genuine multi-precision arithmetic — products, remainders,
//! modular powers, inverses, primality — is a call into `rug`, behind a
//! function whose contract states what `rug`'s documentation promises.

use vstd::prelude::*;
use vstd::arithmetic::power2::*;
use rug::integer::IsPrime;
use rug::integer::Order;
use rug::Integer;
use crate::arith::{bit_count, gcd, is_prime, power};
use crate::limbs::{
    bytes_value, lemma_limbs_value_bound, lemma_limbs_value_compare_top,
    lemma_limbs_value_fits, lemma_limbs_value_pad,
    lemma_limbs_value_single, lemma_limbs_value_split, lemma_limbs_value_take,
    lemma_limbs_value_zeros, lemma_radix_facts, lemma_radix_monotone, limb_base, limbs_value, radix,
};

verus! {

/// The largest number of limbs a value may occupy: `2^26 − 1`, so that
/// the bit length of every value, at most `64 · MAX_LIMBS < 2^32`, fits
/// the `u32` in which `rug` reports it (GMP's own ceiling, a C `int` of
/// limbs, lies far above).
pub const MAX_LIMBS: usize = 0x3ff_ffff;

/// A natural number of any size, as little-endian 64-bit limbs. Limbs
/// above the most significant one may be zero.
pub struct Natural {
    limbs: Vec<u64>,
}

impl Natural {
    #[verifier::type_invariant]
    spec fn fits(&self) -> bool {
        self.limbs.len() <= MAX_LIMBS
    }

    /// The limbs, least significant first.
    pub closed spec fn digits(&self) -> Seq<u64> {
        self.limbs@
    }
}

/// `2^(64 · MAX_LIMBS)`: every value lies below it.
pub open spec fn value_limit() -> nat {
    radix(MAX_LIMBS as nat)
}

/// The limit is `2^(64 · MAX_LIMBS)`.
pub proof fn lemma_value_limit_pow2()
    ensures
        value_limit() == pow2(64 * MAX_LIMBS as nat),
{
    crate::arith::lemma_radix_is_power(MAX_LIMBS as nat);
    crate::arith::lemma_power_is_pow(2, 64 * MAX_LIMBS as nat);
    lemma_pow2(64 * MAX_LIMBS as nat);
}

/// Below `2^b` with `b ≤ 64 · MAX_LIMBS` is below the limit.
pub proof fn lemma_below_limit(x: nat, b: nat)
    requires
        x < pow2(b),
        b <= 64 * MAX_LIMBS,
    ensures
        x < value_limit(),
{
    lemma_value_limit_pow2();
    if b < 64 * MAX_LIMBS {
        lemma_pow2_strictly_increases(b, 64 * MAX_LIMBS as nat);
    }
}

/// Below the limit, a number has at most `64 · MAX_LIMBS` bits.
pub proof fn lemma_limit_bits(x: nat)
    requires
        x < value_limit(),
    ensures
        bit_count(x) <= 64 * MAX_LIMBS,
{
    lemma_value_limit_pow2();
    crate::arith::lemma_bit_count_at_most(x, 64 * MAX_LIMBS as nat);
}

/// A product of a `bx`-bit and a `by`-bit number is below the limit when
/// the two lengths together stay within it.
pub proof fn lemma_product_below_limit(x: nat, y: nat, bx: nat, by: nat)
    requires
        x < pow2(bx),
        y < pow2(by),
        bx + by <= 64 * MAX_LIMBS,
    ensures
        x * y < value_limit(),
        x * y < pow2(bx + by),
{
    lemma_pow2_adds(bx, by);
    lemma_pow2_pos(bx);
    lemma_pow2_pos(by);
    assert(x * y < pow2(bx) * pow2(by)) by (nonlinear_arith)
        requires
            x < pow2(bx),
            y < pow2(by),
    ;
    lemma_below_limit(x * y, bx + by);
}

/// A product of two numbers below `radix(k)` is below the limit when
/// `2k` limbs fit.
pub proof fn lemma_product_fits(a: nat, b: nat, k: nat)
    requires
        a < radix(k),
        b < radix(k),
        2 * k <= MAX_LIMBS,
    ensures
        a * b < value_limit(),
{
    let r = radix(k);
    assert(a * b < r * r) by (nonlinear_arith)
        requires
            a < r,
            b < r,
    ;
    crate::limbs::lemma_radix_adds(k, k);
    lemma_radix_monotone(k + k, MAX_LIMBS as nat);
}

impl View for Natural {
    type V = nat;

    closed spec fn view(&self) -> nat {
        limbs_value(self.limbs@)
    }
}

/// A signed integer: a sign and a magnitude.
pub struct Signed {
    pub negative: bool,
    pub magnitude: Natural,
}

impl View for Signed {
    type V = int;

    open spec fn view(&self) -> int {
        if self.negative {
            -(self.magnitude@ as int)
        } else {
            self.magnitude@ as int
        }
    }
}

/// The answer of a primality test.
pub enum PrimeVerdict {
    /// Definitely composite (or below two).
    Composite,
    /// Prime with overwhelming probability.
    ProbablyPrime,
    /// Definitely prime.
    Prime,
}

/// Top limb non-zero means the value reaches the radix below.
pub proof fn lemma_top_limb(s: Seq<u64>)
    requires
        s.len() > 0,
        s.last() != 0,
    ensures
        radix((s.len() - 1) as nat) <= limbs_value(s),
{
    let k = (s.len() - 1) as nat;
    lemma_radix_facts(k);
    assert(limbs_value(s) == limbs_value(s.drop_last()) + (s.last() as nat) * radix(k));
    assert((s.last() as nat) * radix(k) >= radix(k)) by (nonlinear_arith)
        requires
            s.last() as nat >= 1,
    ;
}

/// The number of limbs up to and including the most significant non-zero one.
pub fn significant_limbs(s: &Vec<u64>) -> (k: usize)
    ensures
        k <= s.len(),
        limbs_value(s@.take(k as int)) == limbs_value(s@),
        k == 0 || s@[k - 1] != 0,
        k == 0 <==> limbs_value(s@) == 0,
{
    let mut k = s.len();
    while k > 0 && s[k - 1] == 0
        invariant
            k <= s.len(),
            forall|j: int| k <= j < s.len() ==> s@[j] == 0,
        decreases k,
    {
        k = k - 1;
    }
    proof {
        lemma_limbs_value_split(s@, k as int);
        lemma_limbs_value_zeros(s@.skip(k as int));
        let r = radix(k as nat);
        assert(r * limbs_value(s@.skip(k as int)) == 0) by (nonlinear_arith)
            requires
                limbs_value(s@.skip(k as int)) == 0,
        ;
        if k > 0 {
            lemma_top_limb(s@.take(k as int));
            lemma_radix_facts((k - 1) as nat);
        } else {
            lemma_limbs_value_zeros(s@.take(0));
        }
    }
    k
}

impl Natural {
    /// Zero.
    pub fn zero() -> (r: Natural)
        ensures
            r@ == 0,
    {
        Natural { limbs: Vec::new() }
    }

    /// A natural number from a machine word.
    pub fn from_u64(x: u64) -> (r: Natural)
        ensures
            r@ == x as nat,
    {
        let mut limbs: Vec<u64> = Vec::new();
        limbs.push(x);
        proof {
            assert(limbs@ =~= seq![x]);
            lemma_limbs_value_single(x);
        }
        Natural { limbs }
    }

    /// A natural number from little-endian limbs.
    pub fn from_limbs(limbs: Vec<u64>) -> (r: Natural)
        requires
            limbs.len() <= MAX_LIMBS,
        ensures
            r@ == limbs_value(limbs@),
    {
        Natural { limbs }
    }

    /// The limbs, least significant first.
    pub fn limbs(&self) -> (r: &Vec<u64>)
        ensures
            limbs_value(r@) == self@,
            r@ == self.digits(),
            r.len() <= MAX_LIMBS,
    {
        proof {
            use_type_invariant(self);
        }
        &self.limbs
    }

    /// A copy with the same value.
    pub fn duplicate(&self) -> (r: Natural)
        ensures
            r@ == self@,
            r.digits() == self.digits(),
    {
        proof {
            use_type_invariant(self);
        }
        Natural { limbs: self.limbs.clone() }
    }

    /// Whether the value is zero.
    pub fn is_zero(&self) -> (r: bool)
        ensures
            r == (self@ == 0),
    {
        significant_limbs(&self.limbs) == 0
    }

    /// Whether the value is odd.
    pub fn is_odd(&self) -> (r: bool)
        ensures
            r == (self@ % 2 == 1),
    {
        if self.limbs.len() == 0 {
            proof {
                assert(self.limbs@.len() == 0);
            }
            false
        } else {
            proof {
                lemma_limbs_value_split(self.limbs@, 1);
                lemma_limbs_value_take(self.limbs@, 0);
                lemma_radix_facts(0);
                lemma_radix_facts(1);
                lemma_limbs_value_zeros(self.limbs@.take(0));
                let low = self.limbs@[0] as nat;
                let high = limbs_value(self.limbs@.skip(1));
                assert(self@ == low + limb_base() * high);
                assert((low + limb_base() * high) % 2 == low % 2) by (nonlinear_arith);
            }
            self.limbs[0] % 2 == 1
        }
    }

    /// `self < other`.
    pub fn less_than(&self, other: &Natural) -> (r: bool)
        ensures
            r == (self@ < other@),
    {
        let ka = significant_limbs(&self.limbs);
        let kb = significant_limbs(&other.limbs);
        let ghost a = self.limbs@.take(ka as int);
        let ghost b = other.limbs@.take(kb as int);
        proof {
            lemma_limbs_value_bound(a);
            lemma_limbs_value_bound(b);
            if ka > 0 {
                lemma_top_limb(a);
            }
            if kb > 0 {
                lemma_top_limb(b);
            }
        }
        if ka != kb {
            proof {
                if ka < kb {
                    lemma_radix_monotone(ka as nat, (kb - 1) as nat);
                } else {
                    lemma_radix_monotone(kb as nat, (ka - 1) as nat);
                }
            }
            return ka < kb;
        }
        let mut i = ka;
        while i > 0
            invariant
                i <= ka,
                ka == kb,
                ka <= self.limbs.len(),
                kb <= other.limbs.len(),
                a == self.limbs@.take(ka as int),
                b == other.limbs@.take(kb as int),
                forall|j: int| i <= j < ka ==> a[j] == b[j],
                limbs_value(a) == self@,
                limbs_value(b) == other@,
            decreases i,
        {
            let x = self.limbs[i - 1];
            let y = other.limbs[i - 1];
            assert(a[i - 1] == x);
            assert(b[i - 1] == y);
            if x != y {
                proof {
                    if x < y {
                        lemma_limbs_value_compare_top(a, b, i - 1);
                    } else {
                        lemma_limbs_value_compare_top(b, a, i - 1);
                    }
                }
                return x < y;
            }
            i = i - 1;
        }
        proof {
            assert(a =~= b);
        }
        false
    }

    /// `self == other` as numbers.
    pub fn equals(&self, other: &Natural) -> (r: bool)
        ensures
            r == (self@ == other@),
    {
        !self.less_than(other) && !other.less_than(self)
    }

    /// Exactly `k` limbs holding this value, which must fit in them.
    pub fn to_width(&self, k: usize) -> (r: Vec<u64>)
        requires
            self@ < radix(k as nat),
        ensures
            r.len() == k,
            limbs_value(r@) == self@,
    {
        proof {
            use_type_invariant(self);
        }
        let mut out: Vec<u64> = Vec::new();
        let n = self.limbs.len();
        let mut i: usize = 0;
        while i < k
            invariant
                i <= k,
                n == self.limbs.len(),
                out.len() == i,
                forall|j: int| 0 <= j < i && j < n ==> out@[j] == self.limbs@[j],
                forall|j: int| n <= j < i ==> out@[j] == 0,
            decreases k - i,
        {
            if i < n {
                out.push(self.limbs[i]);
            } else {
                out.push(0);
            }
            i = i + 1;
        }
        proof {
            let s = self.limbs@;
            if k <= n {
                lemma_limbs_value_fits(s, k as int);
                assert(out@ =~= s.take(k as int));
            } else {
                let z = out@.skip(n as int);
                assert(out@ =~= s + z);
                lemma_limbs_value_pad(s, z);
            }
        }
        out
    }
}

impl Signed {
    /// A non-negative signed value.
    pub fn from_natural(x: Natural) -> (r: Signed)
        ensures
            r@ == x@ as int,
            !r.negative,
            r.magnitude == x,
    {
        Signed { negative: false, magnitude: x }
    }

    /// A negative value `-x` (zero stays zero).
    pub fn negated(x: Natural) -> (r: Signed)
        ensures
            r@ == -(x@ as int),
    {
        Signed { negative: true, magnitude: x }
    }
}

/// `a + b`, by `rug` (`Integer + Integer`). The sum must stay below the
/// limit: a longer one breaks the bound on every `Natural`, and beyond
/// GMP's own ceiling GMP aborts.
#[verifier::external_body]
pub fn nat_add(a: &Natural, b: &Natural) -> (r: Natural)
    requires
        a@ + b@ < value_limit(),
    ensures
        r@ == a@ + b@,
{
    let x = Integer::from_digits(&a.limbs, Order::Lsf) + Integer::from_digits(&b.limbs, Order::Lsf);
    Natural { limbs: x.to_digits::<u64>(Order::Lsf) }
}

/// `a - b` for `b <= a`, by `rug` (`Integer - Integer`).
#[verifier::external_body]
pub fn nat_sub(a: &Natural, b: &Natural) -> (r: Natural)
    requires
        b@ <= a@,
    ensures
        r@ == a@ - b@,
{
    let x = Integer::from_digits(&a.limbs, Order::Lsf) - Integer::from_digits(&b.limbs, Order::Lsf);
    Natural { limbs: x.to_digits::<u64>(Order::Lsf) }
}

/// `a · b`, by `rug` (`Integer * Integer`).
#[verifier::external_body]
pub fn nat_mul(a: &Natural, b: &Natural) -> (r: Natural)
    requires
        a@ * b@ < value_limit(),
    ensures
        r@ == a@ * b@,
{
    let x = Integer::from_digits(&a.limbs, Order::Lsf) * Integer::from_digits(&b.limbs, Order::Lsf);
    Natural { limbs: x.to_digits::<u64>(Order::Lsf) }
}

/// Quotient and remainder of `a / d`, by `rug`'s `Integer::div_rem`,
/// which truncates; on naturals that is the floor. `rug` panics on a zero
/// divisor.
#[verifier::external_body]
pub fn nat_div_rem(a: &Natural, d: &Natural) -> (r: (Natural, Natural))
    requires
        d@ > 0,
    ensures
        r.0@ == a@ / d@,
        r.1@ == a@ % d@,
{
    let (q, m) = Integer::from_digits(&a.limbs, Order::Lsf).div_rem(
        Integer::from_digits(&d.limbs, Order::Lsf),
    );
    (Natural { limbs: q.to_digits::<u64>(Order::Lsf) }, Natural { limbs: m.to_digits::<u64>(Order::Lsf) })
}

/// `a mod m`, by `rug` (`Integer % Integer`), which panics on a zero
/// modulus.
#[verifier::external_body]
pub fn nat_rem(a: &Natural, m: &Natural) -> (r: Natural)
    requires
        m@ > 0,
    ensures
        r@ == a@ % m@,
{
    let x = Integer::from_digits(&a.limbs, Order::Lsf) % Integer::from_digits(&m.limbs, Order::Lsf);
    Natural { limbs: x.to_digits::<u64>(Order::Lsf) }
}

/// `gcd(a, b)`, by `rug`'s `Integer::gcd`; zero only when both are zero.
#[verifier::external_body]
pub fn nat_gcd(a: &Natural, b: &Natural) -> (r: Natural)
    ensures
        r@ == gcd(a@, b@),
{
    let x = Integer::from_digits(&a.limbs, Order::Lsf).gcd(&Integer::from_digits(&b.limbs, Order::Lsf));
    Natural { limbs: x.to_digits::<u64>(Order::Lsf) }
}

/// `b^e mod m`, by `rug`'s `Integer::pow_mod`. With a non-negative
/// exponent an answer exists exactly when the modulus is not zero.
#[verifier::external_body]
pub fn nat_pow_mod(b: &Natural, e: &Natural, m: &Natural) -> (r: Option<Natural>)
    ensures
        r is Some <==> m@ > 0,
        r matches Some(v) ==> v@ == power(b@, e@) % m@,
{
    match Integer::from_digits(&b.limbs, Order::Lsf).pow_mod(
        &Integer::from_digits(&e.limbs, Order::Lsf),
        &Integer::from_digits(&m.limbs, Order::Lsf),
    ) {
        Ok(v) => Some(Natural { limbs: v.to_digits::<u64>(Order::Lsf) }),
        Err(_) => None,
    }
}

/// `b^e mod m`, by `rug`'s `Integer::secure_pow_mod`, the variant resilient
/// to side channels. `rug` panics unless the exponent is positive and the
/// modulus odd.
#[verifier::external_body]
pub fn nat_secure_pow_mod(b: &Natural, e: &Natural, m: &Natural) -> (r: Natural)
    requires
        e@ > 0,
        m@ % 2 == 1,
    ensures
        r@ == power(b@, e@) % m@,
{
    let x = Integer::from_digits(&b.limbs, Order::Lsf).secure_pow_mod(
        &Integer::from_digits(&e.limbs, Order::Lsf),
        &Integer::from_digits(&m.limbs, Order::Lsf),
    );
    Natural { limbs: x.to_digits::<u64>(Order::Lsf) }
}

/// The inverse of `a` modulo `m`, by `rug`'s `Integer::invert`: it exists
/// exactly when the modulus is not zero and `a` is coprime with it. `rug`
/// takes GMP's extended-gcd cofactor, which lies in `(−m, m)`, and adds
/// `m` when it is negative, so the inverse lies in `[0, m)`.
#[verifier::external_body]
pub fn nat_invert(a: &Natural, m: &Natural) -> (r: Option<Natural>)
    ensures
        r is Some <==> (m@ > 0 && gcd(a@, m@) == 1),
        r matches Some(v) ==> (a@ * v@) % m@ == 1nat % m@,
        r matches Some(v) ==> v@ < m@,
{
    match Integer::from_digits(&a.limbs, Order::Lsf).invert(&Integer::from_digits(&m.limbs, Order::Lsf)) {
        Ok(v) => Some(Natural { limbs: v.to_digits::<u64>(Order::Lsf) }),
        Err(_) => None,
    }
}

/// The answer of GMP's primality test (`mpz_probab_prime_p`) on `a` with
/// `reps` rounds. The test draws its Miller–Rabin bases from a generator
/// with GMP's fixed default seed, so the answer is a function of the two
/// arguments.
pub uninterp spec fn primality_verdict(a: nat, reps: nat) -> PrimeVerdict;

/// A probabilistic primality test, by `rug`'s `Integer::is_probably_prime`
/// with `reps` rounds. `No` is a proof of compositeness and `Yes` a proof
/// of primality; `Probably` proves nothing. `rug` panics on more rounds
/// than a C `int` holds.
#[verifier::external_body]
pub fn nat_primality(a: &Natural, reps: u32) -> (r: PrimeVerdict)
    requires
        reps <= 0x7fff_ffff,
    ensures
        r == primality_verdict(a@, reps as nat),
        r is Composite ==> !is_prime(a@),
        r is Prime ==> is_prime(a@),
{
    match Integer::from_digits(&a.limbs, Order::Lsf).is_probably_prime(reps) {
        IsPrime::No => PrimeVerdict::Composite,
        IsPrime::Probably => PrimeVerdict::ProbablyPrime,
        IsPrime::Yes => PrimeVerdict::Prime,
    }
}

/// The Jacobi symbol `(a / n)`: a function of its two arguments with a
/// definition too long to restate.
pub uninterp spec fn jacobi_symbol(a: nat, n: nat) -> int;

/// The Jacobi symbol `(a / n)`, by `rug`'s `Integer::jacobi` (GMP's
/// `mpz_jacobi`, defined for odd `n` only). Its value is -1, 0 or 1.
#[verifier::external_body]
pub fn nat_jacobi(a: &Natural, n: &Natural) -> (r: i32)
    requires
        n@ % 2 == 1,
    ensures
        r == jacobi_symbol(a@, n@),
        -1 <= r <= 1,
{
    Integer::from_digits(&a.limbs, Order::Lsf).jacobi(&Integer::from_digits(&n.limbs, Order::Lsf))
}

/// The number of significant bits, by `rug`'s `Integer::significant_bits`
/// (zero for zero).
#[verifier::external_body]
pub fn nat_bits(a: &Natural) -> (r: u32)
    ensures
        r as nat == bit_count(a@),
{
    Integer::from_digits(&a.limbs, Order::Lsf).significant_bits()
}

/// A big-endian byte string as a number, by `rug`'s `Integer::from_digits`
/// with `Order::MsfBe`, for at most `8 · MAX_LIMBS` bytes.
#[verifier::external_body]
pub fn nat_from_bytes(bytes: &[u8]) -> (r: Natural)
    requires
        bytes.len() <= 8 * MAX_LIMBS,
    ensures
        r@ == bytes_value(bytes@),
{
    Natural { limbs: Integer::from_digits(bytes, Order::MsfBe).to_digits::<u64>(Order::Lsf) }
}

/// The big-endian bytes of a number, by `rug`'s `Integer::to_digits` with
/// `Order::MsfBe`: as many bytes as the value needs, none for zero, so
/// the first byte is never zero.
#[verifier::external_body]
pub fn nat_to_bytes(a: &Natural) -> (r: Vec<u8>)
    ensures
        bytes_value(r@) == a@,
        r.len() == 0 || r@[0] != 0,
        r.len() <= 8 * MAX_LIMBS,
{
    Integer::from_digits(&a.limbs, Order::Lsf).to_digits::<u8>(Order::MsfBe)
}

/// The low `n` bits of `a`, by `rug`'s `Integer::keep_bits_mut`.
#[verifier::external_body]
pub fn nat_keep_bits(a: &Natural, n: u32) -> (r: Natural)
    ensures
        r@ == a@ % pow2(n as nat),
{
    let mut x = Integer::from_digits(&a.limbs, Order::Lsf);
    x.keep_bits_mut(n);
    Natural { limbs: x.to_digits::<u64>(Order::Lsf) }
}

/// `a` with bit `i` set, by `rug`'s `Integer::set_bit`, where the result
/// stays below the limit.
#[verifier::external_body]
pub fn nat_set_bit(a: &Natural, i: u32) -> (r: Natural)
    requires
        a@ + pow2(i as nat) < value_limit(),
    ensures
        r@ == if (a@ / pow2(i as nat)) % 2 == 1 {
            a@
        } else {
            a@ + pow2(i as nat)
        },
{
    let mut x = Integer::from_digits(&a.limbs, Order::Lsf);
    x.set_bit(i, true);
    Natural { limbs: x.to_digits::<u64>(Order::Lsf) }
}

/// `a mod m` for a word-sized modulus, by `rug`'s `Integer::mod_u`, which
/// panics on zero.
#[verifier::external_body]
pub fn nat_mod_u32(a: &Natural, m: u32) -> (r: u32)
    requires
        m > 0,
    ensures
        r as nat == a@ % (m as nat),
{
    Integer::from_digits(&a.limbs, Order::Lsf).mod_u(m)
}

} // verus!
