//! Montgomery arithmetic on fixed-width limb buffers.
//!
//! A multiplication costs the same whatever the values in its operands:
//! every buffer has exactly `limbs` limbs, nothing is ever normalised,
//! and the final conditional subtraction is done under a mask rather than
//! a branch. The multi-precision steps — the full product, the
//! multiply-and-add of one limb, the subtraction — are written here on
//! limbs and proved, and so is the reduction built from them.

use vstd::prelude::*;
use vstd::arithmetic::power2::*;
use vstd::arithmetic::div_mod::*;
use vstd::arithmetic::mul::*;
use crate::arith::{lemma_radix_inverse, lemma_mul_mod, radix_inverse};
use crate::bignum::{nat_mul, nat_rem, Natural, Signed, MAX_LIMBS};
use crate::limbs::{
    lemma_limbs_value_bound, lemma_limbs_value_push, lemma_limbs_value_split,
    lemma_limbs_value_take, lemma_limbs_value_update, lemma_limbs_value_zeros, lemma_radix_adds,
    lemma_radix_facts, lemma_radix_monotone, limb_base, limbs_value, radix,
};

verus! {

/// A limb: one machine word.
pub type Limb = u64;

/// Bits in a limb.
pub const LIMB_BITS: u32 = 64;

/// Everything derived from an odd modulus once: the modulus itself in
/// `limbs` limbs, `−N^{-1} mod 2^64`, `R² mod N` and `R mod N`, where
/// `R = 2^(64 · limbs)`.
pub struct Montgomery {
    limbs: usize,
    modulus: Vec<Limb>,
    n_prime: Limb,
    r_squared: Vec<Limb>,
    one: Vec<Limb>,
}

/// Reusable buffers, so a multiplication allocates nothing.
pub struct Work {
    product: Vec<Limb>,
    scratch: Vec<Limb>,
}

impl Work {
    /// Scratch buffers for operands of `limbs` limbs.
    pub fn new(limbs: usize) -> (w: Work)
        requires
            limbs <= MAX_LIMBS,
        ensures
            w.fits(limbs as nat),
    {
        Work { product: vec![0; 2 * limbs], scratch: vec![0; limbs] }
    }

    /// The buffers are sized for `k`-limb operands.
    pub closed spec fn fits(&self, k: nat) -> bool {
        self.product.len() == 2 * k && self.scratch.len() == k
    }
}

impl Montgomery {
    /// The modulus `N`.
    pub closed spec fn modulus_value(&self) -> nat {
        limbs_value(self.modulus@)
    }

    /// The number of limbs `k` of every operand.
    pub closed spec fn width(&self) -> nat {
        self.limbs as nat
    }

    /// `R = 2^(64 k)`.
    pub open spec fn radix_value(&self) -> nat {
        radix(self.width())
    }

    /// `R^{-1} mod N`.
    pub open spec fn radix_inverse_value(&self) -> nat {
        radix_inverse(self.modulus_value(), self.width())
    }

    /// The value a limb buffer stands for in Montgomery form: `v · R^{-1} mod N`.
    pub open spec fn decoded(&self, v: Seq<Limb>) -> nat {
        (limbs_value(v) * self.radix_inverse_value()) % self.modulus_value()
    }

    /// A buffer the multiplication accepts: `k` limbs holding a value below `N`.
    pub open spec fn reduced(&self, v: Seq<Limb>) -> bool {
        v.len() == self.width() && limbs_value(v) < self.modulus_value()
    }

    /// The context is consistent: an odd modulus of `limbs` limbs, the
    /// negated inverse of its low limb, `R² mod N` and `R mod N`.
    pub closed spec fn wf(&self) -> bool {
        &&& self.limbs > 0
        &&& self.limbs <= MAX_LIMBS
        &&& self.modulus@.len() == self.limbs
        &&& self.r_squared@.len() == self.limbs
        &&& self.one@.len() == self.limbs
        &&& limbs_value(self.modulus@) % 2 == 1
        &&& (self.n_prime as nat * self.modulus@[0] as nat) % limb_base() == limb_base() - 1
        &&& limbs_value(self.r_squared@) == (radix(self.limbs as nat) * radix(self.limbs as nat))
            % limbs_value(self.modulus@)
        &&& limbs_value(self.one@) == radix(self.limbs as nat) % limbs_value(self.modulus@)
    }

    /// What well-formedness gives a caller.
    pub proof fn lemma_wf(&self)
        requires
            self.wf(),
        ensures
            self.width() > 0,
            self.width() <= MAX_LIMBS,
            self.modulus_value() % 2 == 1,
            self.modulus_value() < self.radix_value(),
            self.modulus_value() > 0,
    {
        lemma_limbs_value_bound(self.modulus@);
    }
}

/// `x^{-1} mod 2^k` doubles its precision under Newton's step.
proof fn lemma_newton_step(x: nat, inv: nat, kk: nat, m: nat)
    requires
        x % 2 == 1,
        inv < limb_base(),
        kk > 1,
        m == kk * kk,
        limb_base() % m == 0,
        (x * inv) % kk == 1,
    ensures
        ({
            let t = (x * inv) % limb_base();
            let s = if 2 - t < 0 { 2 - t + limb_base() } else { 2 - t };
            let next = (inv * (s as nat)) % limb_base();
            (x * next) % m == 1
        }),
{
    let b = limb_base() as int;
    let y = (x * inv) as int;
    let t = y % b;
    let s: int = if 2 - t < 0 { 2 - t + b } else { 2 - t };
    let next = ((inv as int) * s) % b;
    let mi = m as int;
    let k = kk as int;
    assert(m > 1) by (nonlinear_arith)
        requires
            m == kk * kk,
            kk > 1,
    ;
    // `next ≡ inv · s (mod m)` because `m` divides `b`.
    let q = b / mi;
    lemma_fundamental_div_mod(b, mi);
    assert(b == mi * q);
    assert(q > 0) by (nonlinear_arith)
        requires
            b == mi * q,
            b > 0,
            mi > 0,
    ;
    lemma_mod_mod((inv as int) * s, mi, q);
    assert(next % mi == ((inv as int) * s) % mi);
    // `s ≡ 2 − y (mod m)`.
    lemma_mod_mod(y, mi, q);
    assert(t % mi == y % mi);
    assert(s % mi == (2 - y) % mi) by {
        if 2 - t < 0 {
            lemma_mod_add_multiples_vanish(2 - t, b);
            lemma_mod_multiples_vanish(q, 2 - t, mi);
            assert(2 - t + b == mi * q + (2 - t));
        }
        lemma_fundamental_div_mod(y, b);
        assert(2 - y == (2 - t) - b * (y / b));
        lemma_mod_multiples_vanish(-(q * (y / b)), 2 - t, mi);
        assert(mi * -(q * (y / b)) + (2 - t) == (2 - t) - b * (y / b)) by (nonlinear_arith)
            requires
                b == mi * q,
        ;
    }
    // `x · next ≡ y · (2 − y) (mod m)`.
    lemma_mul_mod_noop_general(x as int, next, mi);
    lemma_mul_mod_noop_general(x as int, (inv as int) * s, mi);
    assert((x as int) * ((inv as int) * s) == y * s) by (nonlinear_arith)
        requires
            y == (x * inv) as int,
    ;
    lemma_mul_mod_noop_general(y, s, mi);
    lemma_mul_mod_noop_general(y, 2 - y, mi);
    assert(((x as int) * next) % mi == (y * (2 - y)) % mi);
    // `y = 1 + k·c`, so `y (2 − y) = 1 − m c²`.
    let c = y / k;
    lemma_fundamental_div_mod(y, k);
    assert(y == k * c + 1);
    assert(y * (2 - y) == 1 + mi * (-(c * c))) by (nonlinear_arith)
        requires
            y == k * c + 1,
            mi == k * k,
    ;
    lemma_mod_multiples_vanish(-(c * c), 1, mi);
    lemma_small_mod(1, m);
}

/// `x^{-1} mod 2^64` by Newton iteration, for odd `x`: each step doubles
/// the number of correct bits, so six steps take one to sixty-four.
fn inverse_mod_word(x: Limb) -> (inverse: Limb)
    requires
        x % 2 == 1,
    ensures
        (x as nat * inverse as nat) % limb_base() == 1,
{
    let mut inverse: Limb = 1;
    proof {
        lemma_pow2_pos(1);
        lemma2_to64();
        assert((x as nat * 1) % 2 == 1);
    }
    for i in 0..6
        invariant
            x % 2 == 1,
            (x as nat * inverse as nat) % pow2(pow2(i as nat)) == 1,
    {
        let ghost kk = pow2(pow2(i as nat));
        let ghost m = pow2(pow2((i + 1) as nat));
        proof {
            lemma2_to64();
            lemma2_to64_rest();
            lemma_pow2_adds(pow2(i as nat), pow2(i as nat));
            assert(pow2((i + 1) as nat) == pow2(i as nat) + pow2(i as nat));
            assert(m == kk * kk);
            assert(pow2((i + 1) as nat) <= 64);
            lemma_pow2_adds((64 - pow2((i + 1) as nat)) as nat, pow2((i + 1) as nat));
            assert(limb_base() == pow2(64));
            lemma_mod_multiples_basic(pow2((64 - pow2((i + 1) as nat)) as nat) as int, m as int);
            lemma_pow2_strictly_increases(0, pow2(i as nat));
            lemma_newton_step(x as nat, inverse as nat, kk, m);
        }
        inverse = inverse.wrapping_mul(2u64.wrapping_sub(x.wrapping_mul(inverse)));
    }
    proof {
        lemma2_to64();
        lemma2_to64_rest();
    }
    inverse
}

/// The low limb vanishes when the multiple of the modulus is chosen by
/// `u = p · n′ mod 2^64`, where `n′ · N₀ ≡ −1`.
proof fn lemma_redc_low_limb(p: nat, np: nat, n0: nat)
    requires
        (np * n0) % limb_base() == limb_base() - 1,
    ensures
        (p + n0 * ((p * np) % limb_base())) % limb_base() == 0,
{
    let b = limb_base() as int;
    let u = (p * np) % limb_base();
    lemma_mul_mod_noop_general(n0 as int, (p * np) as int, b);
    assert((n0 * (p * np)) == p * (np * n0)) by (nonlinear_arith);
    lemma_mul_mod_noop_general(p as int, (np * n0) as int, b);
    assert((n0 * u) % limb_base() == (p * ((limb_base() - 1) as nat)) % limb_base());
    lemma_add_mod_noop(p as int, (n0 * u) as int, b);
    lemma_add_mod_noop(p as int, (p * ((limb_base() - 1) as nat)) as int, b);
    assert(p + p * ((limb_base() - 1) as nat) == p * limb_base()) by (nonlinear_arith);
    lemma_mod_multiples_basic(p as int, b);
}

/// One step of a multiply-and-add chain keeps the running identity.
proof fn lemma_addmul_step(
    v: nat,
    c: nat,
    rp: nat,
    t: nat,
    x: nat,
    sj: nat,
    u: nat,
    r_off: nat,
    r_j: nat,
    vs: nat,
    orig: nat,
    v2: nat,
    c2: nat,
)
    requires
        v + c * rp == orig + u * vs * r_off,
        rp == r_off * r_j,
        t == x + sj * u + c,
        v2 + x * rp == v + (t % limb_base()) * rp,
        c2 == t / limb_base(),
    ensures
        v2 + c2 * (rp * limb_base()) == orig + u * (vs + sj * r_j) * r_off,
{
    let b = limb_base();
    lemma_fundamental_div_mod(t as int, b as int);
    assert(t == (t % b) + b * (t / b));
    let lo = t % b;
    assert(t == lo + b * c2);
    assert(c2 * (rp * b) == (b * c2) * rp) by (nonlinear_arith);
    assert(lo * rp + (b * c2) * rp == t * rp) by (nonlinear_arith)
        requires
            t == lo + b * c2,
    ;
    assert(t * rp == x * rp + sj * u * rp + c * rp) by (nonlinear_arith)
        requires
            t == x + sj * u + c,
    ;
    assert(sj * u * rp == u * (sj * r_j) * r_off) by (nonlinear_arith)
        requires
            rp == r_off * r_j,
    ;
    assert(u * (vs + sj * r_j) * r_off == u * vs * r_off + u * (sj * r_j) * r_off)
        by (nonlinear_arith);
}

/// `rp[off .. off+n] += s · u`, returning the carry out of the top limb.
fn addmul_1(rp: &mut Vec<Limb>, off: usize, s: &[Limb], u: Limb) -> (carry: Limb)
    requires
        off + s.len() <= old(rp).len(),
    ensures
        final(rp).len() == old(rp).len(),
        limbs_value(final(rp)@) + carry * radix((off + s.len()) as nat) == limbs_value(old(rp)@) + u
            * limbs_value(s@) * radix(off as nat),
        forall|j: int|
            0 <= j < old(rp).len() && !(off <= j < off + s.len()) ==> final(rp)@[j] == old(rp)@[j],
        s.len() > 0 ==> final(rp)@[off as int] == (old(rp)@[off as int] + s@[0] * u) % (limb_base() as int),
{
    let ghost orig = rp@;
    let n = s.len();
    let mut carry: Limb = 0;
    let mut j: usize = 0;
    proof {
        lemma_limbs_value_zeros(s@.take(0));
        assert(u * limbs_value(s@.take(0)) * radix(off as nat) == 0) by (nonlinear_arith)
            requires
                limbs_value(s@.take(0)) == 0,
        ;
    }
    while j < n
        invariant
            n == s.len(),
            off + n <= rp.len(),
            rp.len() == orig.len(),
            j <= n,
            limbs_value(rp@) + carry * radix((off + j) as nat) == limbs_value(orig) + u
                * limbs_value(s@.take(j as int)) * radix(off as nat),
            forall|i: int| 0 <= i < rp.len() && !(off <= i < off + j) ==> rp@[i] == orig[i],
            j > 0 ==> rp@[off as int] == (orig[off as int] + s@[0] * u) % (limb_base() as int),
            j == 0 ==> carry == 0,
        decreases n - j,
    {
        let p = off + j;
        let x = rp[p];
        let sj = s[j];
        proof {
            assert((sj as nat) * (u as nat) <= 0xffff_ffff_ffff_ffff * 0xffff_ffff_ffff_ffff)
                by (nonlinear_arith)
                requires
                    sj <= 0xffff_ffff_ffff_ffff,
                    u <= 0xffff_ffff_ffff_ffff,
            ;
        }
        let t: u128 = (x as u128) + (sj as u128) * (u as u128) + (carry as u128);
        let low = (t % 0x1_0000_0000_0000_0000) as u64;
        let high = (t / 0x1_0000_0000_0000_0000) as u64;
        let ghost v = limbs_value(rp@);
        let ghost before = rp@;
        rp.set(p, low);
        proof {
            lemma_limbs_value_update(before, p as int, low);
            lemma_radix_adds(off as nat, j as nat);
            lemma_radix_facts((off + j) as nat);
            lemma_limbs_value_take(s@, j as int);
            lemma_addmul_step(
                v,
                carry as nat,
                radix((off + j) as nat),
                t as nat,
                x as nat,
                sj as nat,
                u as nat,
                radix(off as nat),
                radix(j as nat),
                limbs_value(s@.take(j as int)),
                limbs_value(orig),
                limbs_value(rp@),
                high as nat,
            );
            assert((off + j + 1) as nat == ((off + j) as nat) + 1);
            if j == 0 {
                assert(x == orig[off as int]);
                assert(carry == 0);
            }
        }
        carry = high;
        j = j + 1;
    }
    proof {
        assert(s@.take(n as int) =~= s@);
    }
    carry
}

/// `rp = a · b` in `2k` limbs — the schoolbook product, one row per limb
/// of `b`.
fn mul_n(rp: &mut Vec<Limb>, a: &[Limb], b: &[Limb])
    requires
        a.len() == b.len(),
        old(rp).len() == 2 * a.len(),
    ensures
        final(rp).len() == old(rp).len(),
        limbs_value(final(rp)@) == limbs_value(a@) * limbs_value(b@),
{
    let k = a.len();
    let total = rp.len();
    let mut i: usize = 0;
    while i < total
        invariant
            total == rp.len(),
            i <= total,
            forall|j: int| 0 <= j < i ==> rp@[j] == 0,
        decreases total - i,
    {
        rp.set(i, 0);
        i = i + 1;
    }
    proof {
        lemma_limbs_value_zeros(rp@);
        lemma_limbs_value_zeros(b@.take(0));
    }
    let mut i: usize = 0;
    while i < k
        invariant
            k == a.len(),
            k == b.len(),
            rp.len() == 2 * k,
            i <= k,
            limbs_value(rp@) == limbs_value(a@) * limbs_value(b@.take(i as int)),
            forall|j: int| i + k <= j < 2 * k ==> rp@[j] == 0,
        decreases k - i,
    {
        let ghost v = limbs_value(rp@);
        let carry = addmul_1(rp, i, a, b[i]);
        let ghost mid = rp@;
        assert(mid[(i + k) as int] == 0);
        rp.set(i + k, carry);
        proof {
            lemma_limbs_value_update(mid, (i + k) as int, carry);
            lemma_limbs_value_take(b@, i as int);
            let va = limbs_value(a@);
            let vb = limbs_value(b@.take(i as int));
            let bi = b@[i as int] as nat;
            let ri = radix(i as nat);
            assert(limbs_value(mid) + carry * radix((i + k) as nat) == v + bi * va * ri);
            assert(va * (vb + bi * ri) == va * vb + bi * va * ri) by (nonlinear_arith);
        }
        i = i + 1;
    }
    proof {
        assert(b@.take(k as int) =~= b@);
    }
}

/// One step of a subtraction with borrow keeps the running identity.
proof fn lemma_sub_step(
    vr: nat,
    vb: nat,
    va: nat,
    br: nat,
    rj: nat,
    aj: nat,
    bj: nat,
    t: nat,
    br2: nat,
    low: nat,
)
    requires
        vr + vb == va + br * rj,
        br <= 1,
        t == aj + limb_base() - bj - br,
        aj < limb_base(),
        bj < limb_base(),
        low == t % limb_base(),
        br2 == 1 - t / limb_base(),
        t / limb_base() <= 1,
    ensures
        (vr + low * rj) + (vb + bj * rj) == (va + aj * rj) + br2 * (rj * limb_base()),
{
    let b = limb_base();
    lemma_fundamental_div_mod(t as int, b as int);
    assert(t == low + b * (t / b));
    assert(aj + br2 * b == low + bj + br) by {
        if t / b == 0 {
            assert(t == low);
        } else {
            assert(t == low + b);
        }
    }
    assert((vr + low * rj) + (vb + bj * rj) == va + (br + low + bj) * rj) by (nonlinear_arith)
        requires
            vr + vb == va + br * rj,
    ;
    assert((aj + br2 * b) * rj == aj * rj + br2 * (rj * b)) by (nonlinear_arith);
}

/// `rp = a − b mod R`, returning the borrow: `rp + b = a + borrow · R`.
fn sub_n(rp: &mut Vec<Limb>, a: &[Limb], b: &[Limb]) -> (borrow: Limb)
    requires
        a.len() == b.len(),
        old(rp).len() == a.len(),
    ensures
        final(rp).len() == a.len(),
        borrow <= 1,
        limbs_value(final(rp)@) + limbs_value(b@) == limbs_value(a@) + borrow * radix(a.len() as nat),
{
    let k = a.len();
    let mut borrow: Limb = 0;
    let mut j: usize = 0;
    proof {
        lemma_limbs_value_zeros(a@.take(0));
        lemma_limbs_value_zeros(b@.take(0));
        lemma_limbs_value_zeros(rp@.take(0));
    }
    while j < k
        invariant
            k == a.len(),
            k == b.len(),
            rp.len() == k,
            j <= k,
            borrow <= 1,
            limbs_value(rp@.take(j as int)) + limbs_value(b@.take(j as int)) == limbs_value(
                a@.take(j as int),
            ) + borrow * radix(j as nat),
        decreases k - j,
    {
        let aj = a[j];
        let bj = b[j];
        let t: u128 = (aj as u128) + 0x1_0000_0000_0000_0000 - (bj as u128) - (borrow as u128);
        let low = (t % 0x1_0000_0000_0000_0000) as u64;
        let over = (t / 0x1_0000_0000_0000_0000) as u64;
        let ghost before = rp@;
        rp.set(j, low);
        proof {
            assert(rp@.take(j as int) =~= before.take(j as int));
            lemma_limbs_value_take(rp@, j as int);
            lemma_limbs_value_take(a@, j as int);
            lemma_limbs_value_take(b@, j as int);
            lemma_radix_facts(j as nat);
            lemma_sub_step(
                limbs_value(before.take(j as int)),
                limbs_value(b@.take(j as int)),
                limbs_value(a@.take(j as int)),
                borrow as nat,
                radix(j as nat),
                aj as nat,
                bj as nat,
                t as nat,
                (1 - over) as nat,
                low as nat,
            );
        }
        borrow = 1 - over;
        j = j + 1;
    }
    proof {
        assert(a@.take(k as int) =~= a@);
        assert(b@.take(k as int) =~= b@);
        assert(rp@.take(k as int) =~= rp@);
    }
    borrow
}

/// Under a 0/1 flag, the masked limb is the limb or zero.
proof fn lemma_mask(x: u64, flag: u64)
    requires
        flag <= 1,
    ensures
        x & (0u64.wrapping_sub(flag)) == if flag == 1 { x } else { 0 },
{
    if flag == 1 {
        assert(0u64.wrapping_sub(1) == 0xffff_ffff_ffff_ffffu64);
        assert(x & 0xffff_ffff_ffff_ffffu64 == x) by (bit_vector);
    } else {
        assert(0u64.wrapping_sub(0) == 0u64);
        assert(x & 0u64 == 0) by (bit_vector);
    }
}

/// `rp = rp − b` when `flag` is one and `rp` unchanged when it is zero,
/// without a branch on the flag; returns the borrow.
fn cnd_sub_n(flag: Limb, rp: &mut [Limb], b: &[Limb]) -> (borrow: Limb)
    requires
        flag <= 1,
        old(rp).len() == b.len(),
    ensures
        final(rp).len() == b.len(),
        borrow <= 1,
        limbs_value(final(rp)@) + (if flag == 1 { limbs_value(b@) } else { 0 }) == limbs_value(
            old(rp)@,
        ) + borrow * radix(b.len() as nat),
{
    let ghost orig = rp@;
    let mask: Limb = 0u64.wrapping_sub(flag);
    let ghost masked = if flag == 1 { b@ } else { Seq::new(b.len() as nat, |i: int| 0u64) };
    let k = b.len();
    let mut borrow: Limb = 0;
    let mut j: usize = 0;
    proof {
        lemma_limbs_value_zeros(orig.take(0));
        lemma_limbs_value_zeros(masked.take(0));
        lemma_limbs_value_zeros(rp@.take(0));
    }
    while j < k
        invariant
            k == b.len(),
            rp.len() == k,
            orig.len() == k,
            masked.len() == k,
            mask == 0u64.wrapping_sub(flag),
            flag <= 1,
            masked == if flag == 1 { b@ } else { Seq::new(b.len() as nat, |i: int| 0u64) },
            forall|i: int| j <= i < k ==> rp@[i] == orig[i],
            j <= k,
            borrow <= 1,
            limbs_value(rp@.take(j as int)) + limbs_value(masked.take(j as int)) == limbs_value(
                orig.take(j as int),
            ) + borrow * radix(j as nat),
        decreases k - j,
    {
        let aj = rp[j];
        let bj = b[j] & mask;
        proof {
            lemma_mask(b@[j as int], flag);
            assert(bj == masked[j as int]);
            assert(aj == orig[j as int]);
        }
        let t: u128 = (aj as u128) + 0x1_0000_0000_0000_0000 - (bj as u128) - (borrow as u128);
        let low = (t % 0x1_0000_0000_0000_0000) as u64;
        let over = (t / 0x1_0000_0000_0000_0000) as u64;
        let ghost before = rp@;
        rp[j] = low;
        proof {
            assert(rp@.take(j as int) =~= before.take(j as int));
            lemma_limbs_value_take(rp@, j as int);
            lemma_limbs_value_take(orig, j as int);
            lemma_limbs_value_take(masked, j as int);
            lemma_radix_facts(j as nat);
            lemma_sub_step(
                limbs_value(before.take(j as int)),
                limbs_value(masked.take(j as int)),
                limbs_value(orig.take(j as int)),
                borrow as nat,
                radix(j as nat),
                aj as nat,
                bj as nat,
                t as nat,
                (1 - over) as nat,
                low as nat,
            );
        }
        borrow = 1 - over;
        j = j + 1;
    }
    proof {
        assert(orig.take(k as int) =~= orig);
        assert(masked.take(k as int) =~= masked);
        assert(rp@.take(k as int) =~= rp@);
        if flag != 1 {
            lemma_limbs_value_zeros(masked);
        }
    }
    borrow
}

/// The reduction leaves less than twice the modulus.
proof fn lemma_redc_bound(t: nat, r: nat, n: nat, a: nat, b: nat, u: nat)
    requires
        t * r == a * b + u * n,
        a < n,
        b < n,
        u < r,
        n < r,
        n > 0,
    ensures
        t < 2 * n,
{
    assert(a * b < n * n) by (nonlinear_arith)
        requires
            a < n,
            b < n,
    ;
    assert(u * n < r * n) by (nonlinear_arith)
        requires
            u < r,
            n > 0,
    ;
    assert(n * n < r * n) by (nonlinear_arith)
        requires
            n < r,
            n > 0,
    ;
    assert(t < 2 * n) by (nonlinear_arith)
        requires
            t * r < 2 * (r * n),
            r > 0,
    ;
}

/// A value below the modulus and congruent to `a·b·R^{-1}` is that residue.
proof fn lemma_redc_result(v: nat, t: nat, r: nat, rinv: nat, n: nat, a: nat, b: nat, u: nat)
    requires
        t * r == a * b + u * n,
        v < n,
        v % n == t % n,
        (r * rinv) % n == 1nat % n,
        n > 0,
    ensures
        v == (a * b * rinv) % n,
{
    lemma_small_mod(v, n);
    lemma_mod_multiples_vanish(u as int, (a * b) as int, n as int);
    assert((a * b + u * n) % n == (a * b) % n) by {
        assert(a * b + u * n == n * u + a * b) by (nonlinear_arith);
    }
    lemma_mul_mod(t, r, n);
    lemma_mul_mod(v, r, n);
    assert((v * r) % n == (a * b) % n);
    lemma_mul_mod(v * r, rinv, n);
    lemma_mul_mod(a * b, rinv, n);
    assert((v * r * rinv) % n == (a * b * rinv) % n);
    assert(v * r * rinv == v * (r * rinv)) by (nonlinear_arith);
    lemma_mul_mod(v, r * rinv, n);
    lemma_mul_mod(v, 1, n);
    if n == 1 {
        assert(v == 0);
    } else {
        lemma_small_mod(1, n);
    }
}

/// An odd number has an odd lowest limb.
proof fn lemma_low_limb_parity(s: Seq<u64>)
    requires
        s.len() > 0,
    ensures
        limbs_value(s) % 2 == (s[0] as nat) % 2,
{
    lemma_limbs_value_split(s, 1);
    lemma_limbs_value_take(s, 0);
    lemma_radix_facts(0);
    lemma_radix_facts(1);
    lemma_limbs_value_zeros(s.take(0));
    let low = s[0] as nat;
    let high = limbs_value(s.skip(1));
    assert(limbs_value(s.take(1)) == low) by (nonlinear_arith)
        requires
            limbs_value(s.take(1)) == limbs_value(s.take(0)) + low * radix(0),
            limbs_value(s.take(0)) == 0,
            radix(0) == 1,
    ;
    assert(limbs_value(s) == low + limb_base() * high);
    assert((low + limb_base() * high) % 2 == low % 2) by (nonlinear_arith);
}

/// `−x^{-1}`: if `x · inv ≡ 1` then `(2^64 − inv) · x ≡ −1 (mod 2^64)`.
proof fn lemma_negated_inverse(x: nat, inv: nat)
    requires
        (x * inv) % limb_base() == 1,
        0 < inv < limb_base(),
    ensures
        (((limb_base() - inv) as nat) * x) % limb_base() == limb_base() - 1,
{
    let b = limb_base() as int;
    let y = (x * inv) as int;
    assert(((b - inv) * x) == b * x - y) by (nonlinear_arith)
        requires
            y == (x * inv) as int,
    ;
    lemma_fundamental_div_mod(y, b);
    let q = y / b;
    assert(y == b * q + 1);
    assert(b * x - y == b * (x - q - 1) + (b - 1)) by (nonlinear_arith)
        requires
            y == b * q + 1,
    ;
    lemma_mod_multiples_vanish(x - q - 1, b - 1, b);
    lemma_small_mod((b - 1) as nat, b as nat);
}

/// `2^(64 k)` as a number: `k` zero limbs under a one.
fn radix_natural(k: usize) -> (r: Natural)
    requires
        k < MAX_LIMBS,
    ensures
        r@ == radix(k as nat),
{
    let mut limbs: Vec<Limb> = Vec::new();
    let mut i: usize = 0;
    while i < k
        invariant
            i <= k,
            limbs.len() == i,
            forall|j: int| 0 <= j < i ==> limbs@[j] == 0,
        decreases k - i,
    {
        limbs.push(0);
        i = i + 1;
    }
    let ghost zeros = limbs@;
    limbs.push(1);
    proof {
        lemma_limbs_value_zeros(zeros);
        lemma_limbs_value_push(zeros, 1);
        lemma_radix_facts(k as nat);
    }
    Natural::from_limbs(limbs)
}

impl Montgomery {
    /// Prepare the form for a modulus: `None` if it is even, zero or
    /// negative.
    pub fn new(modulus: &Signed) -> (form: Option<Montgomery>)
        requires
            modulus@ < radix((MAX_LIMBS / 2) as nat),
        ensures
            form is Some <==> (modulus@ > 0 && modulus@ % 2 == 1),
            form matches Some(f) ==> f.wf() && f.modulus_value() == modulus@ && radix(
                (f.width() - 1) as nat,
            ) <= f.modulus_value(),
    {
        if modulus.negative || !modulus.magnitude.is_odd() {
            return None;
        }
        let m = &modulus.magnitude;
        let k = crate::bignum::significant_limbs(m.limbs());
        proof {
            lemma_limbs_value_bound(m.digits().take(k as int));
            crate::bignum::lemma_top_limb(m.digits().take(k as int));
            if k > MAX_LIMBS / 2 {
                lemma_radix_monotone((MAX_LIMBS / 2) as nat, (k - 1) as nat);
            }
        }
        let words = m.to_width(k);
        proof {
            lemma_low_limb_parity(words@);
        }
        let inverse = inverse_mod_word(words[0]);
        let n_prime = 0u64.wrapping_sub(inverse);
        proof {
            if inverse == 0 {
                assert((words@[0] as nat * 0) % limb_base() == 0);
            }
            lemma_negated_inverse(words@[0] as nat, inverse as nat);
            assert(n_prime as nat * words@[0] as nat == ((limb_base() - inverse) as nat) * (words@[0] as nat))
                by (nonlinear_arith)
                requires
                    n_prime as nat == (limb_base() - inverse) as nat,
            ;
        }
        let r = radix_natural(k);
        let r_mod = nat_rem(&r, m);
        proof {
            lemma_mod_bound(radix(k as nat) as int, m@ as int);
            lemma_limbs_value_bound(words@);
            crate::bignum::lemma_product_fits(r_mod@, r_mod@, k as nat);
        }
        let r2_mod = nat_rem(&nat_mul(&r_mod, &r_mod), m);
        proof {
            let n = m@;
            lemma_mod_bound(radix(k as nat) as int, n as int);
            lemma_mul_mod(radix(k as nat), radix(k as nat), n);
            lemma_limbs_value_bound(words@);
            lemma_mod_bound((r_mod@ * r_mod@) as int, n as int);
        }
        let r_squared = r2_mod.to_width(k);
        let one = r_mod.to_width(k);
        Some(Montgomery { limbs: k, modulus: words, n_prime, r_squared, one })
    }

    /// The width `k` of every operand, in limbs.
    pub fn limbs(&self) -> (k: usize)
        ensures
            k == self.width(),
    {
        self.limbs
    }

    /// The Montgomery representation of one, `R mod N`, in a buffer of
    /// exactly `limbs` limbs.
    pub fn one(&self) -> (one: &[Limb])
        requires
            self.wf(),
        ensures
            one.len() == self.width(),
            limbs_value(one@) == self.radix_value() % self.modulus_value(),
    {
        self.one.as_slice()
    }

    /// Is a buffer of `limbs` limbs strictly below the modulus? Compares
    /// from the top limb down.
    pub fn below_modulus(&self, value: &[Limb]) -> (below: bool)
        requires
            self.wf(),
            value.len() == self.width(),
        ensures
            below == (limbs_value(value@) < self.modulus_value()),
    {
        let k = self.limbs;
        let mut i = k;
        while i > 0
            invariant
                i <= k,
                k == value.len(),
                k == self.modulus@.len(),
                forall|j: int| i <= j < k ==> value@[j] == self.modulus@[j],
            decreases i,
        {
            let left = value[i - 1];
            let right = self.modulus[i - 1];
            if left != right {
                proof {
                    if left < right {
                        crate::limbs::lemma_limbs_value_compare_top(value@, self.modulus@, i - 1);
                    } else {
                        crate::limbs::lemma_limbs_value_compare_top(self.modulus@, value@, i - 1);
                    }
                }
                return left < right;
            }
            i = i - 1;
        }
        proof {
            assert(value@ =~= self.modulus@);
        }
        false
    }

    /// Montgomery multiplication: `out = a · b · R^{-1} mod N`, for
    /// operands below the modulus.
    pub fn mul(&self, a: &[Limb], b: &[Limb], out: &mut [Limb], work: &mut Work)
        requires
            self.wf(),
            self.reduced(a@),
            self.reduced(b@),
            old(out).len() == self.width(),
            old(work).fits(self.width()),
        ensures
            final(out).len() == self.width(),
            final(work).fits(self.width()),
            limbs_value(final(out)@) == (limbs_value(a@) * limbs_value(b@) * self.radix_inverse_value())
                % self.modulus_value(),
    {
        let k = self.limbs;
        proof {
            self.lemma_wf();
        }
        let ghost n = self.modulus_value();
        let ghost va = limbs_value(a@);
        let ghost vb = limbs_value(b@);

        // 1. The full product, 2k limbs.
        mul_n(&mut work.product, a, b);

        // 2. Reduction, limb by limb: after step `i` limb `i` is zero and the
        //    carry moves up.
        let mut pending: Limb = 0;
        let ghost mut big_u: nat = 0;
        let mut i: usize = 0;
        proof {
            lemma_radix_facts(0);
        }
        while i < k
            invariant
                self.wf(),
                k == self.limbs,
                k == self.modulus@.len(),
                work.product.len() == 2 * k,
                work.scratch.len() == k,
                n == limbs_value(self.modulus@),
                i <= k,
                pending <= 2,
                big_u < radix(i as nat),
                limbs_value(work.product@) + pending * radix((i + k) as nat) == va * vb + big_u * n,
                forall|j: int| 0 <= j < i ==> work.product@[j] == 0,
            decreases k - i,
        {
            let ghost before = work.product@;
            let u = work.product[i].wrapping_mul(self.n_prime);
            proof {
                lemma_redc_low_limb(before[i as int] as nat, self.n_prime as nat, self.modulus@[0] as nat);
                assert(u as nat == ((before[i as int] as nat) * (self.n_prime as nat)) % limb_base());
            }
            let carry = addmul_1(&mut work.product, i, self.modulus.as_slice(), u);
            let ghost mid = work.product@;
            let top = work.product[i + k];
            let total: u128 = (top as u128) + (carry as u128) + (pending as u128);
            let low = (total % 0x1_0000_0000_0000_0000) as u64;
            let high = (total / 0x1_0000_0000_0000_0000) as u64;
            work.product.set(i + k, low);
            proof {
                lemma_limbs_value_update(mid, (i + k) as int, low);
                lemma_radix_adds(i as nat, k as nat);
                lemma_radix_facts((i + k) as nat);
                lemma_radix_facts(i as nat);
                let ri = radix(i as nat);
                let rk = radix((i + k) as nat);
                let b = limb_base();
                lemma_fundamental_div_mod(total as int, b as int);
                assert(total == low + b * high);
                assert(limbs_value(mid) + carry * rk == limbs_value(before) + u * n * ri);
                assert(limbs_value(work.product@) + top * rk == limbs_value(mid) + low * rk);
                assert(high * (rk * b) == (b * high) * rk) by (nonlinear_arith);
                assert((low as int) * rk + (b * high) * rk == (top as int) * rk + (carry as int) * rk + (pending as int) * rk) by (nonlinear_arith)
                    requires
                        low + b * high == top + carry + pending,
                ;
                assert((i + 1 + k) as nat == ((i + k) as nat) + 1);
                assert(big_u * n + u * n * ri == (big_u + u * ri) * n) by (nonlinear_arith);
                assert(big_u + u * ri < ri * b) by (nonlinear_arith)
                    requires
                        big_u < ri,
                        u < b,
                ;
                assert(limbs_value(work.product@) + (high as nat) * (rk * b) == va * vb + big_u * n + (u as nat) * n * ri);
                assert(radix((i + 1 + k) as nat) == rk * b);
                assert(work.product@[i as int] == 0) by {
                    assert(mid[i as int] == (before[i as int] + self.modulus@[0] * u) % (limb_base() as int));
                    assert((before[i as int] as nat) + (self.modulus@[0] as nat) * (u as nat) == (before[i as int] as nat) + (self.modulus@[0] as nat) * (((before[i as int] as nat) * (self.n_prime as nat)) % limb_base()));
                }
                big_u = big_u + (u as nat) * ri;
            }
            pending = high;
            i = i + 1;
        }

        // 3. The result is `product[k..2k]` with `pending` above it, below `2N`.
        let ghost hi = work.product@.skip(k as int);
        let ghost rr = radix(k as nat);
        let ghost tt: nat = limbs_value(hi) + (pending as nat) * rr;
        proof {
            lemma_limbs_value_split(work.product@, k as int);
            lemma_limbs_value_zeros(work.product@.take(k as int));
            lemma_radix_adds(k as nat, k as nat);
            lemma_radix_facts(k as nat);
            assert(rr * limbs_value(hi) + pending * (rr * rr) == (limbs_value(hi) + pending * rr) * rr)
                by (nonlinear_arith);
            assert(tt * rr == va * vb + big_u * n);
            lemma_redc_bound(tt, rr, n, va, vb, big_u);
            lemma_limbs_value_bound(hi);
            assert(pending <= 1) by (nonlinear_arith)
                requires
                    limbs_value(hi) + pending * rr < 2 * n,
                    n < rr,
            ;
        }
        let mut j: usize = 0;
        while j < k
            invariant
                k == self.limbs,
                work.product.len() == 2 * k,
                out.len() == k,
                j <= k,
                hi == work.product@.skip(k as int),
                forall|m: int| 0 <= m < j ==> out@[m] == hi[m],
            decreases k - j,
        {
            out[j] = work.product[k + j];
            j = j + 1;
        }
        proof {
            assert(out@ =~= hi);
        }

        // Subtract if the value overflowed the top limb (`pending != 0`) or
        // if it is at least the modulus (`borrow == 0`); the flag comes from
        // arithmetic, not a branch.
        let borrow = sub_n(&mut work.scratch, out, self.modulus.as_slice());
        proof {
            lemma_limbs_value_bound(work.scratch@);
        }
        let overflowed = pending;
        let at_least = 1 - borrow;
        let condition = overflowed | at_least;
        proof {
            assert(overflowed <= 1 && at_least <= 1 ==> (overflowed | at_least) <= 1
                && ((overflowed | at_least) == 1 <==> (overflowed == 1 || at_least == 1)))
                by (bit_vector);
        }
        let ghost before_sub = out@;
        let borrow2 = cnd_sub_n(condition, out, self.modulus.as_slice());
        proof {
            lemma_limbs_value_bound(out@);
            let v = limbs_value(out@);
            let h = limbs_value(hi);
            assert(limbs_value(before_sub) == h);
            assert(limbs_value(work.scratch@) + n == h + borrow * rr);
            if condition == 1 {
                if borrow == 1 {
                    assert(pending == 1);
                }
                assert(tt >= n);
                assert(v + n == h + borrow2 * rr);
                if borrow2 == 0 {
                    assert(v + n == h);
                } else {
                    assert(v + n == h + rr);
                }
                assert(v == tt - n);
            } else {
                assert(pending == 0);
                assert(borrow == 1);
                assert(v == h + borrow2 * rr);
                if borrow2 == 1 {
                    assert(v == h + rr);
                }
                assert(v == tt);
            }
            assert(v < n);
            lemma_mod_sub_multiples_vanish(tt as int, n as int);
            if condition == 1 {
                lemma_mod_add_multiples_vanish(v as int, n as int);
            }
            assert(v % n == tt % n);
            lemma_radix_inverse(n, k as nat);
            lemma_redc_result(v, tt, rr, radix_inverse(n, k as nat), n, va, vb, big_u);
        }
    }

    /// Convert a value below the modulus into Montgomery form: `v · R mod N`.
    pub fn enter(&self, value: &Natural, work: &mut Work) -> (out: Vec<Limb>)
        requires
            self.wf(),
            value@ < self.modulus_value(),
            old(work).fits(self.width()),
        ensures
            final(work).fits(self.width()),
            self.reduced(out@),
            limbs_value(out@) == (value@ * self.radix_value()) % self.modulus_value(),
    {
        proof {
            self.lemma_wf();
        }
        let plain = value.to_width(self.limbs);
        let mut out: Vec<Limb> = vec![0; self.limbs];
        proof {
            lemma_mod_bound(
                (radix(self.limbs as nat) * radix(self.limbs as nat)) as int,
                self.modulus_value() as int,
            );
        }
        self.mul(plain.as_slice(), self.r_squared.as_slice(), out.as_mut_slice(), work);
        proof {
            let n = self.modulus_value();
            let r = self.radix_value();
            let rinv = self.radix_inverse_value();
            let v = value@;
            lemma_radix_inverse(n, self.limbs as nat);
            lemma_mul_mod(v * ((r * r) % n), rinv, n);
            lemma_mul_mod(v, r * r, n);
            lemma_mul_mod(v * (r * r), rinv, n);
            assert(v * (r * r) * rinv == (v * r) * (r * rinv)) by (nonlinear_arith);
            lemma_mul_mod(v * r, r * rinv, n);
            lemma_mul_mod(v * r, 1, n);
            if n > 1 {
                lemma_small_mod(1, n);
            }
            lemma_mod_twice((v * r) as int, n as int);
            lemma_mod_bound((v * r) as int, n as int);
        }
        out
    }

    /// Convert back out of Montgomery form: `v · R^{-1} mod N`. Modulo one
    /// every value is zero.
    pub fn leave(&self, value: &[Limb], work: &mut Work) -> (plain: Natural)
        requires
            self.wf(),
            self.reduced(value@),
            old(work).fits(self.width()),
        ensures
            final(work).fits(self.width()),
            plain@ == self.decoded(value@),
            plain@ < self.modulus_value(),
    {
        if Natural::from_limbs(self.modulus.clone()).equals(&Natural::from_u64(1)) {
            proof {
                let x = limbs_value(value@) * self.radix_inverse_value();
                vstd::arithmetic::div_mod::lemma_mod_multiples_basic(x as int, 1);
                assert(x * 1 == x);
            }
            return Natural::zero();
        }
        let mut plain: Vec<Limb> = vec![0; self.limbs];
        let mut one: Vec<Limb> = vec![0; self.limbs];
        one.set(0, 1);
        proof {
            self.lemma_wf();
            lemma_limbs_value_split(one@, 1);
            lemma_limbs_value_zeros(one@.skip(1));
            lemma_limbs_value_take(one@, 0);
            lemma_limbs_value_zeros(one@.take(0));
            lemma_radix_facts(0);
            lemma_radix_facts(1);
            assert(one@[0] == 1);
            assert(limbs_value(one@.take(0)) == 0);
            assert(limbs_value(one@.take(1)) == 0 + (one@[0] as nat) * radix(0));
            assert(radix(0) == 1);
            assert((one@[0] as nat) * radix(0) == 1) by (nonlinear_arith)
                requires
                    one@[0] as nat == 1,
                    radix(0) == 1,
            ;
            assert(limbs_value(one@.take(1)) == 1);
            assert(limbs_value(one@) == 1) by (nonlinear_arith)
                requires
                    limbs_value(one@) == limbs_value(one@.take(1)) + radix(1) * limbs_value(
                        one@.skip(1),
                    ),
                    limbs_value(one@.skip(1)) == 0,
                    limbs_value(one@.take(1)) == 1,
            ;
        }
        self.mul(value, one.as_slice(), plain.as_mut_slice(), work);
        proof {
            lemma_mod_bound(
                (limbs_value(value@) * 1 * self.radix_inverse_value()) as int,
                self.modulus_value() as int,
            );
            crate::limbs::lemma_limbs_value_bound(plain@);
        }
        Natural::from_limbs(plain)
    }
}

/// Law: leaving Montgomery form undoes entering it, `v·R·R^(-1) ≡ v`.
pub proof fn law_leave_undoes_enter(form: &Montgomery, v: nat)
    requires
        form.wf(),
        v < form.modulus_value(),
    ensures
        (((v * form.radix_value()) % form.modulus_value()) * form.radix_inverse_value())
            % form.modulus_value() == v,
{
    form.lemma_wf();
    let n = form.modulus_value();
    let r = form.radix_value();
    let rinv = form.radix_inverse_value();
    lemma_radix_inverse(n, form.width());
    lemma_mul_mod(v * r, rinv, n);
    assert(v * r * rinv == v * (r * rinv)) by (nonlinear_arith);
    lemma_mul_mod(v, r * rinv, n);
    if n > 1 {
        lemma_small_mod(1, n);
        assert(v * ((r * rinv) % n) == v) by (nonlinear_arith)
            requires
                (r * rinv) % n == 1,
        ;
    }
    lemma_small_mod(v, n);
}

} // verus!
