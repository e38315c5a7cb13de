//! Decryption: the Chinese remainder theorem plus exponentiation that is
//! safe for a secret exponent.
//!
//! 1. the ciphertext must lie in `Z*_{n²}`;
//! 2. `c^(p−1) mod p²` and `c^(q−1) mod q²` — two short exponentiations
//!    instead of one long one modulo `n²`;
//! 3. the `L` function in each component, times a prepared inverse;
//! 4. recombination by the Chinese remainder theorem;
//! 5. the signed representative: above `n/2` means negative.

use vstd::prelude::*;
use vstd::arithmetic::div_mod::*;
use crate::arith::{gcd, power};
use crate::bignum::{
    nat_add, nat_div_rem, nat_gcd, nat_invert, nat_mul, nat_rem, nat_secure_pow_mod, nat_sub,
    Natural, Signed, value_limit,
};

verus! {

/// `L(v) = (v − 1) / d` when the division is exact, and nothing otherwise.
pub open spec fn l_value(v: nat, d: nat) -> Option<nat> {
    if v >= 1 && ((v - 1) as nat) % d == 0 {
        Some(((v - 1) as nat) / d)
    } else {
        None
    }
}

/// `g^(p−1) mod p²` for `g = n + 1`: `1 + (p − 1)·n mod p²`.
pub open spec fn g_component(p: nat, n: nat) -> nat {
    (((p - 1) as nat) * n + 1) % (p * p)
}

/// The decryption of `c` under primes `p`, `q`, with the prepared
/// `hp = L_p(g^(p−1))^{-1} mod p`, `hq` likewise, and `p^{-1} mod q`.
pub open spec fn crt_decrypt(p: nat, q: nat, hp: nat, hq: nat, pinv: nat, c: nat) -> Option<int> {
    let n = p * q;
    if c < 1 || c >= n * n {
        None
    } else if gcd(c, n) != 1 {
        None
    } else {
        let up = power(c, (p - 1) as nat) % (p * p);
        let uq = power(c, (q - 1) as nat) % (q * q);
        match (l_value(up, p), l_value(uq, q)) {
            (Some(lp), Some(lq)) => {
                let mp = (lp * hp) % p;
                let mq = (lq * hq) % q;
                let difference = ((mq - mp) * pinv) % (q as int);
                let plain = mp + p * difference;
                if plain > n / 2 {
                    Some(plain - n)
                } else {
                    Some(plain)
                }
            },
            _ => None,
        }
    }
}

/// What is prepared for decryption, once, when the key is built. All of
/// it is derived from `p` and `q` and is secret.
pub struct Decryptor {
    n: Natural,
    n_square: Natural,
    n_half: Natural,
    p: Natural,
    q: Natural,
    p_square: Natural,
    q_square: Natural,
    p_minus_1: Natural,
    q_minus_1: Natural,
    hp: Natural,
    hq: Natural,
    p_inverse_mod_q: Natural,
}

impl Decryptor {
    /// The first prime.
    pub closed spec fn prime_p(&self) -> nat {
        self.p@
    }

    /// The second prime.
    pub closed spec fn prime_q(&self) -> nat {
        self.q@
    }

    /// `L_p(g^(p−1) mod p²)^{-1} mod p`.
    pub closed spec fn hp_value(&self) -> nat {
        self.hp@
    }

    /// `L_q(g^(q−1) mod q²)^{-1} mod q`.
    pub closed spec fn hq_value(&self) -> nat {
        self.hq@
    }

    /// `p^{-1} mod q`.
    pub closed spec fn p_inverse_value(&self) -> nat {
        self.p_inverse_mod_q@
    }

    /// The prepared values agree with the primes.
    pub closed spec fn wf(&self) -> bool {
        let p = self.p@;
        let q = self.q@;
        let n = p * q;
        &&& p > 1
        &&& q > 1
        &&& self.n@ == n
        &&& self.n_square@ == n * n
        &&& n * n < value_limit()
        &&& self.hp@ < p
        &&& self.hq@ < q
        &&& self.p_inverse_mod_q@ < q
        &&& self.n_half@ == n / 2
        &&& self.p_square@ == p * p
        &&& self.q_square@ == q * q
        &&& self.p_minus_1@ == p - 1
        &&& self.q_minus_1@ == q - 1
        &&& l_value(g_component(p, n), p) is Some
        &&& l_value(g_component(q, n), q) is Some
        &&& (l_value(g_component(p, n), p).unwrap() * self.hp@) % p == 1nat % p
        &&& (l_value(g_component(q, n), q).unwrap() * self.hq@) % q == 1nat % q
        &&& (p * self.p_inverse_mod_q@) % q == 1nat % q
    }
}

impl Decryptor {
    /// What well-formedness gives a caller: the primes above one and the
    /// three prepared inverses.
    pub proof fn lemma_wf(&self)
        requires
            self.wf(),
        ensures
            self.prime_p() > 1,
            self.prime_q() > 1,
            ({
                let p = self.prime_p();
                let q = self.prime_q();
                let n = p * q;
                &&& l_value(g_component(p, n), p) is Some
                &&& l_value(g_component(q, n), q) is Some
                &&& (l_value(g_component(p, n), p).unwrap() * self.hp_value()) % p == 1nat % p
                &&& (l_value(g_component(q, n), q).unwrap() * self.hq_value()) % q == 1nat % q
                &&& (p * self.p_inverse_value()) % q == 1nat % q
            }),
    {
    }
}

/// `L(x) = (x − 1) / divisor`, exact division: a remainder would mean the
/// input is not a ciphertext, and is refused rather than dropped.
fn l_function(value: &Natural, divisor: &Natural) -> (r: Option<Natural>)
    requires
        divisor@ >= 2,
    ensures
        r is Some <==> l_value(value@, divisor@) is Some,
        r matches Some(v) ==> l_value(value@, divisor@) == Some(v@),
{
    if value.is_zero() {
        return None;
    }
    let shifted = nat_sub(value, &Natural::from_u64(1));
    let (quotient, remainder) = nat_div_rem(&shifted, divisor);
    if remainder.is_zero() {
        Some(quotient)
    } else {
        None
    }
}

/// `(a − b) mod m` for `a, b` below `m` and anything times `k`, reduced:
/// `((a − b) · k) mod m` as a natural number.
proof fn lemma_difference_mod(a: nat, b: nat, k: nat, m: nat)
    requires
        m > 0,
        b < m,
    ensures
        (((a + ((m - b) as nat)) % m) * k) % m == (((a - b) * k) % (m as int)),
{
    let x = a + ((m - b) as nat);
    lemma_mul_mod_noop_general(x as int, k as int, m as int);
    assert(x * k == (a - b) * k + m * k) by (nonlinear_arith)
        requires
            x == a + m - b,
    ;
    lemma_mod_multiples_vanish(k as int, ((a - b) * k) as int, m as int);
}

impl Decryptor {
    /// Prepare decryption for the primes `p`, `q`: `None` if a needed
    /// inverse does not exist (equal or non-coprime primes).
    pub fn new(p: &Natural, q: &Natural) -> (d: Option<Decryptor>)
        requires
            p@ > 1,
            q@ > 1,
            (p@ * q@) * (p@ * q@) < value_limit(),
        ensures
            d is Some <==> ({
                let n = p@ * q@;
                &&& gcd(l_value(g_component(p@, n), p@).unwrap(), p@) == 1
                &&& gcd(l_value(g_component(q@, n), q@).unwrap(), q@) == 1
                &&& gcd(p@, q@) == 1
            }),
            d matches Some(d) ==> d.wf() && d.prime_p() == p@ && d.prime_q() == q@,
    {
        proof {
            lemma_component_sizes(p@, q@);
            lemma_component_sizes(q@, p@);
            assert(q@ * p@ == p@ * q@) by (nonlinear_arith);
        }
        let n = nat_mul(p, q);
        let n_square = nat_mul(&n, &n);
        let p_square = nat_mul(p, p);
        let q_square = nat_mul(q, q);
        let one = Natural::from_u64(1);
        let p_minus_1 = nat_sub(p, &one);
        let q_minus_1 = nat_sub(q, &one);
        proof {
            assert(p@ * p@ > 0) by (nonlinear_arith)
                requires
                    p@ > 1,
            ;
            assert(q@ * q@ > 0) by (nonlinear_arith)
                requires
                    q@ > 1,
            ;
            lemma_g_component_l(p@, q@);
            lemma_g_component_l(q@, p@);
            assert(q@ * p@ == p@ * q@) by (nonlinear_arith);
        }
        // `g = n + 1`, so `g^(p−1) mod p² = 1 + (p−1)·n mod p²`: computed
        // directly, without an exponentiation.
        let gp = nat_rem(&nat_add(&nat_mul(&p_minus_1, &n), &one), &p_square);
        let gq = nat_rem(&nat_add(&nat_mul(&q_minus_1, &n), &one), &q_square);
        let lp = match l_function(&gp, p) {
            Some(v) => v,
            None => {
                return None;
            },
        };
        let hp = match nat_invert(&lp, p) {
            Some(v) => v,
            None => {
                return None;
            },
        };
        let lq = match l_function(&gq, q) {
            Some(v) => v,
            None => {
                return None;
            },
        };
        let hq = match nat_invert(&lq, q) {
            Some(v) => v,
            None => {
                return None;
            },
        };
        let p_inverse_mod_q = match nat_invert(p, q) {
            Some(v) => v,
            None => {
                return None;
            },
        };
        let (n_half, _) = nat_div_rem(&n, &Natural::from_u64(2));
        Some(
            Decryptor {
                n,
                n_square,
                n_half,
                p: p.duplicate(),
                q: q.duplicate(),
                p_square,
                q_square,
                p_minus_1,
                q_minus_1,
                hp,
                hq,
                p_inverse_mod_q,
            },
        )
    }

    /// The plaintext as a SIGNED integer, or `None` on input that is not
    /// a ciphertext: outside `[1, n²)`, not coprime with `n`, or failing
    /// an exact division. The exponentiations are the side-channel
    /// resilient ones, since their exponents derive from the key.
    pub fn decrypt(&self, cipher: &Natural) -> (plain: Option<Signed>)
        requires
            self.wf(),
            self.prime_p() % 2 == 1,
            self.prime_q() % 2 == 1,
        ensures
            plain is Some <==> crt_decrypt(
                self.prime_p(),
                self.prime_q(),
                self.hp_value(),
                self.hq_value(),
                self.p_inverse_value(),
                cipher@,
            ) is Some,
            plain matches Some(v) ==> crt_decrypt(
                self.prime_p(),
                self.prime_q(),
                self.hp_value(),
                self.hq_value(),
                self.p_inverse_value(),
                cipher@,
            ) == Some(v@),
    {
        let ghost p = self.p@;
        let ghost q = self.q@;
        if cipher.is_zero() || !cipher.less_than(&self.n_square) {
            return None;
        }
        // The ciphertext must be invertible, or it is the image of no
        // plaintext at all.
        if !nat_gcd(cipher, &self.n).equals(&Natural::from_u64(1)) {
            return None;
        }
        proof {
            lemma_odd_square(p);
            lemma_odd_square(q);
        }
        let up = nat_secure_pow_mod(cipher, &self.p_minus_1, &self.p_square);
        let lp = match l_function(&up, &self.p) {
            Some(v) => v,
            None => {
                return None;
            },
        };
        proof {
            lemma_mod_bound(power(cipher@, (p - 1) as nat) as int, (p * p) as int);
            lemma_l_below(up@, p);
            lemma_component_sizes(p, q);
            assert(lp@ * self.hp@ < p * p) by (nonlinear_arith)
                requires
                    lp@ < p,
                    self.hp@ < p,
            ;
        }
        let mp = nat_rem(&nat_mul(&lp, &self.hp), &self.p);
        let uq = nat_secure_pow_mod(cipher, &self.q_minus_1, &self.q_square);
        let lq = match l_function(&uq, &self.q) {
            Some(v) => v,
            None => {
                return None;
            },
        };
        proof {
            lemma_mod_bound(power(cipher@, (q - 1) as nat) as int, (q * q) as int);
            lemma_l_below(uq@, q);
            lemma_component_sizes(q, p);
            assert(q * p == p * q) by (nonlinear_arith);
            assert(lq@ * self.hq@ < q * q) by (nonlinear_arith)
                requires
                    lq@ < q,
                    self.hq@ < q,
            ;
        }
        let mq = nat_rem(&nat_mul(&lq, &self.hq), &self.q);

        // Recombination: `m = mp + p · ((mq − mp) · p^{-1} mod q)`.
        let mp_mod_q = nat_rem(&mp, &self.q);
        proof {
            lemma_mod_bound(mp@ as int, q as int);
            lemma_difference_mod(mq@, mp_mod_q@, self.p_inverse_mod_q@, q);
            lemma_mod_sub_noop_wrap(mq@, mp@, q, self.p_inverse_mod_q@);
        }
        proof {
            lemma_mod_bound((lq@ * self.hq@) as int, q as int);
            lemma_mod_bound((lp@ * self.hp@) as int, p as int);
            assert(2 * q <= q * q) by (nonlinear_arith)
                requires
                    q > 1,
            ;
            assert((q * p) * (q * p) == (p * q) * (p * q)) by (nonlinear_arith);
        }
        let shifted = nat_rem(&nat_add(&mq, &nat_sub(&self.q, &mp_mod_q)), &self.q);
        proof {
            lemma_mod_bound((mq@ + (q - mp_mod_q@)) as int, q as int);
            assert(shifted@ * self.p_inverse_mod_q@ < q * q) by (nonlinear_arith)
                requires
                    shifted@ < q,
                    self.p_inverse_mod_q@ < q,
            ;
        }
        let difference = nat_rem(&nat_mul(&shifted, &self.p_inverse_mod_q), &self.q);
        proof {
            lemma_mod_bound((shifted@ * self.p_inverse_mod_q@) as int, q as int);
            assert(mp@ + p * difference@ < p * q) by (nonlinear_arith)
                requires
                    mp@ < p,
                    difference@ < q,
            ;
            assert(p * q <= (p * q) * (p * q)) by (nonlinear_arith)
                requires
                    p > 1,
                    q > 1,
            ;
        }
        let plain = nat_add(&mp, &nat_mul(&self.p, &difference));
        proof {
            lemma_mod_bound((lp@ * self.hp@) as int, p as int);
            lemma_mod_bound((shifted@ * self.p_inverse_mod_q@) as int, q as int);
            assert(plain@ < p * q) by (nonlinear_arith)
                requires
                    plain@ == mp@ + p * difference@,
                    mp@ < p,
                    difference@ < q,
            ;
        }

        // The signed representative: the encoding uses all of `(−n/2, n/2)`.
        if self.n_half.less_than(&plain) {
            Some(Signed::negated(nat_sub(&self.n, &plain)))
        } else {
            Some(Signed::from_natural(plain))
        }
    }
}

/// What the preparation and the decryption multiply stays below `n²`,
/// for `n = p·q`.
proof fn lemma_component_sizes(p: nat, q: nat)
    requires
        p > 1,
        q > 1,
    ensures
        p * q <= (p * q) * (p * q),
        p * p <= (p * q) * (p * q),
        ((p - 1) as nat) * (p * q) + 1 <= (p * q) * (p * q),
{
    assert(p * q <= (p * q) * (p * q)) by (nonlinear_arith)
        requires
            p > 1,
            q > 1,
    ;
    assert(p * p <= (p * q) * (p * q)) by (nonlinear_arith)
        requires
            p > 1,
            q > 1,
    ;
    assert(((p - 1) as nat) * (p * q) + 1 <= (p * q) * (p * q)) by (nonlinear_arith)
        requires
            p > 1,
            q > 1,
    ;
}

/// `L(v)` for `v` below `d²` is below `d`.
proof fn lemma_l_below(v: nat, d: nat)
    requires
        d > 0,
        v < d * d,
        l_value(v, d) is Some,
    ensures
        l_value(v, d).unwrap() < d,
{
    let w = (v - 1) as nat;
    lemma_fundamental_div_mod(w as int, d as int);
    lemma_mod_bound(w as int, d as int);
    let k = w / d;
    assert(k < d) by (nonlinear_arith)
        requires
            w == d * k + w % d,
            w % d >= 0,
            w < d * d,
    ;
}

/// The square of an odd number is odd.
pub proof fn lemma_odd_square(p: nat)
    requires
        p % 2 == 1,
    ensures
        (p * p) % 2 == 1,
{
    lemma_fundamental_div_mod(p as int, 2);
    let t = p / 2;
    assert(p * p == 2 * (2 * t * t + 2 * t) + 1) by (nonlinear_arith)
        requires
            p == 2 * t + 1,
    ;
    lemma_mod_multiples_vanish((2 * t * t + 2 * t) as int, 1, 2);
}

/// Reducing the subtrahend first changes nothing modulo `m`.
proof fn lemma_mod_sub_noop_wrap(a: nat, b: nat, m: nat, k: nat)
    requires
        m > 0,
    ensures
        ((a - b % m) * k) % (m as int) == ((a - b) * k) % (m as int),
{
    lemma_fundamental_div_mod(b as int, m as int);
    let t = b / m;
    let r = b % m;
    assert((a - r) * k == (a - b) * k + m * (t * k)) by (nonlinear_arith)
        requires
            b == m * t + r,
    ;
    lemma_mod_multiples_vanish((t * k) as int, ((a - b) * k) as int, m as int);
}

/// `g^(p−1) mod p²` always has an exact `L`: it is `1` plus a multiple of
/// `p`.
proof fn lemma_g_component_l(p: nat, q: nat)
    requires
        p > 1,
        q > 0,
    ensures
        l_value(g_component(p, p * q), p) is Some,
{
    let n = p * q;
    let pp = p * p;
    let x = ((p - 1) as nat) * n + 1;
    let g = x % pp;
    assert(pp > 0) by (nonlinear_arith)
        requires
            p > 1,
            pp == p * p,
    ;
    lemma_fundamental_div_mod(x as int, pp as int);
    let t = x / pp;
    // x = (p−1) p q + 1 = pp·t + g, so g − 1 = p·((p−1) q − p t).
    assert(g == x - pp * t);
    assert(x == p * (((p - 1) as nat) * q) + 1) by (nonlinear_arith)
        requires
            x == ((p - 1) as nat) * (p * q) + 1,
    ;
    assert(g - 1 == p * (((p - 1) as nat) * q - p * t)) by (nonlinear_arith)
        requires
            g == x - pp * t,
            x == p * (((p - 1) as nat) * q) + 1,
            pp == p * p,
    ;
    lemma_mod_bound(x as int, pp as int);
    // g ≡ x ≡ 1 (mod p), hence g ≥ 1.
    if g == 0 {
        assert(-1 == p * (((p - 1) as nat) * q - p * t));
        assert(false) by (nonlinear_arith)
            requires
                -1 == p * (((p - 1) as nat) * q - p * t),
                p > 1,
        ;
    }
    let k = ((p - 1) as nat) * q - p * t;
    assert(k >= 0) by (nonlinear_arith)
        requires
            g - 1 == p * k,
            g >= 1,
            p > 1,
    ;
    lemma_mod_multiples_basic(k, p as int);
    assert((p * k) % (p as int) == 0) by (nonlinear_arith)
        requires
            (k * p) % (p as int) == 0,
    ;
}

} // verus!
