//! What the scheme promises as a whole: decryption inverts encryption;
//! the product of ciphertexts decrypts to the sum of their plaintexts; a
//! power decrypts to a multiple; re-randomising leaves the plaintext.
//!
//! Each is stated over the contracts of the functions in `scheme` and
//! proved from elementary number theory (`number`), for a key whose two
//! primes really are distinct odd primes.

use vstd::prelude::*;
use vstd::arithmetic::div_mod::*;
use crate::arith::{gcd, is_prime, lemma_mul_mod, lemma_power_distributes, lemma_power_mod_noop,
    lemma_power_multiplies, lemma_power_one, power};
use crate::number::{
    inverse_mod, lemma_coprime_by_inverse, lemma_crt_unique, lemma_euler_square, lemma_lift,
    lemma_prime_not_dividing_power,
};
use crate::secret::{crt_decrypt, g_component, l_value};
use crate::scheme::{
    blob_verdict, encryption, exponent_len_for, masked, product_plan, scalar_offset, sum_state,
    term_verdict, BlobError, SchemeError,
    PublicKey, SecretKey, MAX_SCALE_POW10, SUM_HEADROOM_TERMS,
};
use crate::limbs::{bytes_value, lemma_minimal_bytes_unique, minimal_bytes};
use crate::arith::bit_count;
use crate::bignum::{primality_verdict, PrimeVerdict};
use crate::keys::{
    half_of, half_refuted, private_key_verdict, KeyError, MIN_MODULUS_BITS, PRIMALITY_ROUNDS,
    PQ_DIFFERENCE_SLACK_BITS,
};

verus! {

/// `c` encrypts `x` under `n`: `c = (1 + x·n) · y^n mod n²` for some `y`
/// coprime with `n`. Every ciphertext the scheme produces has this form.
pub open spec fn encrypts(c: nat, x: int, n: nat) -> bool {
    exists|y: nat|
        gcd(y, n) == 1 && c as int == ((1 + x * n) * #[trigger] power(y, n)) % ((n * n) as int)
}

/// What decryption needs of a key: two distinct odd primes, and the three
/// prepared inverses.
pub open spec fn decryption_key(p: nat, q: nat, hp: nat, hq: nat, pinv: nat) -> bool {
    let n = p * q;
    &&& is_prime(p)
    &&& is_prime(q)
    &&& p != q
    &&& p % 2 == 1
    &&& q % 2 == 1
    &&& l_value(g_component(p, n), p) is Some
    &&& l_value(g_component(q, n), q) is Some
    &&& (l_value(g_component(p, n), p).unwrap() * hp) % p == 1nat % p
    &&& (l_value(g_component(q, n), q).unwrap() * hq) % q == 1nat % q
    &&& (p * pinv) % q == 1nat % q
}

/// `(1 + p·K) mod p²` has `L = K mod p`.
proof fn lemma_l_of_lift(p: nat, k: nat)
    requires
        p > 1,
    ensures
        l_value((1 + p * k) % (p * p), p) == Some(k % p),
{
    let pp = p * p;
    lemma_fundamental_div_mod(k as int, p as int);
    let s = k / p;
    let r = k % p;
    lemma_mod_bound(k as int, p as int);
    assert(1 + p * k == pp * s + (1 + p * r)) by (nonlinear_arith)
        requires
            k == p * s + r,
            pp == p * p,
    ;
    assert(p * r <= p * (p - 1)) by (nonlinear_arith)
        requires
            r < p,
            p > 1,
    ;
    assert(1 + p * r < pp) by (nonlinear_arith)
        requires
            p * r <= p * (p - 1),
            p > 1,
            pp == p * p,
    ;
    assert(pp > 0) by (nonlinear_arith)
        requires
            p > 1,
            pp == p * p,
    ;
    lemma_mod_multiples_vanish(s as int, (1 + p * r) as int, pp as int);
    lemma_small_mod(1 + p * r, pp);
    let v = 1 + p * r;
    assert(((v - 1) as nat) == p * r);
    lemma_mod_multiples_basic(r as int, p as int);
    assert(p * r == r * p) by (nonlinear_arith);
    lemma_div_multiples_vanish(r as int, p as int);
}

/// A prime factor of `n` does not divide a `y` coprime with `n`.
proof fn lemma_coprime_factor(y: nat, p: nat, q: nat)
    requires
        p > 1,
        gcd(y, p * q) == 1,
    ensures
        y % p != 0,
{
    if y % p == 0 {
        let (u, v) = crate::number::bezout(y, p * q);
        lemma_fundamental_div_mod(y as int, p as int);
        let s = y / p;
        let w = u * s + v * q;
        assert(p * w == 1) by (nonlinear_arith)
            requires
                u * y + v * (p * q) == 1,
                y == p * s,
                w == u * s + v * q,
        ;
        assert(false) by (nonlinear_arith)
            requires
                p * w == 1,
                p > 1,
        ;
    }
}

/// One component of the decryption: modulo `p²`, the ciphertext of `x1`
/// has an exact `L`, and `L · hp ≡ x1 (mod p)`.
proof fn lemma_component(p: nat, q: nat, n: nat, h: nat, x1: nat, y: nat, c: nat)
    requires
        is_prime(p),
        q > 0,
        n == p * q,
        y % p != 0,
        c == ((1 + x1 * n) * power(y, n)) % (n * n),
        l_value(g_component(p, n), p) is Some,
        (l_value(g_component(p, n), p).unwrap() * h) % p == 1nat % p,
    ensures
        l_value(power(c, (p - 1) as nat) % (p * p), p) is Some,
        (l_value(power(c, (p - 1) as nat) % (p * p), p).unwrap() * h) % p == x1 % p,
{
    let pp = p * p;
    let qq = q * q;
    let nn = n * n;
    let e = (p - 1) as nat;
    let a1 = 1 + x1 * n;
    let big_y = power(y, n);
    assert(nn == pp * qq) by (nonlinear_arith)
        requires
            n == p * q,
            nn == n * n,
            pp == p * p,
            qq == q * q,
    ;
    assert(pp > 1 && qq > 0) by (nonlinear_arith)
        requires
            p > 1,
            q > 0,
            pp == p * p,
            qq == q * q,
    ;
    // c mod p² is the product mod p².
    lemma_mod_mod((a1 * big_y) as int, pp as int, qq as int);
    lemma_power_mod_noop(c, e, pp);
    lemma_power_mod_noop(a1 * big_y, e, pp);
    assert(c % pp == (a1 * big_y) % pp);
    lemma_power_distributes(a1, big_y, e);
    lemma_mul_mod(power(a1, e), power(big_y, e), pp);
    // The plaintext part lifts: (1 + x1 n)^(p−1) ≡ 1 + (p−1) x1 n.
    lemma_lift(x1, n, e);
    lemma_mod_mod(power(a1, e) as int, pp as int, qq as int);
    lemma_mod_mod((1 + e * x1 * n) as int, pp as int, qq as int);
    // The randomizer part vanishes: y^(n(p−1)) = (y^q)^(p(p−1)) ≡ 1.
    lemma_power_multiplies(y, n, e);
    lemma_power_multiplies(y, q, p * e);
    assert(n * e == q * (p * e)) by (nonlinear_arith)
        requires
            n == p * q,
    ;
    lemma_prime_not_dividing_power(p, y, q);
    lemma_euler_square(power(y, q), p);
    assert(power(big_y, e) % pp == 1);
    let k = e * x1 * q;
    assert(e * x1 * n == p * k) by (nonlinear_arith)
        requires
            n == p * q,
            k == e * x1 * q,
    ;
    let lifted = (1 + p * k) % pp;
    lemma_mod_bound((1 + p * k) as int, pp as int);
    lemma_small_mod(lifted, pp);
    assert(power(c, e) % pp == lifted);
    lemma_l_of_lift(p, k);
    // The same for g = n + 1: L = (p − 1) q mod p.
    let g = e * q;
    assert(e * n + 1 == 1 + p * g) by (nonlinear_arith)
        requires
            n == p * q,
            g == e * q,
    ;
    lemma_l_of_lift(p, g);
    assert(l_value(g_component(p, n), p).unwrap() == g % p);
    // (k mod p) · h ≡ x1 · (g · h) ≡ x1.
    lemma_mul_mod(k, h, p);
    lemma_mul_mod(g, h, p);
    lemma_small_mod(1, p);
    assert(k * h == x1 * (g * h)) by (nonlinear_arith)
        requires
            k == e * x1 * q,
            g == e * q,
    ;
    lemma_mul_mod(x1, g * h, p);
}

/// A ciphertext written with a reduced plaintext: `(1 + x·n)·Y` and
/// `(1 + (x mod n)·n)·Y` agree modulo `n²`.
proof fn lemma_reduce_plaintext(x: int, n: nat, big_y: nat)
    requires
        n > 0,
    ensures
        ((1 + x * n) * big_y) % ((n * n) as int) == ((1 + (x % (n as int)) * n) * big_y) % ((n
            * n) as int),
{
    let nn = (n * n) as int;
    assert(nn > 0) by (nonlinear_arith)
        requires
            n > 0,
            nn == n * n,
    ;
    lemma_fundamental_div_mod(x, n as int);
    let t = x / (n as int);
    let x1 = x % (n as int);
    assert((1 + x * n) * big_y == nn * (t * big_y) + (1 + x1 * n) * big_y) by (nonlinear_arith)
        requires
            x == n * t + x1,
            nn == n * n,
    ;
    lemma_mod_multiples_vanish(t * big_y, (1 + x1 * n) * big_y, nn);
}

/// An encryption is a unit modulo `n`: it has an inverse, so it is
/// coprime with `n`.
proof fn lemma_encryption_coprime(x1: nat, n: nat, y: nat, c: nat)
    requires
        n > 1,
        gcd(y, n) == 1,
        c == ((1 + x1 * n) * power(y, n)) % (n * n),
    ensures
        gcd(c, n) == 1,
        1 <= c < n * n,
{
    let nn = n * n;
    let big_y = power(y, n);
    let a1 = 1 + x1 * n;
    let iy = inverse_mod(y, n);
    let u = power(iy, n);
    lemma_power_distributes(y, iy, n);
    lemma_power_mod_noop(y * iy, n, n);
    lemma_power_one(n);
    lemma_small_mod(1, n);
    assert((big_y * u) % n == 1);
    lemma_mod_mod((a1 * big_y) as int, n as int, n as int);
    lemma_mod_multiples_vanish(x1 as int, 1, n as int);
    assert(a1 == n * x1 + 1) by (nonlinear_arith)
        requires
            a1 == 1 + x1 * n,
    ;
    assert(a1 % n == 1);
    lemma_mul_mod(c, u, n);
    lemma_mul_mod(a1 * big_y, u, n);
    assert(a1 * big_y * u == a1 * (big_y * u)) by (nonlinear_arith);
    lemma_mul_mod(a1, big_y * u, n);
    assert((c * u) % n == 1);
    lemma_coprime_by_inverse(c, u, n);
    assert(nn > 0) by (nonlinear_arith)
        requires
            n > 1,
            nn == n * n,
    ;
    lemma_mod_bound((a1 * big_y) as int, nn as int);
    if c == 0 {
        assert(c * u == 0) by (nonlinear_arith)
            requires
                c == 0,
        ;
        lemma_small_mod(0, n);
    }
}

/// The Chinese remainder recombination of `mp = x1 mod p`, `mq = x1 mod q`
/// gives back `x1`.
proof fn lemma_recombine(p: nat, q: nat, pinv: nat, x1: nat)
    requires
        is_prime(p),
        is_prime(q),
        p != q,
        (p * pinv) % q == 1nat % q,
        x1 < p * q,
    ensures
        ({
            let mp = x1 % p;
            let mq = x1 % q;
            mp + p * (((mq - mp) * pinv) % (q as int)) == x1
        }),
{
    let mp = x1 % p;
    let mq = x1 % q;
    let z = (mq - mp) * pinv;
    let diff = z % (q as int);
    let plain = mp + p * diff;
    lemma_mod_bound(x1 as int, p as int);
    lemma_mod_bound(x1 as int, q as int);
    lemma_mod_bound(z, q as int);
    lemma_fundamental_div_mod(x1 as int, p as int);
    lemma_fundamental_div_mod(x1 as int, q as int);
    lemma_fundamental_div_mod(z, q as int);
    lemma_fundamental_div_mod((p * pinv) as int, q as int);
    lemma_small_mod(1, q);
    let w = (p * pinv) / q;
    let zq = z / (q as int);
    let xp = x1 / p;
    let xq = x1 / q;
    // Modulo p: plain − x1 = p (diff − x1/p).
    let d = plain - x1;
    assert(d == p * (diff - xp)) by (nonlinear_arith)
        requires
            plain == mp + p * diff,
            x1 == p * xp + mp,
            d == plain - x1,
    ;
    lemma_mod_multiples_basic(diff - xp, p as int);
    assert(p * (diff - xp) == (diff - xp) * p) by (nonlinear_arith);
    // Modulo q: p · pinv = 1 + q w, so plain ≡ mq ≡ x1.
    assert(d == q * ((mq - mp) * w - p * zq - xq)) by (nonlinear_arith)
        requires
            plain == mp + p * diff,
            diff == z - q * zq,
            z == (mq - mp) * pinv,
            p * pinv == q * w + 1,
            x1 == q * xq + mq,
            d == plain - x1,
    ;
    lemma_mod_multiples_basic((mq - mp) * w - p * zq - xq, q as int);
    assert(q * ((mq - mp) * w - p * zq - xq) == ((mq - mp) * w - p * zq - xq) * q)
        by (nonlinear_arith);
    assert(0 <= plain < p * q) by (nonlinear_arith)
        requires
            plain == mp + p * diff,
            0 <= mp < p,
            0 <= diff < q,
    ;
    lemma_crt_unique(p, q, d);
}

/// Decryption inverts encryption: for a key of two distinct odd primes,
/// an encryption of `x` with `|x| ≤ n/2` decrypts to `x`.
pub proof fn lemma_decrypts(p: nat, q: nat, hp: nat, hq: nat, pinv: nat, c: nat, x: int)
    requires
        decryption_key(p, q, hp, hq, pinv),
        encrypts(c, x, p * q),
        -((p * q) / 2) <= x <= (p * q) / 2,
    ensures
        crt_decrypt(p, q, hp, hq, pinv, c) == Some(x),
{
    let n = p * q;
    let nn = n * n;
    let y = choose|y: nat|
        gcd(y, n) == 1 && c as int == ((1 + x * n) * #[trigger] power(y, n)) % ((n * n) as int);
    let big_y = power(y, n);
    assert(n > 1) by (nonlinear_arith)
        requires
            n == p * q,
            p > 1,
            q > 1,
    ;
    lemma_reduce_plaintext(x, n, big_y);
    let x1 = (x % (n as int)) as nat;
    lemma_mod_bound(x, n as int);
    assert(c == ((1 + x1 * n) * big_y) % nn);
    lemma_encryption_coprime(x1, n, y, c);
    lemma_coprime_factor(y, p, q);
    assert(n == q * p) by (nonlinear_arith)
        requires
            n == p * q,
    ;
    lemma_coprime_factor(y, q, p);
    lemma_component(p, q, n, hp, x1, y, c);
    lemma_component(q, p, n, hq, x1, y, c);
    let up = power(c, (p - 1) as nat) % (p * p);
    let uq = power(c, (q - 1) as nat) % (q * q);
    let lp = l_value(up, p).unwrap();
    let lq = l_value(uq, q).unwrap();
    assert((lp * hp) % p == x1 % p);
    assert((lq * hq) % q == x1 % q);
    lemma_recombine(p, q, pinv, x1);
    let plain = (x1 % p) + p * ((((x1 % q) - (x1 % p)) * pinv) % (q as int));
    assert(plain == x1);
    // The signed representative: n is odd, so x and x + n fall on either
    // side of n/2.
    lemma_fundamental_div_mod(n as int, 2);
    crate::secret::lemma_odd_square(p);
    assert(n % 2 == 1) by {
        lemma_fundamental_div_mod(p as int, 2);
        lemma_fundamental_div_mod(q as int, 2);
        let a = p / 2;
        let b = q / 2;
        assert(n == 2 * (2 * a * b + a + b) + 1) by (nonlinear_arith)
            requires
                n == p * q,
                p == 2 * a + 1,
                q == 2 * b + 1,
        ;
        lemma_mod_multiples_vanish((2 * a * b + a + b) as int, 1, 2);
    }
    if x >= 0 {
        lemma_small_mod(x as nat, n);
    } else {
        lemma_mod_add_multiples_vanish(x, n as int);
        lemma_small_mod((x + n) as nat, n);
    }
}

/// Inverses multiply: the product of two units is a unit.
proof fn lemma_unit_product(a: nat, ia: nat, b: nat, ib: nat, m: nat)
    requires
        m > 1,
        (a * ia) % m == 1,
        (b * ib) % m == 1,
    ensures
        ((a * b) * (ia * ib)) % m == 1,
{
    assert((a * b) * (ia * ib) == (a * ia) * (b * ib)) by (nonlinear_arith);
    lemma_mul_mod(a * ia, b * ib, m);
    lemma_small_mod(1, m);
}

/// A power of a unit is a unit, with the power of the inverse.
proof fn lemma_unit_power(a: nat, ia: nat, m: nat, e: nat)
    requires
        m > 1,
        (a * ia) % m == 1,
    ensures
        (power(a, e) * power(ia, e)) % m == 1,
{
    lemma_power_distributes(a, ia, e);
    lemma_power_mod_noop(a * ia, e, m);
    lemma_power_one(e);
    lemma_small_mod(1, m);
}

/// Coprimality with `n` survives powers.
proof fn lemma_coprime_power(a: nat, e: nat, n: nat)
    requires
        n > 1,
        gcd(a, n) == 1,
    ensures
        gcd(power(a, e), n) == 1,
{
    let ia = inverse_mod(a, n);
    lemma_unit_power(a, ia, n, e);
    lemma_coprime_by_inverse(power(a, e), power(ia, e), n);
}

/// Coprimality with `n` survives products.
proof fn lemma_coprime_product(a: nat, b: nat, n: nat)
    requires
        n > 1,
        gcd(a, n) == 1,
        gcd(b, n) == 1,
    ensures
        gcd(a * b, n) == 1,
{
    let ia = inverse_mod(a, n);
    let ib = inverse_mod(b, n);
    lemma_unit_product(a, ia, b, ib, n);
    lemma_coprime_by_inverse(a * b, ia * ib, n);
}

/// Coprime with `n` means coprime with `n²`.
proof fn lemma_coprime_square(y: nat, n: nat)
    requires
        n > 1,
        gcd(y, n) == 1,
    ensures
        gcd(y, n * n) == 1,
{
    let (u, v) = crate::number::bezout(y, n);
    assert((u * u * y + 2 * u * v * n) * y + (v * v) * (n * n) == 1) by (nonlinear_arith)
        requires
            u * y + v * n == 1,
    ;
    crate::number::lemma_coprime_by_combination(y, n * n, u * u * y + 2 * u * v * n, v * v);
}

/// `h = −x² mod n` is coprime with `n` when `x` is.
proof fn lemma_h_coprime(x: nat, n: nat)
    requires
        n > 1,
        gcd(x, n) == 1,
    ensures
        gcd(crate::keys::h_of(x, n), n) == 1,
{
    let h = crate::keys::h_of(x, n);
    let sq = x * x;
    let s = sq % n;
    let t = n - s;
    lemma_fundamental_div_mod(sq as int, n as int);
    lemma_fundamental_div_mod(t, n as int);
    lemma_mod_bound(sq as int, n as int);
    lemma_mod_bound(t, n as int);
    let a = (sq as int) / (n as int);
    let b = t / (n as int);
    assert(h == t % (n as int));
    let k = 1 + a - b;
    assert(h == -sq + n * k) by (nonlinear_arith)
        requires
            sq == n * a + s,
            t == n - s,
            t == n * b + h,
            k == 1 + a - b,
    ;
    let (u, v) = crate::number::bezout(x, n);
    let w = 2 * v - v * v * n + u * u * k;
    let uu = u * u;
    let d = 2 * v - v * v * n;
    assert(uu * sq == 1 - n * d) by (nonlinear_arith)
        requires
            u * x + v * n == 1,
            sq == x * x,
            uu == u * u,
            d == 2 * v - v * v * n,
    ;
    assert((-uu) * h == uu * sq - n * (uu * k)) by (nonlinear_arith)
        requires
            h == -sq + n * k,
    ;
    assert(w * n == n * d + n * (uu * k)) by (nonlinear_arith)
        requires
            w == d + uu * k,
    ;
    assert((-(u * u)) * h + w * n == 1);
    crate::number::lemma_coprime_by_combination(h, n, -(u * u), w);
}

/// The fixed base of an honest key is an `n`-th power of a unit:
/// `hs^r ≡ (h^r)^n (mod n²)`.
proof fn lemma_randomizer_power(n: nat, hs: nat, r: nat) -> (y: nat)
    requires
        n > 1,
        crate::scheme::derived_hs(hs, n),
    ensures
        gcd(y, n) == 1,
        power(hs, r) % (n * n) == power(y, n) % (n * n),
{
    let x0 = choose|x0: nat|
        #[trigger] crate::keys::usable_x(x0, n) && hs == crate::scheme::hs_of(x0, n)
            && !crate::keys::degenerate_hs(hs, n * n);
    let h = crate::keys::h_of(x0, n);
    let nn = n * n;
    assert(nn > 1) by (nonlinear_arith)
        requires
            n > 1,
            nn == n * n,
    ;
    lemma_h_coprime(x0, n);
    let y = power(h, r);
    lemma_coprime_power(h, r, n);
    lemma_power_mod_noop(power(h, n), r, nn);
    lemma_power_multiplies(h, n, r);
    lemma_power_multiplies(h, r, n);
    assert(n * r == r * n) by (nonlinear_arith);
    y
}

/// Encryption produces what decryption expects.
pub proof fn lemma_encryption_encrypts(n: nat, hs: nat, x: int, r: nat)
    requires
        n > 1,
        crate::scheme::derived_hs(hs, n),
    ensures
        encrypts(crate::scheme::encryption(n, hs, x, r), x, n),
{
    let nn = n * n;
    assert(nn > 1) by (nonlinear_arith)
        requires
            n > 1,
            nn == n * n,
    ;
    let y = lemma_randomizer_power(n, hs, r);
    let big_y = power(y, n);
    let a = (1 + x * n) % (nn as int);
    lemma_mod_bound(1 + x * n, nn as int);
    lemma_mul_mod_noop_general(1 + x * n, big_y as int, nn as int);
    lemma_mul_mod_noop_general(a, power(hs, r) as int, nn as int);
    assert(crate::scheme::encryption(n, hs, x, r) as int == ((1 + x * n) * power(y, n)) % (
    nn as int));
}

/// Re-randomising keeps the plaintext: the mask is an encryption of zero.
pub proof fn lemma_masked_encrypts(n: nat, hs: nat, c: nat, x: int, r: nat)
    requires
        n > 1,
        crate::scheme::derived_hs(hs, n),
        encrypts(c, x, n),
    ensures
        encrypts(crate::scheme::masked(n, hs, c, r), x, n),
{
    let nn = n * n;
    assert(nn > 1) by (nonlinear_arith)
        requires
            n > 1,
            nn == n * n,
    ;
    let y = choose|y: nat|
        gcd(y, n) == 1 && c as int == ((1 + x * n) * #[trigger] power(y, n)) % ((n * n) as int);
    let z = lemma_randomizer_power(n, hs, r);
    let out = crate::scheme::masked(n, hs, c, r);
    lemma_coprime_product(y, z, n);
    lemma_power_distributes(y, z, n);
    let big_y = power(y, n);
    let big_z = power(z, n);
    lemma_mul_mod_noop_general(c as int, power(hs, r) as int, nn as int);
    lemma_mul_mod_noop_general(c as int, big_z as int, nn as int);
    lemma_mul_mod_noop_general((1 + x * n) * big_y, big_z as int, nn as int);
    assert((1 + x * n) * big_y * big_z == (1 + x * n) * (big_y * big_z)) by (nonlinear_arith);
    assert(out as int == ((1 + x * n) * power(y * z, n)) % (nn as int));
}

/// The product of two ciphertexts encrypts the sum of their plaintexts.
pub proof fn lemma_product_encrypts(n: nat, c1: nat, x1: int, c2: nat, x2: int)
    requires
        n > 1,
        encrypts(c1, x1, n),
        encrypts(c2, x2, n),
    ensures
        encrypts((c1 * c2) % (n * n), x1 + x2, n),
{
    let nn = n * n;
    assert(nn > 1) by (nonlinear_arith)
        requires
            n > 1,
            nn == n * n,
    ;
    let y1 = choose|y: nat|
        gcd(y, n) == 1 && c1 as int == ((1 + x1 * n) * #[trigger] power(y, n)) % ((n * n) as int);
    let y2 = choose|y: nat|
        gcd(y, n) == 1 && c2 as int == ((1 + x2 * n) * #[trigger] power(y, n)) % ((n * n) as int);
    let b1 = power(y1, n);
    let b2 = power(y2, n);
    lemma_coprime_product(y1, y2, n);
    lemma_power_distributes(y1, y2, n);
    let f1 = (1 + x1 * n) * b1;
    let f2 = (1 + x2 * n) * b2;
    lemma_mul_mod_noop_general(f1, f2, nn as int);
    let a1 = 1 + x1 * n;
    let a2 = 1 + x2 * n;
    let bb = b1 * b2;
    assert(f1 * f2 == (a1 * a2) * bb) by (nonlinear_arith)
        requires
            f1 == a1 * b1,
            f2 == a2 * b2,
            bb == b1 * b2,
    ;
    assert(a1 * a2 == (1 + (x1 + x2) * n) + nn * (x1 * x2)) by (nonlinear_arith)
        requires
            a1 == 1 + x1 * n,
            a2 == 1 + x2 * n,
            nn == n * n,
    ;
    assert(f1 * f2 == (1 + (x1 + x2) * n) * bb + nn * (x1 * x2 * bb)) by (nonlinear_arith)
        requires
            f1 * f2 == (a1 * a2) * bb,
            a1 * a2 == (1 + (x1 + x2) * n) + nn * (x1 * x2),
    ;
    lemma_mod_multiples_vanish(x1 * x2 * (b1 * b2), (1 + (x1 + x2) * n) * (b1 * b2), nn as int);
}

/// One is the encryption of zero that an empty product starts from.
pub proof fn lemma_one_encrypts_zero(n: nat)
    requires
        n > 1,
    ensures
        encrypts(1, 0, n),
{
    lemma_power_one(n);
    assert(n * n > 1) by (nonlinear_arith)
        requires
            n > 1,
    ;
    lemma_small_mod(1, n * n);
    crate::number::lemma_coprime_by_combination(1, n, 1, 0);
    assert(1 as int == ((1 + 0int * n) * power(1, n)) % ((n * n) as int));
}

/// `Σ_{i < k} xs[i]`.
pub open spec fn plain_sum(xs: Seq<int>, k: nat) -> int
    decreases k,
{
    if k == 0 {
        0
    } else {
        plain_sum(xs, (k - 1) as nat) + xs[k - 1]
    }
}

/// The running product of a batch encrypts the running sum of its
/// plaintexts.
pub proof fn lemma_sum_state_encrypts(blobs: Seq<Vec<u8>>, n: nat, xs: Seq<int>, k: nat)
    requires
        n > 1,
        k <= blobs.len(),
        xs.len() == blobs.len(),
        forall|i: int|
            0 <= i < blobs.len() ==> (#[trigger] crate::scheme::blob_verdict(blobs[i]@) matches Ok(
                (_, c),
            ) ==> encrypts(c, xs[i], n)),
        crate::scheme::sum_state(blobs, n * n, k) is Ok,
    ensures
        encrypts(crate::scheme::sum_state(blobs, n * n, k)->Ok_0.1, plain_sum(xs, k), n),
    decreases k,
{
    if k == 0 {
        lemma_one_encrypts_zero(n);
    } else {
        let j = (k - 1) as nat;
        lemma_sum_state_encrypts(blobs, n, xs, j);
        let total = crate::scheme::sum_state(blobs, n * n, j)->Ok_0.1;
        let c = crate::scheme::blob_verdict(blobs[j as int]@)->Ok_0.1;
        assert(crate::scheme::blob_verdict(blobs[j as int]@) is Ok);
        lemma_product_encrypts(n, total, plain_sum(xs, j), c, xs[j as int]);
    }
}

/// Powers of an encryption: `c^e ≡ (1 + e·x1·n)·(y^e)^n (mod n²)`.
proof fn lemma_power_of_encryption(x1: nat, n: nat, y: nat, c: nat, e: nat)
    requires
        n > 1,
        c == ((1 + x1 * n) * power(y, n)) % (n * n),
    ensures
        power(c, e) % (n * n) == ((1 + e * x1 * n) * power(power(y, e), n)) % (n * n),
{
    let nn = n * n;
    assert(nn > 1) by (nonlinear_arith)
        requires
            n > 1,
            nn == n * n,
    ;
    let a1 = 1 + x1 * n;
    let big_y = power(y, n);
    lemma_power_mod_noop(a1 * big_y, e, nn);
    lemma_power_distributes(a1, big_y, e);
    lemma_mul_mod(power(a1, e), power(big_y, e), nn);
    lemma_lift(x1, n, e);
    lemma_power_multiplies(y, n, e);
    lemma_power_multiplies(y, e, n);
    assert(n * e == e * n) by (nonlinear_arith);
    lemma_mul_mod(1 + e * x1 * n, power(power(y, e), n), nn);
}

/// `1 + x·n` is a unit modulo `n²`, with inverse `1 + (n − x)·n`.
proof fn lemma_plain_unit(x1: nat, n: nat)
    requires
        n > 1,
        x1 < n,
    ensures
        ((1 + x1 * n) * (1 + ((n - x1) as nat) * n)) % (n * n) == 1,
{
    let nn = n * n;
    let w = (n - x1) as nat;
    assert((1 + x1 * n) * (1 + w * n) == nn * (1 + x1 * w) + 1) by (nonlinear_arith)
        requires
            w == n - x1,
            nn == n * n,
    ;
    assert(nn > 1) by (nonlinear_arith)
        requires
            n > 1,
            nn == n * n,
    ;
    lemma_mod_multiples_vanish((1 + x1 * w) as int, 1, nn as int);
    lemma_small_mod(1, nn);
}

/// An encryption is a unit modulo `n²`.
proof fn lemma_encryption_unit(x1: nat, n: nat, y: nat, c: nat) -> (ic: nat)
    requires
        n > 1,
        x1 < n,
        gcd(y, n) == 1,
        c == ((1 + x1 * n) * power(y, n)) % (n * n),
    ensures
        (c * ic) % (n * n) == 1,
{
    let nn = n * n;
    assert(nn > 1) by (nonlinear_arith)
        requires
            n > 1,
            nn == n * n,
    ;
    let a1 = 1 + x1 * n;
    let ia = 1 + ((n - x1) as nat) * n;
    lemma_plain_unit(x1, n);
    lemma_coprime_square(y, n);
    let iy = inverse_mod(y, nn);
    lemma_unit_power(y, iy, nn, n);
    lemma_unit_product(a1, ia, power(y, n), power(iy, n), nn);
    let ic = ia * power(iy, n);
    lemma_mul_mod(a1 * power(y, n), ic, nn);
    ic
}

/// Cancelling a unit: `a·u ≡ t·u` with `u` invertible gives `a ≡ t`.
proof fn lemma_cancel(a: nat, t: int, u: nat, iu: nat, m: nat)
    requires
        m > 1,
        a < m,
        ((a * u) as int) % (m as int) == (t * u) % (m as int),
        (u * iu) % m == 1,
    ensures
        a as int == t % (m as int),
{
    let mi = m as int;
    lemma_mul_mod_noop_general((a * u) as int, iu as int, mi);
    lemma_mul_mod_noop_general(t * u, iu as int, mi);
    assert((a * u) * iu == a * (u * iu)) by (nonlinear_arith);
    assert((t * u) * iu == t * (u * iu)) by (nonlinear_arith);
    lemma_mul_mod_noop_general(a as int, (u * iu) as int, mi);
    lemma_mul_mod_noop_general(t, (u * iu) as int, mi);
    lemma_small_mod(a, m);
}

/// The scalar multiplication: if `prod · c^o ≡ c^(k+o) (mod n²)` for a
/// ciphertext `c` of `x`, then `prod` is a ciphertext of `k·x`.
#[verifier::spinoff_prover]
pub proof fn lemma_multiply_encrypts(n: nat, c: nat, x: int, k: int, o: nat, prod: nat)
    requires
        n > 1,
        encrypts(c, x, n),
        k + o >= 0,
        prod < n * n,
        (prod * (power(c, o) % (n * n))) % (n * n) == power(c, (k + o) as nat) % (n * n),
    ensures
        encrypts(prod, k * x, n),
{
    let nn = n * n;
    assert(nn > 1) by (nonlinear_arith)
        requires
            n > 1,
            nn == n * n,
    ;
    let e = (k + o) as nat;
    let y = choose|y: nat|
        gcd(y, n) == 1 && c as int == ((1 + x * n) * #[trigger] power(y, n)) % ((n * n) as int);
    lemma_reduce_plaintext(x, n, power(y, n));
    let x1 = (x % (n as int)) as nat;
    lemma_mod_bound(x, n as int);
    assert(c == ((1 + x1 * n) * power(y, n)) % nn);
    lemma_power_of_encryption(x1, n, y, c, e);
    lemma_power_of_encryption(x1, n, y, c, o);
    // The candidate: T = (1 + k x1 n) · (y^e · w)^n with w = (y^{-1})^o.
    lemma_coprime_square(y, n);
    let iy = inverse_mod(y, nn);
    let w = power(iy, o);
    let ye = power(y, e);
    let yo = power(y, o);
    let z = ye * w;
    let t = (1 + k * x1 * n) * power(z, n);
    // T · c^o ≡ c^e.
    lemma_unit_power(y, iy, nn, o);
    assert((yo * w) % nn == 1);
    let po = power(c, o) % nn;
    let pe = power(c, e) % nn;
    let zo = power(yo, n);
    let ze = power(ye, n);
    lemma_power_distributes(ye, w, n);
    lemma_unit_power(yo, w, nn, n);
    assert((zo * power(w, n)) % nn == 1);
    // (1 + k x1 n)(1 + o x1 n) = (1 + e x1 n) + nn · (k o x1²).
    let lo = 1 + o * x1 * n;
    let lk = 1 + k * x1 * n;
    let le = 1 + e * x1 * n;
    assert(lk * lo == le + nn * (k * o * x1 * x1)) by (nonlinear_arith)
        requires
            lk == 1 + k * x1 * n,
            lo == 1 + o * x1 * n,
            le == 1 + e * x1 * n,
            e == k + o,
            nn == n * n,
    ;
    let wn = power(w, n);
    assert(t * (lo * zo) == (lk * lo) * ze * (wn * zo)) by (nonlinear_arith)
        requires
            t == lk * (ze * wn),
    ;
    assert(power(z, n) == ze * wn);
    lemma_mul_mod_noop_general((lk * lo) * ze, (wn * zo) as int, nn as int);
    assert(wn * zo == zo * wn) by (nonlinear_arith);
    lemma_small_mod(1, nn);
    assert((t * (lo * zo)) % (nn as int) == ((lk * lo) * ze) % (nn as int));
    assert((lk * lo) * ze == le * ze + nn * (k * o * x1 * x1 * ze)) by (nonlinear_arith)
        requires
            lk * lo == le + nn * (k * o * x1 * x1),
    ;
    lemma_mod_multiples_vanish(k * o * x1 * x1 * ze, (le * ze) as int, nn as int);
    // So T · c^o ≡ c^e ≡ prod · c^o, and c^o is a unit: prod ≡ T.
    assert(po as int == ((lo * zo) as int) % (nn as int));
    lemma_mul_mod_noop_general(t, (lo * zo) as int, nn as int);
    assert((t * po) % (nn as int) == pe as int);
    let ic = lemma_encryption_unit(x1, n, y, c);
    lemma_unit_power(c, ic, nn, o);
    lemma_mul_mod(power(c, o), power(ic, o), nn);
    lemma_cancel(prod, t, po, power(ic, o), nn);
    // Finally k x1 ≡ k x (mod n), and z is coprime with n.
    lemma_fundamental_div_mod(x, n as int);
    let q = x / (n as int);
    assert(lk * power(z, n) == (1 + k * x * n) * power(z, n) + nn * (-(k * q) * power(z, n)))
        by (nonlinear_arith)
        requires
            lk == 1 + k * x1 * n,
            x == n * q + x1,
            nn == n * n,
    ;
    lemma_mod_multiples_vanish(-(k * q) * power(z, n), (1 + k * x * n) * power(z, n), nn as int);
    lemma_coprime_power(y, e, n);
    assert(gcd(iy, n) == 1) by {
        lemma_mod_mod((y * iy) as int, n as int, n as int);
        lemma_small_mod(1, n);
        lemma_coprime_by_inverse(iy, y, n);
        assert(iy * y == y * iy) by (nonlinear_arith);
    }
    lemma_coprime_power(iy, o, n);
    lemma_coprime_product(ye, w, n);
    assert((k * x) * n == k * (x * n)) by (nonlinear_arith);
    assert(prod as int == ((1 + (k * x) * n) * power(z, n)) % (nn as int)) by (nonlinear_arith)
        requires
            prod as int == ((1 + k * x * n) * power(z, n)) % (nn as int),
    ;
}

/// Every ciphertext is invertible modulo `n²`, and so is each of its
/// powers: multiplying a ciphertext by a scalar never fails on one.
pub proof fn law_ciphertexts_are_invertible(n: nat, c: nat, x: int, o: nat)
    requires
        n > 1,
        encrypts(c, x, n),
    ensures
        gcd(power(c, o) % (n * n), n * n) == 1,
{
    let nn = n * n;
    assert(nn > 1) by (nonlinear_arith)
        requires
            n > 1,
            nn == n * n,
    ;
    let y = choose|y: nat|
        gcd(y, n) == 1 && c as int == ((1 + x * n) * #[trigger] power(y, n)) % ((n * n) as int);
    lemma_reduce_plaintext(x, n, power(y, n));
    let x1 = (x % (n as int)) as nat;
    lemma_mod_bound(x, n as int);
    let ic = lemma_encryption_unit(x1, n, y, c);
    lemma_unit_power(c, ic, nn, o);
    lemma_mul_mod(power(c, o), power(ic, o), nn);
    lemma_coprime_by_inverse(power(c, o) % nn, power(ic, o), nn);
}

/// Law: what encryption produces under a well-formed key is a ciphertext
/// of its plaintext.
pub proof fn law_encryption_is_ciphertext(pk: PublicKey, x: int, r: nat)
    requires
        pk.wf(),
    ensures
        encrypts(encryption(pk.modulus(), pk.randomizer(), x, r), x, pk.modulus()),
{
    pk.lemma_wf();
    lemma_encryption_encrypts(pk.modulus(), pk.randomizer(), x, r);
}

/// Law: decryption reads back the plaintext of every ciphertext whose
/// plaintext lies in `[−n/2, n/2]`, for a key of two distinct primes.
pub proof fn law_decryption_reads_ciphertexts(sk: SecretKey, c: nat, x: int)
    requires
        sk.wf(),
        is_prime(sk.prime_p()),
        is_prime(sk.prime_q()),
        sk.prime_p() != sk.prime_q(),
        encrypts(c, x, sk.prime_p() * sk.prime_q()),
        -((sk.prime_p() * sk.prime_q()) / 2) <= x <= (sk.prime_p() * sk.prime_q()) / 2,
    ensures
        sk.decryption(c) == Some(x),
{
    sk.lemma_key();
    lemma_decrypts(sk.prime_p(), sk.prime_q(), sk.hp(), sk.hq(), sk.p_inverse(), c, x);
}

/// Law (the round trip): a blob that encryption produced under a key
/// pair parses back to its scale and its ciphertext, and the ciphertext
/// decrypts to the plaintext.
pub proof fn law_round_trip(
    pk: PublicKey,
    sk: SecretKey,
    blob: Seq<u8>,
    pow10: u8,
    x: int,
    r: nat,
)
    requires
        pk.wf(),
        sk.wf(),
        pk.modulus() == sk.prime_p() * sk.prime_q(),
        is_prime(sk.prime_p()),
        is_prime(sk.prime_q()),
        sk.prime_p() != sk.prime_q(),
        -(pk.modulus() / 2) <= x <= pk.modulus() / 2,
        pow10 <= MAX_SCALE_POW10,
        blob.len() >= 1,
        blob[0] == pow10,
        bytes_value(blob.skip(1)) == encryption(pk.modulus(), pk.randomizer(), x, r),
    ensures
        blob_verdict(blob) == Ok::<(u8, nat), crate::scheme::BlobError>(
            (pow10, encryption(pk.modulus(), pk.randomizer(), x, r)),
        ),
        sk.decryption(encryption(pk.modulus(), pk.randomizer(), x, r)) == Some(x),
{
    law_encryption_is_ciphertext(pk, x, r);
    law_decryption_reads_ciphertexts(sk, encryption(pk.modulus(), pk.randomizer(), x, r), x);
}

/// Law: re-randomising keeps the plaintext.
pub proof fn law_rerandomizing_keeps_plaintext(pk: PublicKey, c: nat, x: int, r: nat)
    requires
        pk.wf(),
        encrypts(c, x, pk.modulus()),
    ensures
        encrypts(masked(pk.modulus(), pk.randomizer(), c, r), x, pk.modulus()),
{
    pk.lemma_wf();
    lemma_masked_encrypts(pk.modulus(), pk.randomizer(), c, x, r);
}

/// Law (homomorphic addition): when every term of a batch is a
/// ciphertext, the sum the batch yields is a ciphertext of the sum of the
/// plaintexts.
pub proof fn law_sum_of_ciphertexts(pk: PublicKey, blobs: Seq<Vec<u8>>, xs: Seq<int>)
    requires
        pk.wf(),
        xs.len() == blobs.len(),
        forall|i: int|
            0 <= i < blobs.len() ==> (#[trigger] blob_verdict(blobs[i]@) matches Ok((_, c))
                ==> encrypts(c, xs[i], pk.modulus())),
        sum_state(blobs, pk.modulus_square(), blobs.len() as nat) is Ok,
    ensures
        encrypts(
            sum_state(blobs, pk.modulus_square(), blobs.len() as nat)->Ok_0.1,
            plain_sum(xs, blobs.len() as nat),
            pk.modulus(),
        ),
{
    pk.lemma_wf();
    lemma_sum_state_encrypts(blobs, pk.modulus(), xs, blobs.len() as nat);
}

/// Law (multiplication by a known scalar): the product a ciphertext of
/// `x` yields for a scalar `k` with `|k| < 2^64` is a ciphertext of
/// `k·x`.
pub proof fn law_scalar_product(pk: PublicKey, c: nat, x: int, k: int, prod: nat)
    requires
        pk.wf(),
        encrypts(c, x, pk.modulus()),
        -0x1_0000_0000_0000_0000 < k < 0x1_0000_0000_0000_0000,
        prod < pk.modulus_square(),
        (prod * (power(c, scalar_offset()) % pk.modulus_square())) % pk.modulus_square() == power(
            c,
            (k + scalar_offset()) as nat,
        ) % pk.modulus_square(),
    ensures
        encrypts(prod, k * x, pk.modulus()),
{
    pk.lemma_wf();
    lemma_multiply_encrypts(pk.modulus(), c, x, k, scalar_offset(), prod);
}

/// Law: a blob that joins a scale byte to a ciphertext splits back into
/// exactly those two.
pub proof fn law_blob_round_trip(blob: Seq<u8>, pow10: u8, c: nat)
    requires
        pow10 <= MAX_SCALE_POW10,
        blob.len() >= 1,
        blob[0] == pow10,
        bytes_value(blob.skip(1)) == c,
    ensures
        blob_verdict(blob) == Ok::<(u8, nat), BlobError>((pow10, c)),
{
}

/// Law: a sum of one term gives that term back, byte for byte of its
/// ciphertext.
pub proof fn law_single_term_sum(blob: Vec<u8>, nn: nat, pow10: u8, c: nat)
    requires
        blob_verdict(blob@) == Ok::<(u8, nat), BlobError>((pow10, c)),
        1 <= c < nn,
    ensures
        sum_state(seq![blob], nn, 1) == Ok::<(Option<u8>, nat), crate::scheme::SchemeError>(
            (Some(pow10), c),
        ),
{
    let blobs = seq![blob];
    assert(blobs[0] == blob);
    assert(sum_state(blobs, nn, 0) == Ok::<(Option<u8>, nat), crate::scheme::SchemeError>(
        (None, 1),
    ));
    assert(1 * c == c);
    lemma_small_mod(c, nn);
}

/// `|Σ_{i<k} xs[i]| ≤ k·b` when every term is within `b`.
proof fn lemma_sum_bound(xs: Seq<int>, b: nat, k: nat)
    requires
        k <= xs.len(),
        forall|i: int| 0 <= i < xs.len() ==> -b <= #[trigger] xs[i] <= b,
    ensures
        -(k * b) <= plain_sum(xs, k) <= k * b,
    decreases k,
{
    if k > 0 {
        lemma_sum_bound(xs, b, (k - 1) as nat);
        assert(k * b == (k - 1) * b + b) by (nonlinear_arith)
            requires
                k >= 1,
        ;
        assert(-b <= xs[k - 1] <= b);
    }
}

/// Law (headroom): at most `SUM_HEADROOM_TERMS` plaintexts, each within
/// the key's bound `n / (2 · SUM_HEADROOM_TERMS)`, sum to within `n/2`,
/// where decryption reads them back.
pub proof fn law_headroom(xs: Seq<int>, n: nat)
    requires
        xs.len() <= SUM_HEADROOM_TERMS,
        forall|i: int|
            0 <= i < xs.len() ==> -(n / (2 * SUM_HEADROOM_TERMS as nat)) <= #[trigger] xs[i] <= n
                / (2 * SUM_HEADROOM_TERMS as nat),
    ensures
        -(n / 2) <= plain_sum(xs, xs.len()) <= n / 2,
{
    let h = SUM_HEADROOM_TERMS as nat;
    let b = n / (2 * h);
    lemma_sum_bound(xs, b, xs.len());
    lemma_fundamental_div_mod(n as int, (2 * h) as int);
    assert(xs.len() * b <= h * b) by (nonlinear_arith)
        requires
            xs.len() <= h,
    ;
    assert(2 * (h * b) <= n) by (nonlinear_arith)
        requires
            n == (2 * h) * b + n % (2 * h),
            n % (2 * h) >= 0,
    ;
    lemma_fundamental_div_mod(n as int, 2);
}

/// Law (the homomorphic sum decrypts): for a key pair of two distinct
/// primes, a batch of ciphertexts whose plaintexts are within the key's
/// bound, and that the sum accepts, yields a ciphertext that decrypts to
/// the sum of the plaintexts.
pub proof fn law_sum_decrypts(pk: PublicKey, sk: SecretKey, blobs: Seq<Vec<u8>>, xs: Seq<int>)
    requires
        pk.wf(),
        sk.wf(),
        pk.modulus() == sk.prime_p() * sk.prime_q(),
        is_prime(sk.prime_p()),
        is_prime(sk.prime_q()),
        sk.prime_p() != sk.prime_q(),
        xs.len() == blobs.len(),
        blobs.len() <= SUM_HEADROOM_TERMS,
        forall|i: int|
            0 <= i < blobs.len() ==> -(pk.bound() as int) <= #[trigger] xs[i] <= pk.bound(),
        forall|i: int|
            0 <= i < blobs.len() ==> (#[trigger] blob_verdict(blobs[i]@) matches Ok((_, c))
                ==> encrypts(c, xs[i], pk.modulus())),
        sum_state(blobs, pk.modulus_square(), blobs.len() as nat) is Ok,
    ensures
        sk.decryption(sum_state(blobs, pk.modulus_square(), blobs.len() as nat)->Ok_0.1) == Some(
            plain_sum(xs, blobs.len() as nat),
        ),
{
    law_sum_of_ciphertexts(pk, blobs, xs);
    law_headroom(xs, pk.modulus());
    law_decryption_reads_ciphertexts(
        sk,
        sum_state(blobs, pk.modulus_square(), blobs.len() as nat)->Ok_0.1,
        plain_sum(xs, blobs.len() as nat),
    );
}

/// Law (the scalar product decrypts): for a key pair of two distinct
/// primes, the product of a ciphertext of `x` by `k` decrypts to `k·x`
/// when that lies within `n/2`.
pub proof fn law_scalar_product_decrypts(
    pk: PublicKey,
    sk: SecretKey,
    c: nat,
    x: int,
    k: int,
    prod: nat,
)
    requires
        pk.wf(),
        sk.wf(),
        pk.modulus() == sk.prime_p() * sk.prime_q(),
        is_prime(sk.prime_p()),
        is_prime(sk.prime_q()),
        sk.prime_p() != sk.prime_q(),
        encrypts(c, x, pk.modulus()),
        -0x1_0000_0000_0000_0000 < k < 0x1_0000_0000_0000_0000,
        -(pk.modulus() / 2) <= k * x <= pk.modulus() / 2,
        prod < pk.modulus_square(),
        (prod * (power(c, scalar_offset()) % pk.modulus_square())) % pk.modulus_square() == power(
            c,
            (k + scalar_offset()) as nat,
        ) % pk.modulus_square(),
    ensures
        sk.decryption(prod) == Some(k * x),
{
    law_scalar_product(pk, c, x, k, prod);
    law_decryption_reads_ciphertexts(sk, prod, k * x);
}

/// Law: the exponent length is a function of the modulus alone, so the
/// owner of a key and a peer who rebuilt it from `n` draw exponents of
/// the same length.
pub proof fn law_exponent_length_agrees(a: PublicKey, b: PublicKey)
    requires
        a.wf(),
        b.wf(),
        a.modulus() == b.modulus(),
    ensures
        a.exponent_len() == b.exponent_len(),
        a.exponent_len() == exponent_len_for(crate::arith::bit_count(a.modulus())),
{
    a.lemma_wf();
    b.lemma_wf();
}

/// Law: two primes as the safe prime search returns them, at the
/// length of half the modulus floor or more, pass the length, safety and
/// Blum checks of key validation; only the checks that relate the two
/// (the `gcd` and the distance) remain to the draw.
pub proof fn law_searched_primes_pass_the_key_checks(p: nat, q: nat)
    requires
        bit_count(p) >= MIN_MODULUS_BITS / 2,
        bit_count(q) >= MIN_MODULUS_BITS / 2,
        p % 4 == 3,
        q % 4 == 3,
        primality_verdict(half_of(p), PRIMALITY_ROUNDS as nat) != PrimeVerdict::Composite,
        primality_verdict(half_of(q), PRIMALITY_ROUNDS as nat) != PrimeVerdict::Composite,
    ensures
        private_key_verdict(p, q, half_refuted(p), half_refuted(q)) != Err::<(), KeyError>(
            KeyError::ModulusTooShort,
        ),
        private_key_verdict(p, q, half_refuted(p), half_refuted(q)) != Err::<(), KeyError>(
            KeyError::NotSafePrimes,
        ),
        private_key_verdict(p, q, half_refuted(p), half_refuted(q)) != Err::<(), KeyError>(
            KeyError::NotBlum,
        ),
{
}

/// Both squares of two distinct primes divide `d`: so does their product.
proof fn lemma_squares_divide(p: nat, q: nat, d: int)
    requires
        is_prime(p),
        is_prime(q),
        p != q,
        d % ((p * p) as int) == 0,
        d % ((q * q) as int) == 0,
    ensures
        d % ((p * p * (q * q)) as int) == 0,
{
    let pp = p * p;
    assert(pp > 0 && q * q > 0 && pp * (q * q) > 0) by (nonlinear_arith)
        requires
            p > 1,
            q > 1,
            pp == p * p,
    ;
    crate::number::lemma_distinct_primes(p, q);
    assert(pp % q != 0) by {
        if pp % q == 0 {
            crate::number::lemma_euclid(q, p, p as int);
        }
    }
    lemma_fundamental_div_mod(d, pp as int);
    let s = d / (pp as int);
    assert(d == pp * s);
    // q² | pp·s, and q divides neither factor of pp: q | s, then q | s / q.
    lemma_fundamental_div_mod(d, (q * q) as int);
    let t = d / ((q * q) as int);
    assert(pp * s == q * (q * t)) by (nonlinear_arith)
        requires
            d == pp * s,
            d == (q * q) * t,
    ;
    lemma_mod_multiples_basic(q * t, q as int);
    assert(q * (q * t) == (q * t) * q) by (nonlinear_arith);
    crate::number::lemma_euclid(q, pp, s);
    lemma_fundamental_div_mod(s, q as int);
    let s1 = s / (q as int);
    assert(pp * s1 * q == q * (q * t)) by (nonlinear_arith)
        requires
            pp * s == q * (q * t),
            s == q * s1,
    ;
    assert(pp * s1 == q * t) by (nonlinear_arith)
        requires
            pp * s1 * q == q * (q * t),
            q > 0,
    ;
    lemma_mod_multiples_basic(t, q as int);
    assert(q * t == t * q) by (nonlinear_arith);
    crate::number::lemma_euclid(q, pp, s1);
    lemma_fundamental_div_mod(s1, q as int);
    let s2 = s1 / (q as int);
    assert(d == (pp * (q * q)) * s2) by (nonlinear_arith)
        requires
            d == pp * s,
            s == q * s1,
            s1 == q * s2,
    ;
    lemma_mod_multiples_basic(s2, (pp * (q * q)) as int);
    assert((pp * (q * q)) * s2 == s2 * (pp * (q * q))) by (nonlinear_arith);
}

/// `(h^m)^(p(p−1)) ≡ 1 (mod p²)` for `h` coprime with `n = p·q`.
proof fn lemma_vanishes_mod_square(h: nat, p: nat, q: nat, m: nat)
    requires
        is_prime(p),
        q > 0,
        gcd(h, p * q) == 1,
    ensures
        power(h, m * (p * ((p - 1) as nat))) % (p * p) == 1,
{
    lemma_coprime_factor(h, p, q);
    lemma_prime_not_dividing_power(p, h, m);
    lemma_euler_square(power(h, m), p);
    lemma_power_multiplies(h, m, p * ((p - 1) as nat));
}

/// Law: the fixed base of an honest key vanishes at `λ = (p−1)(q−1)/2`:
/// `hs^λ ≡ 1 (mod n²)`, so its order divides `λ` (for safe primes,
/// `2·p′·q′`) and every mask `hs^r` is an `n`-th residue that decryption
/// removes.
pub proof fn law_randomizer_vanishes_at_lambda(p: nat, q: nat, hs: nat)
    requires
        is_prime(p),
        is_prime(q),
        p != q,
        p % 2 == 1,
        q % 2 == 1,
        crate::scheme::derived_hs(hs, p * q),
    ensures
        power(hs, (((p - 1) as nat) * ((q - 1) as nat) / 2) as nat) % (p * q * (p * q)) == 1,
{
    let n = p * q;
    let nn = n * n;
    assert(n > 1 && nn == p * p * (q * q) && nn > 0 && p * p > 0 && q * q > 0)
        by (nonlinear_arith)
        requires
            n == p * q,
            nn == n * n,
            p > 1,
            q > 1,
    ;
    let x0 = choose|x0: nat|
        #[trigger] crate::keys::usable_x(x0, n) && hs == crate::scheme::hs_of(x0, n)
            && !crate::keys::degenerate_hs(hs, n * n);
    let h = crate::keys::h_of(x0, n);
    lemma_h_coprime(x0, n);
    let pm = (p - 1) as nat;
    let qm = (q - 1) as nat;
    lemma_fundamental_div_mod(pm as int, 2);
    lemma_fundamental_div_mod(qm as int, 2);
    let ph = pm / 2;
    let qh = qm / 2;
    let lambda = (pm * qm / 2) as nat;
    assert(lambda == pm * qh) by (nonlinear_arith)
        requires
            qm == 2 * qh,
            lambda == pm * qm / 2,
    ;
    assert(lambda == qm * ph) by (nonlinear_arith)
        requires
            pm == 2 * ph,
            qm == 2 * qh,
            lambda == pm * qh,
    ;
    // hs^λ ≡ h^(n λ), and n λ is a multiple of p(p−1) and of q(q−1).
    lemma_power_mod_noop(power(h, n), lambda, nn);
    lemma_power_multiplies(h, n, lambda);
    let e = n * lambda;
    assert(e == (q * qh) * (p * pm)) by (nonlinear_arith)
        requires
            e == n * lambda,
            n == p * q,
            lambda == pm * qh,
    ;
    assert(e == (p * ph) * (q * qm)) by (nonlinear_arith)
        requires
            e == n * lambda,
            n == p * q,
            lambda == qm * ph,
    ;
    lemma_vanishes_mod_square(h, p, q, q * qh);
    assert(n == q * p) by (nonlinear_arith)
        requires
            n == p * q,
    ;
    lemma_vanishes_mod_square(h, q, p, p * ph);
    let big = power(h, e);
    lemma_fundamental_div_mod(big as int, (p * p) as int);
    lemma_fundamental_div_mod(big as int, (q * q) as int);
    let d = big - 1;
    assert(d == (p * p) * (big as int / ((p * p) as int)));
    assert(d == (q * q) * (big as int / ((q * q) as int)));
    lemma_mod_multiples_basic(big as int / ((p * p) as int), (p * p) as int);
    lemma_mod_multiples_basic(big as int / ((q * q) as int), (q * q) as int);
    assert((p * p) * (big as int / ((p * p) as int)) == (big as int / ((p * p) as int)) * (p * p))
        by (nonlinear_arith);
    assert((q * q) * (big as int / ((q * q) as int)) == (big as int / ((q * q) as int)) * (q * q))
        by (nonlinear_arith);
    lemma_squares_divide(p, q, d);
    lemma_fundamental_div_mod(d, nn as int);
    lemma_mod_multiples_vanish(d / (nn as int), 1, nn as int);
    lemma_small_mod(1, nn);
    assert(big == nn * (d / (nn as int)) + 1);
}

/// Law: a ciphertext body is written at minimal length, and there is
/// exactly one such encoding of each value: two minimal bodies of one
/// value are the same bytes. With the scale byte in front, a blob is
/// thus fixed byte for byte by its scale and its value.
pub proof fn law_minimal_body_is_unique(a: Seq<u8>, b: Seq<u8>)
    requires
        minimal_bytes(a),
        minimal_bytes(b),
        bytes_value(a) == bytes_value(b),
    ensures
        a == b,
{
    lemma_minimal_bytes_unique(a, b);
}

/// Law: the sum of a single term is that term: when the one blob is a
/// valid ciphertext written at minimal length, any blob with its scale
/// and a minimal body of the running sum is the input itself, byte for
/// byte.
pub proof fn law_sum_of_one_term_is_the_term(blobs: Seq<Vec<u8>>, nn: nat, out: Seq<u8>)
    requires
        blobs.len() == 1,
        blobs[0]@.len() >= 1,
        minimal_bytes(blobs[0]@.skip(1)),
        sum_state(blobs, nn, 1) is Ok,
        out.len() >= 1,
        out[0] == blobs[0]@[0],
        minimal_bytes(out.skip(1)),
        bytes_value(out.skip(1)) == sum_state(blobs, nn, 1).unwrap().1,
    ensures
        out == blobs[0]@,
{
    let c = bytes_value(blobs[0]@.skip(1));
    assert(sum_state(blobs, nn, 0) == Ok::<(Option<u8>, nat), SchemeError>((None, 1)));
    assert(blob_verdict(blobs[0]@) == Ok::<(u8, nat), BlobError>((blobs[0]@[0], c)));
    assert(sum_state(blobs, nn, 1).unwrap().1 == (1 * c) % nn);
    assert(1 * c == c);
    vstd::arithmetic::div_mod::lemma_small_mod(c, nn);
    lemma_minimal_bytes_unique(out.skip(1), blobs[0]@.skip(1));
    assert(out =~= seq![out[0]] + out.skip(1));
    assert(blobs[0]@ =~= seq![blobs[0]@[0]] + blobs[0]@.skip(1));
}

/// `gcd` does not depend on the order of its arguments.
pub proof fn lemma_gcd_commutes(a: nat, b: nat)
    ensures
        gcd(a, b) == gcd(b, a),
{
    if a < b {
        vstd::arithmetic::div_mod::lemma_small_mod(a, b);
        assert(gcd(a, b) == gcd(b, a % b));
    } else if b < a {
        vstd::arithmetic::div_mod::lemma_small_mod(b, a);
        assert(gcd(b, a) == gcd(a, b % a));
    }
}

/// `|a − b|`, written out.
pub open spec fn gap(a: nat, b: nat) -> nat {
    (if a >= b {
        a - b
    } else {
        b - a
    }) as nat
}

/// Law: the verdict on our own key does not depend on the order in
/// which its two primes are given.
pub proof fn law_private_verdict_symmetric(p: nat, q: nat, p_bad: bool, q_bad: bool)
    ensures
        private_key_verdict(p, q, p_bad, q_bad) == private_key_verdict(q, p, q_bad, p_bad),
{
    lemma_gcd_commutes((p - 1) as nat, (q - 1) as nat);
    assert(crate::keys::distance(p, q) == crate::keys::distance(q, p));
}

/// Law: an accepted key has two safe primes by the test, each of at
/// least half the modulus floor in bits, both `3 mod 4`, with
/// `gcd(p − 1, q − 1) = 2`, and `|p − q|` at most `PQ_DIFFERENCE_SLACK_BITS`
/// bits shorter than the longer prime.
pub proof fn law_accepted_key_shape(p: nat, q: nat, p_bad: bool, q_bad: bool)
    requires
        private_key_verdict(p, q, p_bad, q_bad) is Ok,
    ensures
        !p_bad,
        !q_bad,
        bit_count(p) >= MIN_MODULUS_BITS / 2,
        bit_count(q) >= MIN_MODULUS_BITS / 2,
        p % 4 == 3,
        q % 4 == 3,
        gcd((p - 1) as nat, (q - 1) as nat) == 2,
        bit_count(gap(p, q)) + PQ_DIFFERENCE_SLACK_BITS >= bit_count(p),
        bit_count(gap(p, q)) + PQ_DIFFERENCE_SLACK_BITS >= bit_count(q),
{
    assert(crate::keys::distance(p, q) == gap(p, q));
}

/// Law: primes that pass every other check but lie closer together than
/// `PQ_DIFFERENCE_SLACK_BITS` bits below the longer one are refused as
/// too close, whichever is the larger.
pub proof fn law_close_primes_refused(p: nat, q: nat)
    requires
        !half_refuted(p),
        !half_refuted(q),
        bit_count(p) >= MIN_MODULUS_BITS / 2,
        bit_count(q) >= MIN_MODULUS_BITS / 2,
        p % 4 == 3,
        q % 4 == 3,
        gcd((p - 1) as nat, (q - 1) as nat) == 2,
        bit_count(gap(p, q)) + PQ_DIFFERENCE_SLACK_BITS < bit_count(p) || bit_count(gap(p, q))
            + PQ_DIFFERENCE_SLACK_BITS < bit_count(q),
    ensures
        private_key_verdict(p, q, half_refuted(p), half_refuted(q)) == Err::<(), KeyError>(
            KeyError::PrimesTooClose,
        ),
{
    assert(crate::keys::distance(p, q) == gap(p, q));
}

/// A running sum that has taken terms has a scale; one that has taken
/// none has not.
proof fn lemma_sum_scale_present(blobs: Seq<Vec<u8>>, nn: nat, k: nat)
    requires
        k <= blobs.len(),
        sum_state(blobs, nn, k) is Ok,
    ensures
        sum_state(blobs, nn, k).unwrap().0 is Some <==> k > 0,
        forall|i: int|
            0 <= i < k ==> (#[trigger] blobs[i])@.len() >= 1 && blobs[i]@[0]
                == sum_state(blobs, nn, k).unwrap().0.unwrap(),
    decreases k,
{
    if k > 0 {
        let k1 = (k - 1) as nat;
        assert(sum_state(blobs, nn, k1) is Ok);
        lemma_sum_scale_present(blobs, nn, k1);
    }
}

/// Law: every term of a sum that is accepted carries one scale byte, the
/// scale of the sum.
pub proof fn law_sum_has_one_scale(blobs: Seq<Vec<u8>>, nn: nat, k: nat, i: int)
    requires
        1 <= k <= blobs.len(),
        sum_state(blobs, nn, k) is Ok,
        0 <= i < k,
    ensures
        sum_state(blobs, nn, k).unwrap().0 is Some,
        blobs[i]@.len() >= 1,
        blobs[i]@[0] == sum_state(blobs, nn, k).unwrap().0.unwrap(),
{
    lemma_sum_scale_present(blobs, nn, k);
    assert(0 <= i < k);
}

/// Law: a batch in which two terms carry different scale bytes is
/// refused.
pub proof fn law_mixed_scales_refused(blobs: Seq<Vec<u8>>, nn: nat, k: nat, i: int, j: int)
    requires
        k <= blobs.len(),
        0 <= i < k,
        0 <= j < k,
        blobs[i]@.len() >= 1,
        blobs[j]@.len() >= 1,
        blobs[i]@[0] != blobs[j]@[0],
    ensures
        sum_state(blobs, nn, k) is Err,
{
    if sum_state(blobs, nn, k) is Ok {
        law_sum_has_one_scale(blobs, nn, k, i);
        law_sum_has_one_scale(blobs, nn, k, j);
    }
}

/// Law: with no scale given for the scalar, the scalar takes the
/// ciphertext's own scale, so the product lands at twice it; a valid
/// term whose doubled scale fits is accepted at exactly that.
pub proof fn law_default_scalar_scale(blob: Seq<u8>, index: usize, nn: nat)
    ensures
        product_plan(blob, index, nn, None) matches Ok((e, s, _)) ==> blob.len() >= 1 && e
            == blob[0] && s == blob[0],
        term_verdict(blob, index, nn) is Ok && 2 * blob[0] <= MAX_SCALE_POW10 ==> product_plan(
            blob,
            index,
            nn,
            None,
        ) == Ok::<(u8, u8, nat), SchemeError>((blob[0], blob[0], bytes_value(blob.skip(1)))),
        term_verdict(blob, index, nn) is Ok && 2 * blob[0] > MAX_SCALE_POW10 ==> product_plan(
            blob,
            index,
            nn,
            None,
        ) == Err::<(u8, u8, nat), SchemeError>(
            SchemeError::ProductScale(index, (2 * blob[0]) as u32),
        ),
{
}

} // verus!
