//! Elementary number theory behind the scheme: the greatest common
//! divisor and Bézout's identity, Euclid's lemma, the binomial theorem,
//! Fermat's little theorem and its lift to prime squares, and the
//! uniqueness half of the Chinese remainder theorem.

use vstd::prelude::*;
use vstd::arithmetic::div_mod::*;
use crate::arith::{gcd, is_prime, power};

verus! {

/// `gcd(a, b)` divides both, and is zero only for two zeros.
pub proof fn lemma_gcd_divides(a: nat, b: nat)
    ensures
        gcd(a, b) == 0 ==> a == 0 && b == 0,
        gcd(a, b) > 0 ==> a % gcd(a, b) == 0 && b % gcd(a, b) == 0,
    decreases b,
{
    if b > 0 {
        let r = a % b;
        lemma_gcd_divides(b, r);
        let g = gcd(a, b);
        lemma_mod_bound(a as int, b as int);
        if g > 0 {
            lemma_fundamental_div_mod(a as int, b as int);
            lemma_fundamental_div_mod(b as int, g as int);
            lemma_fundamental_div_mod(r as int, g as int);
            let s = b / g;
            let t = r / g;
            let k = a / b;
            assert(a == g * (s * k + t)) by (nonlinear_arith)
                requires
                    a == b * k + r,
                    b == g * s,
                    r == g * t,
            ;
            lemma_mod_multiples_basic((s * k + t) as int, g as int);
            assert(g * (s * k + t) == (s * k + t) * g) by (nonlinear_arith);
        }
    }
}

/// Bézout's identity: coefficients `u`, `v` with `u·a + v·b = gcd(a, b)`.
pub proof fn bezout(a: nat, b: nat) -> (uv: (int, int))
    ensures
        uv.0 * a + uv.1 * b == gcd(a, b),
    decreases b,
{
    if b == 0 {
        (1, 0)
    } else {
        let r = a % b;
        lemma_mod_bound(a as int, b as int);
        let (u, v) = bezout(b, r);
        lemma_fundamental_div_mod(a as int, b as int);
        let k = a / b;
        assert(v * a + (u - v * k) * b == u * b + v * r) by (nonlinear_arith)
            requires
                a == b * k + r,
        ;
        (v, u - v * k)
    }
}

/// A combination equal to one makes two numbers coprime.
pub proof fn lemma_coprime_by_combination(a: nat, b: nat, u: int, v: int)
    requires
        u * a + v * b == 1,
    ensures
        gcd(a, b) == 1,
{
    lemma_gcd_divides(a, b);
    let g = gcd(a, b);
    if g == 0 {
        assert(u * a + v * b == 0) by (nonlinear_arith)
            requires
                a == 0,
                b == 0,
        ;
    } else {
        lemma_fundamental_div_mod(a as int, g as int);
        lemma_fundamental_div_mod(b as int, g as int);
        let s = a / g;
        let t = b / g;
        let w = u * s + v * t;
        assert(g * w == 1) by (nonlinear_arith)
            requires
                u * a + v * b == 1,
                a == g * s,
                b == g * t,
                w == u * s + v * t,
        ;
        assert(g == 1) by (nonlinear_arith)
            requires
                g * w == 1,
                g > 0,
        ;
    }
}

/// A number with an inverse modulo `m` is coprime with `m`.
pub proof fn lemma_coprime_by_inverse(a: nat, b: nat, m: nat)
    requires
        m > 1,
        (a * b) % m == 1,
    ensures
        gcd(a, m) == 1,
{
    lemma_fundamental_div_mod((a * b) as int, m as int);
    let k = ((a * b) as int) / (m as int);
    assert(b * a + (-k) * m == 1) by (nonlinear_arith)
        requires
            a * b == m * k + 1,
    ;
    lemma_coprime_by_combination(a, m, b as int, -k);
}

/// A number coprime with `m > 1` has an inverse modulo `m`, below `m`.
pub proof fn inverse_mod(a: nat, m: nat) -> (b: nat)
    requires
        m > 1,
        gcd(a, m) == 1,
    ensures
        (a * b) % m == 1,
        b < m,
{
    let (u, v) = bezout(a, m);
    let b = (u % (m as int)) as nat;
    lemma_mod_bound(u, m as int);
    lemma_fundamental_div_mod(u, m as int);
    let k = u / (m as int);
    assert(a * b == 1 + m * (-v - a * k)) by (nonlinear_arith)
        requires
            u * a + v * m == 1,
            u == m * k + b,
    ;
    lemma_mod_multiples_vanish(-v - a * k, 1, m as int);
    lemma_small_mod(1, m);
    b
}

/// The divisors of a prime `p` that reach `p` are `p` itself.
proof fn lemma_prime_divisor(p: nat, g: nat)
    requires
        is_prime(p),
        g > 1,
        p % g == 0,
    ensures
        g == p,
{
    lemma_fundamental_div_mod(p as int, g as int);
    let k = p / g;
    assert(k >= 1) by (nonlinear_arith)
        requires
            p == g * k,
            p > 1,
            g > 1,
    ;
    assert(g <= p) by (nonlinear_arith)
        requires
            p == g * k,
            k >= 1,
            g > 1,
    ;
    if g < p {
        assert(p % g != 0);
    }
}

/// A prime that does not divide `a` is coprime with it.
pub proof fn lemma_prime_coprime(p: nat, a: nat)
    requires
        is_prime(p),
        a % p != 0,
    ensures
        gcd(a, p) == 1,
{
    lemma_gcd_divides(a, p);
    let g = gcd(a, p);
    if g != 1 {
        assert(g > 0);
        lemma_prime_divisor(p, g);
    }
}

/// Euclid's lemma: a prime dividing a product divides a factor.
pub proof fn lemma_euclid(p: nat, a: nat, b: int)
    requires
        is_prime(p),
        (a * b) % (p as int) == 0,
        a % p != 0,
    ensures
        b % (p as int) == 0,
{
    lemma_prime_coprime(p, a);
    let (u, v) = bezout(a, p);
    lemma_fundamental_div_mod(a * b, p as int);
    let w = (a * b) / (p as int);
    assert(b == p * (u * w + v * b)) by (nonlinear_arith)
        requires
            u * a + v * p == 1,
            a * b == p * w,
    ;
    lemma_mod_multiples_basic(u * w + v * b, p as int);
    assert(p * (u * w + v * b) == (u * w + v * b) * p) by (nonlinear_arith);
}

/// A prime that divides no factor does not divide a power.
pub proof fn lemma_prime_not_dividing_power(p: nat, a: nat, e: nat)
    requires
        is_prime(p),
        a % p != 0,
    ensures
        power(a, e) % p != 0,
    decreases e,
{
    if e == 0 {
        lemma_small_mod(1, p);
    } else {
        lemma_prime_not_dividing_power(p, a, (e - 1) as nat);
        if power(a, e) % p == 0 {
            lemma_euclid(p, a, power(a, (e - 1) as nat) as int);
        }
    }
}

/// Two different primes: neither divides the other.
pub proof fn lemma_distinct_primes(p: nat, q: nat)
    requires
        is_prime(p),
        is_prime(q),
        p != q,
    ensures
        p % q != 0,
{
    if p % q == 0 {
        lemma_prime_divisor(p, q);
    }
}

/// The uniqueness half of the Chinese remainder theorem: a number below
/// `p·q` in magnitude that both primes divide is zero.
pub proof fn lemma_crt_unique(p: nat, q: nat, d: int)
    requires
        is_prime(p),
        is_prime(q),
        p != q,
        d % (p as int) == 0,
        d % (q as int) == 0,
        -((p * q) as int) < d < (p * q) as int,
    ensures
        d == 0,
{
    lemma_fundamental_div_mod(d, p as int);
    let s = d / (p as int);
    assert(d == p * s);
    lemma_distinct_primes(p, q);
    assert((p * s) % (q as int) == 0);
    lemma_euclid(q, p, s);
    lemma_fundamental_div_mod(s, q as int);
    let t = s / (q as int);
    assert(d == (p * q) * t) by (nonlinear_arith)
        requires
            d == p * s,
            s == q * t,
    ;
    assert(t == 0) by (nonlinear_arith)
        requires
            d == (p * q) * t,
            -((p * q) as int) < d < (p * q) as int,
            p * q > 0,
    ;
}

/// The binomial coefficient, by Pascal's rule.
pub open spec fn binomial(n: nat, k: nat) -> nat
    decreases n,
{
    if k == 0 {
        1
    } else if n == 0 {
        0
    } else {
        binomial((n - 1) as nat, (k - 1) as nat) + binomial((n - 1) as nat, k)
    }
}

/// `Σ_{i < j} C(n, i)·a^i`.
pub open spec fn binomial_sum(a: nat, n: nat, j: nat) -> nat
    decreases j,
{
    if j == 0 {
        0
    } else {
        binomial_sum(a, n, (j - 1) as nat) + binomial(n, (j - 1) as nat) * power(a, (j - 1) as nat)
    }
}

proof fn lemma_binomial_above(n: nat, k: nat)
    requires
        k > n,
    ensures
        binomial(n, k) == 0,
    decreases n,
{
    if n > 0 {
        lemma_binomial_above((n - 1) as nat, (k - 1) as nat);
        lemma_binomial_above((n - 1) as nat, k);
    }
}

proof fn lemma_binomial_diagonal(n: nat)
    ensures
        binomial(n, n) == 1,
    decreases n,
{
    if n > 0 {
        lemma_binomial_diagonal((n - 1) as nat);
        lemma_binomial_above((n - 1) as nat, n);
    }
}

/// Absorption: `k·C(n, k) = n·C(n − 1, k − 1)`.
proof fn lemma_binomial_absorption(n: nat, k: nat)
    requires
        n >= 1,
        k >= 1,
    ensures
        k * binomial(n, k) == n * binomial((n - 1) as nat, (k - 1) as nat),
    decreases n,
{
    if n == 1 {
        assert(binomial(1, k) == binomial(0, (k - 1) as nat) + binomial(0, k));
        if k > 1 {
            lemma_binomial_above(0, (k - 1) as nat);
            lemma_binomial_above(0, k);
            let b = binomial(n, k);
            let c = binomial((n - 1) as nat, (k - 1) as nat);
            assert(k * b == n * c) by (nonlinear_arith)
                requires
                    b == 0,
                    c == 0,
            ;
        } else {
            assert(binomial(0, 0) == 1);
            assert(binomial(0, 1) == 0);
            assert(binomial(1, 1) == 1);
        }
    } else if k == 1 {
        lemma_binomial_absorption((n - 1) as nat, 1);
        assert(binomial(n, 1) == binomial((n - 1) as nat, 0) + binomial((n - 1) as nat, 1));
        assert(binomial((n - 2) as nat, 0) == 1);
        assert(binomial((n - 1) as nat, 0) == 1);
        assert(binomial((n - 1) as nat, 1) == n - 1) by (nonlinear_arith)
            requires
                1 * binomial((n - 1) as nat, 1) == (n - 1) * binomial((n - 2) as nat, 0),
                binomial((n - 2) as nat, 0) == 1,
        ;
        assert(binomial(n, 1) == n);
    } else {
        lemma_binomial_absorption((n - 1) as nat, (k - 1) as nat);
        lemma_binomial_absorption((n - 1) as nat, k);
        let a = binomial((n - 1) as nat, (k - 1) as nat);
        let b = binomial((n - 1) as nat, k);
        let c = binomial((n - 2) as nat, (k - 2) as nat);
        let d = binomial((n - 2) as nat, (k - 1) as nat);
        assert(binomial(n, k) == a + b);
        assert(a == c + d);
        assert(k * (a + b) == n * a) by (nonlinear_arith)
            requires
                (k - 1) * a == (n - 1) * c,
                k * b == (n - 1) * d,
                a == c + d,
        ;
    }
}

/// A prime divides every inner binomial coefficient of its row.
proof fn lemma_prime_divides_binomial(p: nat, k: nat)
    requires
        is_prime(p),
        0 < k < p,
    ensures
        binomial(p, k) % p == 0,
{
    lemma_binomial_absorption(p, k);
    let c = binomial((p - 1) as nat, (k - 1) as nat);
    lemma_mod_multiples_basic(c as int, p as int);
    assert(p * c == c * p) by (nonlinear_arith);
    lemma_small_mod(k, p);
    lemma_euclid(p, k, binomial(p, k) as int);
}

/// Pascal's rule on partial sums.
proof fn lemma_binomial_sum_step(a: nat, n: nat, j: nat)
    ensures
        binomial_sum(a, n + 1, j + 1) == a * binomial_sum(a, n, j) + binomial_sum(a, n, j + 1),
    decreases j,
{
    if j == 0 {
        assert(binomial_sum(a, n + 1, 1) == binomial_sum(a, n + 1, 0) + binomial(n + 1, 0) * power(
            a,
            0,
        ));
        assert(binomial_sum(a, n, 1) == binomial_sum(a, n, 0) + binomial(n, 0) * power(a, 0));
    } else {
        lemma_binomial_sum_step(a, n, (j - 1) as nat);
        let jm = (j - 1) as nat;
        let s0 = binomial_sum(a, n, jm);
        let s1 = binomial_sum(a, n, j);
        let b0 = binomial(n, jm);
        let b1 = binomial(n, j);
        assert(binomial(n + 1, j) == b0 + b1);
        assert(power(a, j) == a * power(a, jm));
        assert(s1 == s0 + b0 * power(a, jm));
        assert(binomial_sum(a, n, j + 1) == s1 + b1 * power(a, j));
        assert(binomial_sum(a, n + 1, j + 1) == binomial_sum(a, n + 1, j) + (b0 + b1) * power(a, j));
        assert(binomial_sum(a, n + 1, j) == a * s0 + s1);
        assert(a * s0 + s1 + (b0 + b1) * (a * power(a, jm)) == a * (s0 + b0 * power(a, jm)) + (s1
            + b1 * (a * power(a, jm)))) by (nonlinear_arith);
    }
}

/// The binomial theorem for `(a + 1)^n`.
pub proof fn lemma_binomial_theorem(a: nat, n: nat)
    ensures
        power(a + 1, n) == binomial_sum(a, n, n + 1),
    decreases n,
{
    if n == 0 {
        assert(binomial_sum(a, 0, 1) == binomial_sum(a, 0, 0) + binomial(0, 0) * power(a, 0));
        assert(binomial(0, 0) * power(a, 0) == 1) by (nonlinear_arith)
            requires
                binomial(0, 0) == 1,
                power(a, 0) == 1,
        ;
        assert(power(a + 1, 0) == 1);
    } else {
        let m = (n - 1) as nat;
        assert(m + 1 == n);
        lemma_binomial_theorem(a, m);
        lemma_binomial_sum_step(a, m, n);
        lemma_binomial_above(m, n);
        assert(binomial_sum(a, m, n + 1) == binomial_sum(a, m, n) + binomial(m, n) * power(a, n));
        assert(binomial(m, n) * power(a, n) == 0) by (nonlinear_arith)
            requires
                binomial(m, n) == 0,
        ;
        assert(power(a + 1, n) == (a + 1) * power(a + 1, m));
        assert((a + 1) * binomial_sum(a, m, n) == a * binomial_sum(a, m, n) + binomial_sum(a, m, n))
            by (nonlinear_arith);
    }
}

/// Modulo a prime, the inner terms of the row vanish.
proof fn lemma_binomial_sum_mod_prime(a: nat, p: nat, j: nat)
    requires
        is_prime(p),
        1 <= j <= p,
    ensures
        binomial_sum(a, p, j) % p == 1,
    decreases j,
{
    if j == 1 {
        assert(binomial_sum(a, p, 1) == binomial_sum(a, p, 0) + binomial(p, 0) * power(a, 0));
        assert(power(a, 0) == 1);
        assert(binomial(p, 0) == 1);
        assert(binomial(p, 0) * power(a, 0) == 1) by (nonlinear_arith)
            requires
                binomial(p, 0) == 1,
                power(a, 0) == 1,
        ;
        assert(binomial_sum(a, p, 1) == 1);
        lemma_small_mod(1, p);
    } else {
        let jm = (j - 1) as nat;
        lemma_binomial_sum_mod_prime(a, p, jm);
        lemma_prime_divides_binomial(p, jm);
        let c = binomial(p, jm);
        lemma_fundamental_div_mod(c as int, p as int);
        let w = c / p;
        let prev = binomial_sum(a, p, jm);
        assert(binomial_sum(a, p, j) == prev + c * power(a, jm));
        assert(binomial_sum(a, p, j) == p * (w * power(a, jm)) + prev) by (nonlinear_arith)
            requires
                binomial_sum(a, p, j) == prev + c * power(a, jm),
                c == p * w,
        ;
        lemma_mod_multiples_vanish((w * power(a, jm)) as int, prev as int, p as int);
    }
}

/// `(a + 1)^p ≡ a^p + 1 (mod p)`.
proof fn lemma_freshman(a: nat, p: nat)
    requires
        is_prime(p),
    ensures
        power(a + 1, p) % p == (power(a, p) + 1) % p,
{
    lemma_binomial_theorem(a, p);
    lemma_binomial_diagonal(p);
    lemma_binomial_sum_mod_prime(a, p, p);
    let s = binomial_sum(a, p, p);
    assert(binomial_sum(a, p, p + 1) == s + binomial(p, p) * power(a, p));
    lemma_fundamental_div_mod(s as int, p as int);
    let w = s / p;
    assert(s + power(a, p) == p * w + (power(a, p) + 1));
    lemma_mod_multiples_vanish(w as int, (power(a, p) + 1) as int, p as int);
}

/// `a^p ≡ a (mod p)` for every `a`.
proof fn lemma_fermat_all(a: nat, p: nat)
    requires
        is_prime(p),
    ensures
        power(a, p) % p == a % p,
    decreases a,
{
    if a == 0 {
        assert(power(0, p) == 0 * power(0, (p - 1) as nat));
    } else {
        let b = (a - 1) as nat;
        lemma_fermat_all(b, p);
        lemma_freshman(b, p);
        lemma_add_mod_noop(power(b, p) as int, 1, p as int);
        lemma_add_mod_noop(b as int, 1, p as int);
    }
}

/// Fermat's little theorem: `a^(p−1) ≡ 1 (mod p)` for `p ∤ a`.
pub proof fn lemma_fermat(a: nat, p: nat)
    requires
        is_prime(p),
        a % p != 0,
    ensures
        power(a, (p - 1) as nat) % p == 1,
{
    lemma_fermat_all(a, p);
    let f = power(a, (p - 1) as nat);
    assert(power(a, p) == a * f);
    lemma_fundamental_div_mod((a * f) as int, p as int);
    lemma_fundamental_div_mod(a as int, p as int);
    let s = (a * f) / p;
    let t = a / p;
    assert(a * (f - 1) == p * (s - t)) by (nonlinear_arith)
        requires
            a * f == p * s + (a * f) % p,
            a == p * t + a % p,
            (a * f) % p == a % p,
    ;
    lemma_mod_multiples_basic(s - t, p as int);
    assert(p * (s - t) == (s - t) * p) by (nonlinear_arith);
    lemma_euclid(p, a, f - 1);
    lemma_mod_add_multiples_vanish(f - 1, p as int);
    lemma_fundamental_div_mod(f - 1, p as int);
    lemma_mod_multiples_vanish((f - 1) / (p as int), 1, p as int);
    lemma_small_mod(1, p);
}

/// `(1 + c·m)^k ≡ 1 + k·c·m (mod m²)`.
pub proof fn lemma_lift(c: nat, m: nat, k: nat)
    requires
        m > 0,
    ensures
        power(1 + c * m, k) % (m * m) == (1 + k * c * m) % (m * m),
    decreases k,
{
    let mm = m * m;
    assert(mm > 0) by (nonlinear_arith)
        requires
            m > 0,
            mm == m * m,
    ;
    if k == 0 {
        assert(power(1 + c * m, 0) == 1);
        assert(1 + k * c * m == 1) by (nonlinear_arith)
            requires
                k == 0,
        ;
    } else {
        let j = (k - 1) as nat;
        lemma_lift(c, m, j);
        let prev = power(1 + c * m, j);
        lemma_fundamental_div_mod(prev as int, mm as int);
        lemma_fundamental_div_mod((1 + j * c * m) as int, mm as int);
        let s = prev as int / (mm as int);
        let t = (1 + j * c * m) as int / (mm as int);
        // prev = 1 + j c m + mm (s − t)
        assert(prev == 1 + j * c * m + mm * (s - t)) by (nonlinear_arith)
            requires
                prev == mm * s + prev % mm,
                1 + j * c * m == mm * t + (1 + j * c * m) % mm,
                prev % mm == (1 + j * c * m) % mm,
        ;
        assert(power(1 + c * m, k) == (1 + c * m) * prev);
        assert((1 + c * m) * prev == (1 + k * c * m) + mm * (j * c * c + (1 + c * m) * (s - t)))
            by (nonlinear_arith)
            requires
                prev == 1 + j * c * m + mm * (s - t),
                mm == m * m,
                k == j + 1,
        ;
        lemma_mod_multiples_vanish(
            j * c * c + (1 + c * m) * (s - t),
            (1 + k * c * m) as int,
            mm as int,
        );
    }
}

/// Euler's theorem for a prime square: `y^(p(p−1)) ≡ 1 (mod p²)` for
/// `p ∤ y`.
pub proof fn lemma_euler_square(y: nat, p: nat)
    requires
        is_prime(p),
        y % p != 0,
    ensures
        power(y, p * ((p - 1) as nat)) % (p * p) == 1,
{
    lemma_fermat(y, p);
    let f = power(y, (p - 1) as nat);
    lemma_fundamental_div_mod(f as int, p as int);
    let t = f / p;
    assert(f == 1 + t * p);
    lemma_lift(t, p, p);
    crate::arith::lemma_power_multiplies(y, (p - 1) as nat, p);
    assert(((p - 1) as nat) * p == p * ((p - 1) as nat)) by (nonlinear_arith);
    assert(1 + p * t * p == 1 + (p * p) * t) by (nonlinear_arith);
    assert(p * p > 1) by (nonlinear_arith)
        requires
            p > 1,
    ;
    lemma_mod_multiples_vanish(t as int, 1, (p * p) as int);
    lemma_small_mod(1, p * p);
}

} // verus!
