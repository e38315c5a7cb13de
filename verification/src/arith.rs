//! Modular arithmetic on natural numbers: powers, the greatest common
//! divisor, primality, and the inverse of a Montgomery radix.

use vstd::prelude::*;
use vstd::arithmetic::power::*;
use vstd::arithmetic::power2::*;
use vstd::arithmetic::div_mod::*;
use vstd::arithmetic::mul::*;
use crate::limbs::radix;

verus! {

/// `b^e` over the naturals.
pub open spec fn power(b: nat, e: nat) -> nat
    decreases e,
{
    if e == 0 {
        1
    } else {
        b * power(b, (e - 1) as nat)
    }
}

/// The greatest common divisor, by Euclid's recursion; `gcd(a, 0) = a`.
pub open spec fn gcd(a: nat, b: nat) -> nat
    decreases b,
{
    if b == 0 {
        a
    } else {
        gcd(b, a % b)
    }
}

/// `p` is prime: above one, with no divisor strictly between one and
/// itself.
pub open spec fn is_prime(p: nat) -> bool {
    p > 1 && forall|d: nat| 1 < d < p ==> #[trigger] (p % d) != 0
}

/// The number of significant bits of `x` (zero for zero).
pub open spec fn bit_count(x: nat) -> nat
    decreases x,
{
    if x == 0 {
        0
    } else {
        1 + bit_count(x / 2)
    }
}

/// The inverse of two modulo an odd `n`.
pub open spec fn half_inverse(n: nat) -> nat {
    (n + 1) / 2
}

/// The inverse of `2^(64 k)` modulo an odd `n`: `((n + 1)/2)^(64 k) mod n`.
pub open spec fn radix_inverse(n: nat, k: nat) -> nat
    recommends
        n % 2 == 1,
{
    power(half_inverse(n), 64 * k) % n
}

/// `power` agrees with vstd's `pow`.
pub proof fn lemma_power_is_pow(b: nat, e: nat)
    ensures
        power(b, e) == pow(b as int, e),
    decreases e,
{
    reveal(pow);
    if e > 0 {
        lemma_power_is_pow(b, (e - 1) as nat);
    }
}

/// `b^(e1 + e2) = b^e1 · b^e2`.
pub proof fn lemma_power_adds(b: nat, e1: nat, e2: nat)
    ensures
        power(b, e1 + e2) == power(b, e1) * power(b, e2),
{
    lemma_power_is_pow(b, e1 + e2);
    lemma_power_is_pow(b, e1);
    lemma_power_is_pow(b, e2);
    lemma_pow_adds(b as int, e1, e2);
}

/// `(b^e1)^e2 = b^(e1 · e2)`.
pub proof fn lemma_power_multiplies(b: nat, e1: nat, e2: nat)
    ensures
        power(power(b, e1), e2) == power(b, e1 * e2),
{
    lemma_power_is_pow(b, e1);
    lemma_power_is_pow(power(b, e1), e2);
    lemma_power_is_pow(b, e1 * e2);
    lemma_pow_multiplies(b as int, e1, e2);
}

/// `(a · b)^e = a^e · b^e`.
pub proof fn lemma_power_distributes(a: nat, b: nat, e: nat)
    ensures
        power(a * b, e) == power(a, e) * power(b, e),
{
    lemma_power_is_pow(a * b, e);
    lemma_power_is_pow(a, e);
    lemma_power_is_pow(b, e);
    lemma_pow_distributes(a as int, b as int, e);
}

/// Reducing the base first changes nothing modulo `m`.
pub proof fn lemma_power_mod_noop(b: nat, e: nat, m: nat)
    requires
        m > 0,
    ensures
        power(b % m, e) % m == power(b, e) % m,
{
    lemma_power_is_pow(b % m, e);
    lemma_power_is_pow(b, e);
    lemma_pow_mod_noop(b as int, e, m as int);
}

/// `1^e = 1`.
pub proof fn lemma_power_one(e: nat)
    ensures
        power(1, e) == 1,
    decreases e,
{
    if e > 0 {
        lemma_power_one((e - 1) as nat);
    }
}

/// `2^(64 k)` is the radix of `k` limbs.
pub proof fn lemma_radix_is_power(k: nat)
    ensures
        radix(k) == power(2, 64 * k),
    decreases k,
{
    if k == 0 {
    } else {
        lemma_radix_is_power((k - 1) as nat);
        lemma_power_adds(2, 64 * ((k - 1) as nat), 64);
        lemma_power_is_pow(2, 64);
        lemma_pow2(64);
        lemma2_to64_rest();
        assert(64 * ((k - 1) as nat) + 64 == 64 * k) by (nonlinear_arith)
            requires
                k > 0,
        ;
    }
}

/// `(x % m) * (y % m) % m == x * y % m`, over the naturals.
pub proof fn lemma_mul_mod(x: nat, y: nat, m: nat)
    requires
        m > 0,
    ensures
        ((x % m) * (y % m)) % m == (x * y) % m,
        ((x % m) * y) % m == (x * y) % m,
        (x * (y % m)) % m == (x * y) % m,
{
    lemma_mul_mod_noop_general(x as int, y as int, m as int);
}

/// The radix inverse really is one: `2^(64 k) · radix_inverse ≡ 1`.
pub proof fn lemma_radix_inverse(n: nat, k: nat)
    requires
        n % 2 == 1,
    ensures
        (radix(k) * radix_inverse(n, k)) % n == 1nat % n,
        radix_inverse(n, k) < n,
{
    let h = half_inverse(n);
    let e = 64 * k;
    lemma_radix_is_power(k);
    assert(2 * h == n + 1);
    lemma_power_distributes(2, h, e);
    assert(power(2, e) * power(h, e) == power(n + 1, e));
    lemma_power_mod_noop(n + 1, e, n);
    if n == 1 {
        assert((n + 1) % n == 0);
    } else {
        lemma_small_mod(1, n);
        lemma_mod_add_multiples_vanish(1, n as int);
        assert((n + 1) % n == 1);
        lemma_power_one(e);
    }
    lemma_mul_mod(power(2, e), power(h, e), n);
    lemma_mod_twice(power(2, e) as int * power(h, e) as int, n as int);
    lemma_mod_bound(power(h, e) as int, n as int);
    lemma_mul_mod(power(2, e), power(h, e), n);
    assert((power(2, e) * (power(h, e) % n)) % n == (power(2, e) * power(h, e)) % n);
    if n == 1 {
        assert(power((n + 1) % n, e) == power(0, e));
    }
}


/// `b^1 = b` and `b^0 = 1`.
pub proof fn lemma_power_one_exponent(b: nat)
    ensures
        power(b, 1) == b,
        power(b, 0) == 1,
{
    assert(power(b, 1) == b * power(b, 0));
    assert(power(b, 0) == 1);
    assert(b * 1 == b);
}


/// Divisibility is transitive.
pub proof fn lemma_divides_trans(a: nat, b: nat, c: nat)
    requires
        b > 0,
        c > 0,
        a % b == 0,
        b % c == 0,
    ensures
        a % c == 0,
{
    lemma_fundamental_div_mod(a as int, b as int);
    lemma_fundamental_div_mod(b as int, c as int);
    let s = a / b;
    let t = b / c;
    assert(a == c * (t * s)) by (nonlinear_arith)
        requires
            a == b * s,
            b == c * t,
    ;
    lemma_mod_multiples_basic((t * s) as int, c as int);
    assert(c * (t * s) == (t * s) * c) by (nonlinear_arith);
}

/// The least divisor of `n` that is at least `d` (or `n` itself).
pub open spec fn least_factor(n: nat, d: nat) -> nat
    decreases n - d,
{
    if d >= n || d == 0 {
        n
    } else if n % d == 0 {
        d
    } else {
        least_factor(n, d + 1)
    }
}

proof fn lemma_least_factor(n: nat, d: nat)
    requires
        2 <= d <= n,
        forall|e: nat| 2 <= e < d ==> #[trigger] (n % e) != 0,
    ensures
        d <= least_factor(n, d) <= n,
        n % least_factor(n, d) == 0,
        forall|e: nat| 2 <= e < least_factor(n, d) ==> #[trigger] (n % e) != 0,
    decreases n - d,
{
    if d == n {
        lemma_mod_self_0(n as int);
    } else if n % d == 0 {
    } else {
        assert forall|e: nat| 2 <= e < d + 1 implies #[trigger] (n % e) != 0 by {
            if e < d {
            }
        }
        lemma_least_factor(n, d + 1);
    }
}

/// Every number above one that is not prime has a prime factor whose
/// square does not exceed it.
pub proof fn lemma_prime_factor(n: nat)
    requires
        n > 1,
        !is_prime(n),
    ensures
        exists|f: nat| #[trigger] is_prime(f) && n % f == 0 && f * f <= n && f < n,
{
    lemma_least_factor(n, 2);
    let f = least_factor(n, 2);
    assert(is_prime(f)) by {
        assert forall|e: nat| 1 < e < f implies #[trigger] (f % e) != 0 by {
            if f % e == 0 {
                lemma_divides_trans(n, f, e);
            }
        }
    }
    if f == n {
        assert(false);
    }
    lemma_fundamental_div_mod(n as int, f as int);
    let k = n / f;
    assert(n == f * k);
    assert(k > 1) by (nonlinear_arith)
        requires
            n == f * k,
            f < n,
            f >= 2,
    ;
    assert(k < n) by (nonlinear_arith)
        requires
            n == f * k,
            f >= 2,
            k > 1,
    ;
    assert(n % k == 0) by {
        lemma_mod_multiples_basic(f as int, k as int);
    }
    assert(f <= k);
    assert(f * f <= n) by (nonlinear_arith)
        requires
            n == f * k,
            f <= k,
    ;
}

/// A number is below two to the power of its bit count.
pub proof fn lemma_bit_count_bound(x: nat)
    ensures
        x < pow2(bit_count(x)),
    decreases x,
{
    if x == 0 {
        lemma2_to64();
    } else {
        lemma_bit_count_bound(x / 2);
        lemma_pow2_unfold(bit_count(x));
    }
}

/// A positive number is at least two to the power of one less than its
/// bit count.
pub proof fn lemma_bit_count_lower(x: nat)
    requires
        x > 0,
    ensures
        pow2((bit_count(x) - 1) as nat) <= x,
    decreases x,
{
    if x == 1 {
        assert(bit_count(0) == 0);
        lemma2_to64();
    } else {
        lemma_bit_count_lower(x / 2);
        lemma_pow2_unfold((bit_count(x) - 1) as nat);
    }
}

/// Below `2^b`, a number has at most `b` bits.
pub proof fn lemma_bit_count_at_most(x: nat, b: nat)
    requires
        x < pow2(b),
    ensures
        bit_count(x) <= b,
{
    if x > 0 && bit_count(x) > b {
        lemma_bit_count_lower(x);
        if b < (bit_count(x) - 1) as nat {
            lemma_pow2_strictly_increases(b, (bit_count(x) - 1) as nat);
        }
    }
}

} // verus!
