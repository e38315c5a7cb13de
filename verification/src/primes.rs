//! Safe prime generation.
//!
//! A safe prime is `p = 2p′ + 1` with `p′` prime as well; `p ≡ 3 mod 4`
//! comes for free, since `p′` is odd. Candidates are sieved by division
//! by the small odd primes — both `p′` and `2p′ + 1` — before the first
//! probabilistic test, which removes most of them cheaply.

use vstd::prelude::*;
use vstd::arithmetic::div_mod::*;
use vstd::arithmetic::power2::*;
use crate::arith::{bit_count, is_prime};
use crate::bignum::{
    nat_add, nat_from_bytes, nat_keep_bits, nat_mod_u32, nat_mul, nat_primality, nat_set_bit,
    primality_verdict, Natural, PrimeVerdict, lemma_below_limit, value_limit, MAX_LIMBS,
};
use crate::keys::{half_of, PRIMALITY_ROUNDS};
use crate::scheme::random_bytes;

verus! {

/// The sieve bound: above it, a division costs more than the fraction of
/// candidates it removes.
pub const SIEVE_LIMIT: u32 = 0x1000;

/// How many candidates the search draws before it gives up: far more
/// than any run reaches, since about one candidate in a quarter of a
/// million is a safe prime at 1024 bits.
pub const SAFE_PRIME_ATTEMPTS: u64 = 0xffff_ffff_ffff_ffff;

/// The odd primes from three up to `k`, in increasing order.
pub open spec fn odd_primes_up_to(k: nat) -> Seq<u32>
    decreases k,
{
    if k < 3 {
        Seq::empty()
    } else if k % 2 == 1 && is_prime(k) {
        odd_primes_up_to((k - 1) as nat).push(k as u32)
    } else {
        odd_primes_up_to((k - 1) as nat)
    }
}

/// The entries of `odd_primes_up_to(k)` are odd primes in `[3, k]`,
/// strictly increasing, and every odd prime in that range is among them.
pub proof fn lemma_odd_primes_up_to(k: nat)
    requires
        k <= 0xffff_ffff,
    ensures
        forall|i: int|
            0 <= i < odd_primes_up_to(k).len() ==> 3 <= #[trigger] odd_primes_up_to(k)[i] <= k
                && odd_primes_up_to(k)[i] % 2 == 1 && is_prime(odd_primes_up_to(k)[i] as nat),
        forall|i: int, j: int|
            0 <= i < j < odd_primes_up_to(k).len() ==> #[trigger] odd_primes_up_to(k)[i]
                < #[trigger] odd_primes_up_to(k)[j],
        forall|v: nat|
            3 <= v <= k && v % 2 == 1 && #[trigger] is_prime(v) ==> odd_primes_up_to(k).contains(
                v as u32,
            ),
    decreases k,
{
    if k >= 3 {
        let k1 = (k - 1) as nat;
        lemma_odd_primes_up_to(k1);
        let prev = odd_primes_up_to(k1);
        if k % 2 == 1 && is_prime(k) {
            let cur = prev.push(k as u32);
            assert forall|v: nat|
                3 <= v <= k && v % 2 == 1 && #[trigger] is_prime(v) implies cur.contains(
                v as u32,
            ) by {
                if v == k {
                    assert(cur[prev.len() as int] == v as u32);
                } else {
                    let i = choose|i: int| 0 <= i < prev.len() && prev[i] == v as u32;
                    assert(cur[i] == v as u32);
                }
            }
        }
    }
}

/// Odd primes up to `SIEVE_LIMIT`, in increasing order. Two is left
/// out: every number sieved here is odd, and an even divisor never
/// divides it.
pub fn small_primes() -> (out: Vec<u32>)
    ensures
        out@ == odd_primes_up_to(SIEVE_LIMIT as nat),
{
    let mut composite: Vec<bool> = Vec::new();
    let mut fill: u32 = 0;
    while fill <= SIEVE_LIMIT
        invariant
            fill <= SIEVE_LIMIT + 1,
            composite.len() == fill,
            forall|m: int| 0 <= m < composite.len() ==> !composite@[m],
        decreases SIEVE_LIMIT + 1 - fill,
    {
        composite.push(false);
        fill = fill + 1;
    }
    let mut out: Vec<u32> = Vec::new();
    let mut candidate: u32 = 3;
    while candidate <= SIEVE_LIMIT
        invariant
            3 <= candidate <= SIEVE_LIMIT + 2,
            candidate % 2 == 1,
            composite.len() == SIEVE_LIMIT + 1,
            out@ == odd_primes_up_to((candidate - 1) as nat),
            forall|m: int| 0 <= m <= SIEVE_LIMIT && #[trigger] composite@[m] ==> !is_prime(
                m as nat,
            ),
            forall|f: nat, m: nat|
                #![trigger is_prime(f), composite@[m as int]]
                3 <= f < candidate && is_prime(f) && f * f <= m <= SIEVE_LIMIT && m % 2 == 1 && m
                    % f == 0 ==> composite@[m as int],
        decreases SIEVE_LIMIT + 2 - candidate,
    {
        let c = candidate;
        if !composite[c as usize] {
            proof {
                lemma_unmarked_is_prime(composite@, c as nat);
            }
            out.push(c);
            // Even multiples are never looked at, so step by `2c`.
            assert(c as u64 * c as u64 <= 0x100_0000) by (nonlinear_arith)
                requires
                    c <= SIEVE_LIMIT,
            ;
            let mut multiple: u64 = c as u64 * c as u64;
            proof {
                assert(multiple == c * c);
                lemma_small_mod(0, (2 * c) as nat);
            }
            while multiple <= SIEVE_LIMIT as u64
                invariant
                    3 <= c <= SIEVE_LIMIT,
                    c % 2 == 1,
                    c == candidate,
                    is_prime(c as nat),
                    composite.len() == SIEVE_LIMIT + 1,
                    c * c <= multiple,
                    multiple <= SIEVE_LIMIT + 2 * c || multiple == c * c,
                    (multiple - c * c) % (2 * c as int) == 0,
                    forall|m: int| 0 <= m <= SIEVE_LIMIT && #[trigger] composite@[m] ==> !is_prime(
                        m as nat,
                    ),
                    forall|f: nat, m: nat|
                        #![trigger is_prime(f), composite@[m as int]]
                        3 <= f < candidate && is_prime(f) && f * f <= m <= SIEVE_LIMIT && m % 2 == 1
                            && m % f == 0 ==> composite@[m as int],
                    forall|m: nat|
                        c * c <= m < multiple && m <= SIEVE_LIMIT && (m - c * c) % (2 * c as int)
                            == 0 ==> #[trigger] composite@[m as int],
                decreases SIEVE_LIMIT + 2 * c - multiple,
            {
                proof {
                    lemma_marked_not_prime(c as nat, multiple as nat);
                    lemma_next_mark(c as nat, multiple as nat);
                }
                let ghost previous = multiple as nat;
                composite.set(multiple as usize, true);
                multiple = multiple + 2 * c as u64;
                proof {
                    assert forall|m: nat|
                        c * c <= m < multiple && m <= SIEVE_LIMIT && (m - c * c) % (2 * c as int)
                            == 0 implies #[trigger] composite@[m as int] by {
                        if m > previous {
                            lemma_walk_gap(c as nat, previous, m);
                        }
                    }
                }
            }
            proof {
                assert forall|f: nat, m: nat|
                    #![trigger is_prime(f), composite@[m as int]]
                    3 <= f < candidate + 2 && is_prime(f) && f * f <= m <= SIEVE_LIMIT && m % 2
                        == 1 && m % f == 0 implies composite@[m as int] by {
                    if f == c {
                        lemma_mark_pattern(c as nat, m);
                    } else if f == c + 1 {
                        assert(f % 2 == 0);
                        assert(!is_prime(f)) by {
                            assert(f % 2 == 0);
                        }
                    }
                }
            }
        } else {
            proof {
                assert forall|f: nat, m: nat|
                    #![trigger is_prime(f), composite@[m as int]]
                    3 <= f < candidate + 2 && is_prime(f) && f * f <= m <= SIEVE_LIMIT && m % 2
                        == 1 && m % f == 0 implies composite@[m as int] by {
                    if f == c {
                        assert(composite@[c as int]);
                    } else if f == c + 1 {
                        assert(!is_prime(f)) by {
                            assert(f % 2 == 0);
                        }
                    }
                }
            }
        }
        proof {
            let k = (c - 1) as nat;
            assert(odd_primes_up_to((c + 1) as nat) == odd_primes_up_to(c as nat));
            if composite@[c as int] {
                assert(!is_prime(c as nat));
                assert(odd_primes_up_to(c as nat) == odd_primes_up_to(k));
            }
        }
        candidate = candidate + 2;
    }
    out
}

/// An odd `c` that no smaller prime crossed off is prime.
proof fn lemma_unmarked_is_prime(composite: Seq<bool>, c: nat)
    requires
        3 <= c <= SIEVE_LIMIT,
        c % 2 == 1,
        composite.len() == SIEVE_LIMIT + 1,
        !composite[c as int],
        forall|f: nat, m: nat|
            #![trigger is_prime(f), composite[m as int]]
            3 <= f < c && is_prime(f) && f * f <= m <= SIEVE_LIMIT && m % 2 == 1 && m % f == 0
                ==> composite[m as int],
    ensures
        is_prime(c),
{
    if !is_prime(c) {
        crate::arith::lemma_prime_factor(c);
        let f = choose|f: nat| #[trigger] is_prime(f) && c % f == 0 && f * f <= c && f < c;
        if f == 2 {
            assert(c % 2 == 0);
        }
        assert(composite[c as int]);
    }
}

/// A number on the walk `c², c² + 2c, …` is a proper multiple of `c`.
proof fn lemma_marked_not_prime(c: nat, m: nat)
    requires
        c >= 3,
        c * c <= m,
        (m - c * c) % (2 * c as int) == 0,
    ensures
        !is_prime(m),
        m % c == 0,
{
    let t = (m - c * c) / (2 * c as int);
    lemma_fundamental_div_mod((m - c * c) as int, 2 * c as int);
    assert(m == c * (c + 2 * t)) by (nonlinear_arith)
        requires
            m - c * c == (2 * c) * t,
    ;
    assert(t >= 0) by (nonlinear_arith)
        requires
            m - c * c == (2 * c) * t,
            m - c * c >= 0,
            c >= 3,
    ;
    lemma_mod_multiples_basic((c + 2 * t) as int, c as int);
    assert(c * (c + 2 * t) == (c + 2 * t) * c) by (nonlinear_arith);
    assert(c < m) by (nonlinear_arith)
        requires
            c >= 3,
            c * c <= m,
    ;
    assert(m % c == 0);
}

/// One step of the walk keeps the pattern.
proof fn lemma_next_mark(c: nat, m: nat)
    requires
        c >= 3,
        c * c <= m,
        (m - c * c) % (2 * c as int) == 0,
    ensures
        ((m + 2 * c) - c * c) % (2 * c as int) == 0,
{
    lemma_mod_add_multiples_vanish((m - c * c) as int, 2 * c as int);
}

/// Between two steps of the walk no number lies on it.
proof fn lemma_walk_gap(c: nat, multiple: nat, m: nat)
    requires
        c >= 3,
        c * c <= multiple < m < multiple + 2 * c,
        (multiple - c * c) % (2 * c as int) == 0,
    ensures
        (m - c * c) % (2 * c as int) != 0,
{
    let w = 2 * c as int;
    lemma_fundamental_div_mod((multiple - c * c) as int, w);
    let k = (multiple - c * c) / w;
    let d = m - multiple;
    assert(m - c * c == w * k + d);
    lemma_mod_multiples_vanish(k, d, w);
    lemma_small_mod(d as nat, w as nat);
}

/// An odd multiple of an odd `c`, at least `c²`, lies on the walk.
proof fn lemma_mark_pattern(c: nat, m: nat)
    requires
        c >= 3,
        c % 2 == 1,
        m % 2 == 1,
        m % c == 0,
        c * c <= m,
    ensures
        (m - c * c) % (2 * c as int) == 0,
{
    lemma_fundamental_div_mod(m as int, c as int);
    let j = m / c;
    assert(m == c * j);
    assert(j >= c) by (nonlinear_arith)
        requires
            m == c * j,
            c * c <= m,
            c >= 3,
    ;
    assert(j % 2 == 1) by {
        if j % 2 == 0 {
            lemma_fundamental_div_mod(j as int, 2);
            let h = j / 2;
            assert(m == 2 * (c * h)) by (nonlinear_arith)
                requires
                    m == c * j,
                    j == 2 * h,
            ;
        }
    }
    lemma_fundamental_div_mod((j - c) as int, 2);
    let t = (j - c) / 2;
    assert(j - c == 2 * t);
    assert(m - c * c == (2 * c) * t) by (nonlinear_arith)
        requires
            m == c * j,
            j - c == 2 * t,
    ;
    lemma_mod_multiples_basic(t, 2 * c as int);
    assert((2 * c) * t == t * (2 * c)) by (nonlinear_arith);
}

/// Two to the `bits − 1` is the lowest number of `bits` bits.
pub proof fn lemma_bit_count_range(x: nat, bits: nat)
    requires
        bits >= 1,
        pow2((bits - 1) as nat) <= x < pow2(bits),
    ensures
        bit_count(x) == bits,
    decreases bits,
{
    lemma_pow2_unfold(bits);
    if bits == 1 {
        assert(pow2(0) == 1) by {
            lemma2_to64();
        }
        assert(x == 1);
        assert(bit_count(0) == 0);
    } else {
        lemma_pow2_unfold((bits - 1) as nat);
        lemma_bit_count_range(x / 2, (bits - 1) as nat);
    }
}

/// A random odd number of exactly `bits` bits: `bits` random bits with
/// the top and the bottom one set. Without the top bit the length is
/// only "about `bits`", and the product of two such primes comes out
/// shorter than the declared modulus.
fn random_odd(bits: u32) -> (r: Natural)
    requires
        bits >= 2,
        bits < 64 * MAX_LIMBS,
    ensures
        r@ % 2 == 1,
        pow2((bits - 1) as nat) <= r@ < pow2(bits as nat),
{
    let width = ((bits as u64 + 7) / 8) as usize;
    let raw = random_bytes(width);
    let drawn = nat_from_bytes(raw.as_slice());
    let kept = nat_keep_bits(&drawn, bits);
    proof {
        lemma_pow2_pos(bits as nat);
        lemma_pow2_unfold(bits as nat);
        lemma_pow2_unfold((bits + 1) as nat);
        lemma_mod_bound(drawn@ as int, pow2(bits as nat) as int);
        lemma_below_limit(kept@ + pow2((bits - 1) as nat), (bits + 1) as nat);
    }
    let top = nat_set_bit(&kept, bits - 1);
    proof {
        lemma_pow2_pos((bits - 1) as nat);
        assert(top@ < pow2(bits as nat)) by {
            if (kept@ / pow2((bits - 1) as nat)) % 2 != 1 {
                let pp = pow2((bits - 1) as nat);
                lemma_fundamental_div_mod(kept@ as int, pp as int);
                lemma_mod_bound(kept@ as int, pp as int);
                let q = kept@ / pp;
                let rest = kept@ % pp;
                assert(q < 2) by (nonlinear_arith)
                    requires
                        kept@ == pp * q + rest,
                        kept@ < 2 * pp,
                        rest >= 0,
                ;
                assert(q % 2 != 1);
                assert(q == 0) by {
                    if q == 1 {
                        assert(1nat % 2 == 1);
                    }
                }
                assert(kept@ < pp) by (nonlinear_arith)
                    requires
                        kept@ == pp * q + rest,
                        q == 0,
                        rest < pp,
                ;
            }
        }
        assert(pow2(0) == 1) by {
            lemma2_to64();
        }
        lemma_below_limit(top@ + 1, (bits + 1) as nat);
    }
    let value = nat_set_bit(&top, 0);
    proof {
        let b = bits as nat;
        let i = (bits - 1) as nat;
        let big = pow2(b);
        let p = pow2(i);
        lemma_pow2_pos(b);
        lemma_pow2_pos(i);
        lemma_pow2_unfold(b);
        assert(big == 2 * p);
        lemma_mod_bound(drawn@ as int, big as int);
        assert(kept@ < 2 * p);
        lemma_fundamental_div_mod(kept@ as int, p as int);
        let q = kept@ / p;
        let rest = kept@ % p;
        lemma_mod_bound(kept@ as int, p as int);
        if (kept@ / p) % 2 == 1 {
            assert(top@ == kept@);
            assert(q >= 1);
            assert(p * q >= p) by (nonlinear_arith)
                requires
                    q >= 1,
                    p > 0,
            ;
        } else {
            assert(top@ == kept@ + p);
            assert(q < 2) by (nonlinear_arith)
                requires
                    kept@ == p * q + rest,
                    rest >= 0,
                    kept@ < 2 * p,
                    p > 0,
            ;
            assert(q == 0);
            assert(kept@ < p) by (nonlinear_arith)
                requires
                    kept@ == p * q + rest,
                    q == 0,
                    rest < p,
            ;
        }
        assert(p <= top@ < 2 * p);
        assert(pow2(0) == 1) by {
            lemma2_to64();
        }
        assert(top@ / 1 == top@);
        if top@ % 2 == 1 {
            assert(value@ == top@);
        } else {
            assert(value@ == top@ + 1);
            assert((2 * p) % 2 == 0);
        }
    }
    value
}

/// A multiple of `p` reduces modulo `p` as the number itself does.
proof fn lemma_mod_through_multiple(x: nat, m: nat, p: nat)
    requires
        p > 0,
        m > 0,
        m % p == 0,
    ensures
        (x % m) % p == x % p,
{
    lemma_fundamental_div_mod(m as int, p as int);
    let k = m / p;
    assert(m == p * k);
    assert(k > 0) by (nonlinear_arith)
        requires
            m == p * k,
            m > 0,
            p > 0,
    ;
    lemma_mod_mod(x as int, p as int, k as int);
}

/// A product of consecutive sieving primes, starting at `start`, as long
/// as it stays below `2^32`: the primes it covers end before the returned
/// index, which lies past `start`.
fn prime_group(sieve: &Vec<u32>, start: usize) -> (r: (u32, usize))
    requires
        start < sieve.len(),
        sieve@ == odd_primes_up_to(SIEVE_LIMIT as nat),
    ensures
        r.0 > 0,
        start < r.1 <= sieve.len(),
        forall|t: int| start <= t < r.1 ==> (r.0 as nat) % (#[trigger] sieve@[t] as nat) == 0,
{
    proof {
        lemma_odd_primes_up_to(SIEVE_LIMIT as nat);
    }
    let first = sieve[start];
    assert(sieve@[start as int] >= 3);
    let mut product: u64 = first as u64;
    let mut end: usize = start + 1;
    proof {
        lemma_mod_self_0(first as int);
    }
    loop
        invariant
            sieve@ == odd_primes_up_to(SIEVE_LIMIT as nat),
            start < end <= sieve.len(),
            0 < product < 0x1_0000_0000,
            forall|t: int| 0 <= t < sieve.len() ==> 3 <= #[trigger] sieve@[t] <= SIEVE_LIMIT,
            forall|t: int| start <= t < end ==> (product as nat) % (#[trigger] sieve@[t] as nat) == 0,
        decreases sieve.len() - end,
    {
        if end >= sieve.len() {
            break;
        }
        let next = sieve[end] as u64;
        assert(product * next < 0x1_0000_0000 * 0x2000 && product * next > 0) by (nonlinear_arith)
            requires
                0 < product < 0x1_0000_0000,
                3 <= next <= 0x1000,
        ;
        if product * next >= 0x1_0000_0000 {
            break;
        }
        proof {
            lemma_odd_primes_up_to(SIEVE_LIMIT as nat);
            assert(sieve@[end as int] >= 3);
            assert forall|t: int| start <= t < end + 1 implies ((product * next) as nat) % (
            #[trigger] sieve@[t] as nat) == 0 by {
                if t == end {
                    lemma_mod_multiples_basic(product as int, next as int);
                } else {
                    let q = sieve@[t] as nat;
                    assert(q >= 3);
                    lemma_fundamental_div_mod(product as int, q as int);
                    let k = (product as nat) / q;
                    assert((product * next) as nat == (k * next) * q) by (nonlinear_arith)
                        requires
                            product as nat == q * k,
                    ;
                    lemma_mod_multiples_basic((k * next) as int, q as int);
                }
            }
        }
        product = product * next;
        end = end + 1;
    }
    (product as u32, end)
}

/// No sieving prime below `half` divides `half` or `2·half + 1`.
pub open spec fn sieve_clear(half: nat, sieve: Seq<u32>) -> bool {
    forall|i: int|
        0 <= i < sieve.len() && (#[trigger] sieve[i] as nat) < half ==> half % (sieve[i] as nat)
            != 0 && (2 * half + 1) % (sieve[i] as nat) != 0
}

/// Sieve `half` and `2·half + 1` at once by the primes below `half`.
/// The walk stops where the primes reach `half` itself: a prime `half`
/// is one of the sieving primes, and dividing it by itself would reject
/// every viable candidate below `SIEVE_LIMIT`. `half` is reduced once
/// per group of consecutive primes whose product fits a word, and each
/// prime of the group divides that residue instead.
fn sieve_rejects(sieve: &Vec<u32>, half: &Natural) -> (rejected: bool)
    requires
        sieve@ == odd_primes_up_to(SIEVE_LIMIT as nat),
    ensures
        rejected == !sieve_clear(half@, sieve@),
{
    proof {
        lemma_odd_primes_up_to(SIEVE_LIMIT as nat);
    }
    // Only a `half` within the sieve's range can stop the walk early; for
    // any other the comparison is settled once.
    let within = !Natural::from_u64(SIEVE_LIMIT as u64).less_than(half);
    let mut group_modulus: u32 = 1;
    let mut group_residue: u32 = 0;
    let mut group_end: usize = 0;
    let mut i: usize = 0;
    while i < sieve.len()
        invariant
            i <= sieve.len(),
            i <= group_end <= sieve.len(),
            group_modulus > 0,
            group_residue as nat == half@ % (group_modulus as nat),
            forall|t: int|
                i <= t < group_end ==> (group_modulus as nat) % (#[trigger] sieve@[t] as nat) == 0,
            sieve@ == odd_primes_up_to(SIEVE_LIMIT as nat),
            within == (half@ <= SIEVE_LIMIT),
            forall|j: int|
                0 <= j < i && (#[trigger] sieve@[j] as nat) < half@ ==> half@ % (sieve@[j] as nat)
                    != 0 && (2 * half@ + 1) % (sieve@[j] as nat) != 0,
        decreases sieve.len() - i,
    {
        proof {
            lemma_odd_primes_up_to(SIEVE_LIMIT as nat);
        }
        let prime = sieve[i];
        assert(3 <= sieve@[i as int] <= SIEVE_LIMIT);
        if within && !Natural::from_u64(prime as u64).less_than(half) {
            proof {
                assert forall|j: int|
                    0 <= j < sieve.len() && (#[trigger] sieve@[j] as nat) < half@ implies half@
                    % (sieve@[j] as nat) != 0 && (2 * half@ + 1) % (sieve@[j] as nat) != 0 by {
                    if j >= i {
                        if j > i {
                            assert(sieve@[i as int] < sieve@[j]);
                        }
                    }
                }
            }
            return false;
        }
        if i == group_end {
            let (m, end) = prime_group(sieve, i);
            group_modulus = m;
            group_residue = nat_mod_u32(half, m);
            group_end = end;
        }
        let residue = group_residue % prime;
        proof {
            let p = prime as nat;
            lemma_mod_through_multiple(half@, group_modulus as nat, p);
            lemma_fundamental_div_mod(half@ as int, p as int);
            let q = half@ / p;
            assert(2 * half@ + 1 == p * (2 * q) + (2 * residue + 1)) by (nonlinear_arith)
                requires
                    half@ == p * q + residue,
            ;
            lemma_mod_multiples_vanish((2 * q) as int, (2 * residue + 1) as int, p as int);
        }
        if residue == 0 || (2 * residue + 1) % prime == 0 {
            return true;
        }
        i = i + 1;
    }
    false
}

/// Decide one candidate `p′ = half`: `Some(2·half + 1)` exactly when no
/// sieving prime below `half` divides `half` or `2·half + 1` and GMP's
/// primality test refutes neither of the two; `None` otherwise. The test
/// of `half` comes first, so `2·half + 1` is only built for a survivor.
pub fn safe_prime_from(sieve: &Vec<u32>, half: &Natural) -> (p: Option<Natural>)
    requires
        sieve@ == odd_primes_up_to(SIEVE_LIMIT as nat),
        2 * half@ + 1 < value_limit(),
    ensures
        p is Some <==> {
            &&& sieve_clear(half@, sieve@)
            &&& primality_verdict(half@, PRIMALITY_ROUNDS as nat) != PrimeVerdict::Composite
            &&& primality_verdict(2 * half@ + 1, PRIMALITY_ROUNDS as nat)
                != PrimeVerdict::Composite
        },
        p matches Some(v) ==> v@ == 2 * half@ + 1,
{
    if sieve_rejects(sieve, half) {
        return None;
    }
    match nat_primality(half, PRIMALITY_ROUNDS) {
        PrimeVerdict::Composite => {
            return None;
        },
        _ => {},
    }
    let candidate = nat_add(&nat_mul(half, &Natural::from_u64(2)), &Natural::from_u64(1));
    match nat_primality(&candidate, PRIMALITY_ROUNDS) {
        PrimeVerdict::Composite => None,
        _ => Some(candidate),
    }
}

/// What the search returns for `bits`: `v ≡ 3 mod 4` of exactly `bits`
/// bits, `(v − 1)/2` of `bits − 1` bits and clear of the sieve, and GMP's
/// test refuting neither.
pub open spec fn searched_prime(v: nat, bits: nat) -> bool {
    &&& v % 4 == 3
    &&& bit_count(v) == bits
    &&& bit_count(half_of(v)) == bits - 1
    &&& sieve_clear(half_of(v), odd_primes_up_to(SIEVE_LIMIT as nat))
    &&& primality_verdict(half_of(v), PRIMALITY_ROUNDS as nat) != PrimeVerdict::Composite
    &&& primality_verdict(v, PRIMALITY_ROUNDS as nat) != PrimeVerdict::Composite
}

/// A second safe prime of `bits` bits, distinct from `first`: a draw that
/// repeats the first is drawn again, since two equal primes are not two
/// primes. `None` only if the search gives up.
pub fn distinct_safe_prime(bits: u32, first: &Natural) -> (q: Option<Natural>)
    requires
        bits >= 8,
        bits <= 64 * MAX_LIMBS,
    ensures
        q matches Some(v) ==> searched_prime(v@, bits as nat) && v@ != first@,
{
    let mut attempt: u32 = 0;
    while attempt < 64
        invariant
            bits >= 8,
            bits <= 64 * MAX_LIMBS,
        decreases 64 - attempt,
    {
        attempt = attempt + 1;
        match safe_prime(bits) {
            Some(v) => {
                if !v.equals(first) {
                    return Some(v);
                }
            },
            None => {
                return None;
            },
        }
    }
    None
}

/// A safe prime of exactly `bits` bits: `p = 2p′ + 1` where neither `p′`
/// nor `p` has a sieving prime below `p′` as a divisor, and GMP's
/// primality test refutes neither. Each attempt draws a random `p′` of
/// `bits − 1` bits and hands it to `safe_prime_from`; `None` only once
/// `SAFE_PRIME_ATTEMPTS` candidates have all failed.
pub fn safe_prime(bits: u32) -> (p: Option<Natural>)
    requires
        bits >= 8,
        bits <= 64 * MAX_LIMBS,
    ensures
        p matches Some(v) ==> {
            &&& v@ % 4 == 3
            &&& bit_count(v@) == bits
            &&& bit_count(half_of(v@)) == bits - 1
            &&& sieve_clear(half_of(v@), odd_primes_up_to(SIEVE_LIMIT as nat))
            &&& primality_verdict(half_of(v@), PRIMALITY_ROUNDS as nat) != PrimeVerdict::Composite
            &&& primality_verdict(v@, PRIMALITY_ROUNDS as nat) != PrimeVerdict::Composite
        },
{
    let sieve = small_primes();
    let mut attempt: u64 = 0;
    while attempt < SAFE_PRIME_ATTEMPTS
        invariant
            bits >= 8,
            bits <= 64 * MAX_LIMBS,
            sieve@ == odd_primes_up_to(SIEVE_LIMIT as nat),
        decreases SAFE_PRIME_ATTEMPTS - attempt,
    {
        attempt = attempt + 1;
        // `p′` of `bits − 1` bits, so that `2p′ + 1` has exactly `bits`.
        let half = random_odd(bits - 1);
        proof {
            lemma_pow2_unfold(bits as nat);
            lemma_below_limit(2 * half@ + 1, bits as nat);
        }
        match safe_prime_from(&sieve, &half) {
            Some(candidate) => {
                proof {
                    let h = half@;
                    let b = (bits - 1) as nat;
                    assert(half_of(candidate@) == h);
                    lemma_fundamental_div_mod(h as int, 2);
                    assert(candidate@ % 4 == 3);
                    lemma_pow2_unfold(bits as nat);
                    lemma_pow2_unfold(b);
                    lemma_bit_count_range(h, b);
                    lemma_bit_count_range(candidate@, bits as nat);
                }
                return Some(candidate);
            },
            None => {},
        }
    }
    None
}

} // verus!
