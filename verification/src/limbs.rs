//! Numbers held as sequences of machine words, and what those sequences
//! mean.
//!
//! A limb sequence is little-endian: limb `i` carries weight `2^(64 i)`.
//! A byte string is big-endian: the last byte is the least significant.

use vstd::prelude::*;
use vstd::arithmetic::power::*;
use vstd::arithmetic::mul::*;

verus! {

/// `2^64`, the weight of one limb.
pub open spec fn limb_base() -> nat {
    0x1_0000_0000_0000_0000
}

/// `2^(64 k)`: the weight of limb `k`, and the radix of a `k`-limb buffer.
pub open spec fn radix(k: nat) -> nat
    decreases k,
{
    if k == 0 {
        1
    } else {
        radix((k - 1) as nat) * limb_base()
    }
}

/// The value of a little-endian limb sequence.
pub open spec fn limbs_value(s: Seq<u64>) -> nat
    decreases s.len(),
{
    if s.len() == 0 {
        0
    } else {
        limbs_value(s.drop_last()) + (s.last() as nat) * radix((s.len() - 1) as nat)
    }
}

/// The value of a big-endian byte string.
pub open spec fn bytes_value(s: Seq<u8>) -> nat
    decreases s.len(),
{
    if s.len() == 0 {
        0
    } else {
        bytes_value(s.drop_last()) * 256 + s.last() as nat
    }
}

/// `256^k`.
pub open spec fn byte_radix(k: nat) -> nat
    decreases k,
{
    if k == 0 {
        1
    } else {
        byte_radix((k - 1) as nat) * 256
    }
}

/// The radix is positive and grows by a limb base per limb.
pub proof fn lemma_radix_facts(k: nat)
    ensures
        radix(k) > 0,
        radix(k + 1) == radix(k) * limb_base(),
        radix(0) == 1,
        radix(1) == limb_base(),
    decreases k,
{
    if k > 0 {
        lemma_radix_facts((k - 1) as nat);
        lemma_mul_strictly_positive(radix((k - 1) as nat) as int, limb_base() as int);
    }
    assert(radix(1) == radix(0) * limb_base());
}

/// `radix(a + b) = radix(a) · radix(b)`.
pub proof fn lemma_radix_adds(a: nat, b: nat)
    ensures
        radix(a + b) == radix(a) * radix(b),
    decreases b,
{
    if b == 0 {
        assert(a + b == a);
        assert(radix(0) == 1);
        assert(radix(a) * 1 == radix(a));
    } else {
        lemma_radix_adds(a, (b - 1) as nat);
        assert((a + b - 1) as nat == a + (b - 1) as nat);
        assert(radix(a + b) == radix((a + b - 1) as nat) * limb_base());
        assert(radix(b) == radix((b - 1) as nat) * limb_base());
        let x = radix(a);
        let y = radix((b - 1) as nat);
        lemma_mul_is_associative(x as int, y as int, limb_base() as int);
    }
}

/// More limbs, a larger radix.
pub proof fn lemma_radix_monotone(a: nat, b: nat)
    requires
        a <= b,
    ensures
        radix(a) <= radix(b),
    decreases b,
{
    if a < b {
        lemma_radix_monotone(a, (b - 1) as nat);
        lemma_radix_facts((b - 1) as nat);
    }
}

/// `256^k` is positive and grows by 256 per byte.
pub proof fn lemma_byte_radix_facts(k: nat)
    ensures
        byte_radix(k) > 0,
        byte_radix(k + 1) == byte_radix(k) * 256,
        byte_radix(0) == 1,
    decreases k,
{
    if k > 0 {
        lemma_byte_radix_facts((k - 1) as nat);
    }
}

/// A limb sequence is below its radix.
pub proof fn lemma_limbs_value_bound(s: Seq<u64>)
    ensures
        limbs_value(s) < radix(s.len()),
    decreases s.len(),
{
    if s.len() == 0 {
        lemma_radix_facts(0);
    } else {
        let k = (s.len() - 1) as nat;
        lemma_limbs_value_bound(s.drop_last());
        lemma_radix_facts(k);
        let r = radix(k);
        let x = s.last() as int;
        assert(x <= limb_base() - 1);
        lemma_mul_inequality(x, limb_base() - 1, r as int);
        assert(limbs_value(s.drop_last()) + x * r < r + (limb_base() - 1) * r);
        assert(r + (limb_base() - 1) * r == limb_base() * r) by (nonlinear_arith);
    }
}

/// The value of one limb appended at the top.
pub proof fn lemma_limbs_value_push(s: Seq<u64>, x: u64)
    ensures
        limbs_value(s.push(x)) == limbs_value(s) + (x as nat) * radix(s.len()),
{
    assert(s.push(x).drop_last() =~= s);
}

/// The value of a prefix grows by one weighted limb.
pub proof fn lemma_limbs_value_take(s: Seq<u64>, j: int)
    requires
        0 <= j < s.len(),
    ensures
        limbs_value(s.take(j + 1)) == limbs_value(s.take(j)) + (s[j] as nat) * radix(j as nat),
{
    assert(s.take(j + 1).drop_last() =~= s.take(j));
}

/// Concatenation: the upper part is weighted by the radix of the lower.
pub proof fn lemma_limbs_value_concat(a: Seq<u64>, b: Seq<u64>)
    ensures
        limbs_value(a + b) == limbs_value(a) + radix(a.len()) * limbs_value(b),
    decreases b.len(),
{
    if b.len() == 0 {
        assert(a + b =~= a);
        assert(limbs_value(b) == 0);
        assert(radix(a.len()) * limbs_value(b) == 0) by (nonlinear_arith)
            requires
                limbs_value(b) == 0,
        ;
    } else {
        let b0 = b.drop_last();
        lemma_limbs_value_concat(a, b0);
        assert((a + b).drop_last() =~= a + b0);
        assert((a + b).last() == b.last());
        lemma_radix_adds(a.len(), (b.len() - 1) as nat);
        let ra = radix(a.len());
        let rb = radix((b.len() - 1) as nat);
        let x = b.last() as nat;
        assert((a + b).len() - 1 == a.len() + (b.len() - 1) as nat);
        assert(limbs_value(a + b) == limbs_value(a + b0) + x * radix(a.len() + (b.len() - 1) as nat));
        assert(limbs_value(b) == limbs_value(b0) + x * rb);
        let va = limbs_value(a);
        let vb0 = limbs_value(b0);
        assert(va + ra * vb0 + x * (ra * rb) == va + ra * (vb0 + x * rb)) by (nonlinear_arith);
    }
}

/// Splitting a sequence at any point.
pub proof fn lemma_limbs_value_split(s: Seq<u64>, i: int)
    requires
        0 <= i <= s.len(),
    ensures
        limbs_value(s) == limbs_value(s.take(i)) + radix(i as nat) * limbs_value(s.skip(i)),
{
    assert(s =~= s.take(i) + s.skip(i));
    lemma_limbs_value_concat(s.take(i), s.skip(i));
}

/// Replacing one limb changes the value by the weighted difference.
pub proof fn lemma_limbs_value_update(s: Seq<u64>, i: int, x: u64)
    requires
        0 <= i < s.len(),
    ensures
        limbs_value(s.update(i, x)) + (s[i] as nat) * radix(i as nat) == limbs_value(s) + (x as nat)
            * radix(i as nat),
{
    let t = s.update(i, x);
    lemma_limbs_value_split(s, i);
    lemma_limbs_value_split(t, i);
    assert(t.take(i) =~= s.take(i));
    let sr = s.skip(i);
    let tr = t.skip(i);
    assert(sr =~= seq![s[i]] + s.skip(i + 1));
    assert(tr =~= seq![x] + s.skip(i + 1));
    lemma_limbs_value_concat(seq![s[i]], s.skip(i + 1));
    lemma_limbs_value_concat(seq![x], s.skip(i + 1));
    lemma_radix_facts(0);
    lemma_limbs_value_single(s[i]);
    lemma_limbs_value_single(x);
    let r = radix(i as nat);
    let rest = limbs_value(s.skip(i + 1));
    let si = s[i] as nat;
    let xx = x as nat;
    assert(limbs_value(sr) == si + limb_base() * rest);
    assert(limbs_value(tr) == xx + limb_base() * rest);
    assert(limbs_value(s) == limbs_value(s.take(i)) + r * (si + limb_base() * rest));
    assert(limbs_value(t) == limbs_value(s.take(i)) + r * (xx + limb_base() * rest));
    assert(r * (si + limb_base() * rest) + xx * r == r * (xx + limb_base() * rest) + si * r)
        by (nonlinear_arith);
}

/// One limb is worth itself.
pub proof fn lemma_limbs_value_single(x: u64)
    ensures
        limbs_value(seq![x]) == x as nat,
{
    let t = seq![x];
    assert(t.len() == 1);
    assert(t.last() == x);
    assert(t.drop_last() =~= Seq::<u64>::empty());
    assert(limbs_value(Seq::<u64>::empty()) == 0);
    lemma_radix_facts(0);
    assert(limbs_value(t) == limbs_value(t.drop_last()) + (x as nat) * radix(0));
}

/// A sequence of zeros is worth nothing.
pub proof fn lemma_limbs_value_zeros(s: Seq<u64>)
    requires
        forall|i: int| 0 <= i < s.len() ==> s[i] == 0,
    ensures
        limbs_value(s) == 0,
    decreases s.len(),
{
    if s.len() > 0 {
        lemma_limbs_value_zeros(s.drop_last());
    }
}

/// If a value fits `k` limbs, the limbs above `k` are all zero.
pub proof fn lemma_limbs_value_fits(s: Seq<u64>, k: int)
    requires
        0 <= k <= s.len(),
        limbs_value(s) < radix(k as nat),
    ensures
        limbs_value(s.take(k)) == limbs_value(s),
{
    lemma_limbs_value_split(s, k);
    lemma_limbs_value_bound(s.take(k));
    assert(s.take(k).len() == k);
    lemma_radix_facts(k as nat);
    let r = radix(k as nat);
    let hi = limbs_value(s.skip(k));
    let lo = limbs_value(s.take(k));
    assert(limbs_value(s) == lo + r * hi);
    assert(lo < r);
    assert(hi == 0) by (nonlinear_arith)
        requires
            lo + r * hi < r,
            lo >= 0,
            hi >= 0,
            r > 0,
    ;
    assert(r * hi == 0) by (nonlinear_arith)
        requires
            hi == 0,
    ;
}

/// Zeros appended at the top change nothing.
pub proof fn lemma_limbs_value_pad(s: Seq<u64>, z: Seq<u64>)
    requires
        forall|i: int| 0 <= i < z.len() ==> z[i] == 0,
    ensures
        limbs_value(s + z) == limbs_value(s),
{
    lemma_limbs_value_concat(s, z);
    lemma_limbs_value_zeros(z);
}

/// Two sequences of one length compare as their first differing limb from
/// the top.
pub proof fn lemma_limbs_value_compare_top(a: Seq<u64>, b: Seq<u64>, i: int)
    requires
        a.len() == b.len(),
        0 <= i < a.len(),
        forall|j: int| i < j < a.len() ==> a[j] == b[j],
        a[i] < b[i],
    ensures
        limbs_value(a) < limbs_value(b),
{
    lemma_limbs_value_split(a, i + 1);
    lemma_limbs_value_split(b, i + 1);
    assert(a.skip(i + 1) =~= b.skip(i + 1));
    lemma_limbs_value_take(a, i);
    lemma_limbs_value_take(b, i);
    lemma_limbs_value_bound(a.take(i));
    let r = radix(i as nat);
    assert((a[i] as int) * r + r <= (b[i] as int) * r) by (nonlinear_arith)
        requires
            (a[i] as int) + 1 <= b[i] as int,
            r > 0,
    ;
    lemma_radix_facts(i as nat);
}

/// A big-endian byte string is below its radix.
pub proof fn lemma_bytes_value_bound(s: Seq<u8>)
    ensures
        bytes_value(s) < byte_radix(s.len()),
    decreases s.len(),
{
    if s.len() == 0 {
        lemma_byte_radix_facts(0);
    } else {
        lemma_bytes_value_bound(s.drop_last());
        lemma_byte_radix_facts((s.len() - 1) as nat);
    }
}

/// A leading byte weighs `256^(rest)`.
pub proof fn lemma_bytes_value_prepend(x: u8, s: Seq<u8>)
    ensures
        bytes_value(seq![x] + s) == (x as nat) * byte_radix(s.len()) + bytes_value(s),
    decreases s.len(),
{
    if s.len() == 0 {
        let t = seq![x];
        assert(seq![x] + s =~= t);
        assert(t.drop_last() =~= Seq::<u8>::empty());
        assert(t.last() == x);
        assert(bytes_value(Seq::<u8>::empty()) == 0);
        assert(bytes_value(t) == bytes_value(t.drop_last()) * 256 + x as nat);
        lemma_byte_radix_facts(0);
        assert(bytes_value(s) == 0);
        assert((x as nat) * byte_radix(0) == x as nat);
    } else {
        let t = s.drop_last();
        lemma_bytes_value_prepend(x, t);
        assert((seq![x] + s).drop_last() =~= seq![x] + t);
        assert((seq![x] + s).last() == s.last());
        lemma_byte_radix_facts(t.len());
        assert(s.len() == t.len() + 1);
        let r = byte_radix(t.len());
        let xx = x as nat;
        let vt = bytes_value(t);
        assert(bytes_value(seq![x] + t) == xx * r + vt);
        assert(bytes_value(seq![x] + s) == bytes_value(seq![x] + t) * 256 + s.last() as nat);
        assert(bytes_value(s) == vt * 256 + s.last() as nat);
        assert(byte_radix(s.len()) == r * 256);
        assert((xx * r + vt) * 256 == xx * (r * 256) + vt * 256) by (nonlinear_arith);
    }
}

/// A big-endian byte string without a leading zero byte: the shortest
/// one for its value.
pub open spec fn minimal_bytes(s: Seq<u8>) -> bool {
    s.len() == 0 || s[0] != 0
}

/// A byte string with a non-zero leading byte weighs at least
/// `256^(len − 1)`.
pub proof fn lemma_bytes_value_lower(s: Seq<u8>)
    requires
        s.len() > 0,
        s[0] != 0,
    ensures
        byte_radix((s.len() - 1) as nat) <= bytes_value(s),
{
    let rest = s.skip(1);
    assert(s =~= seq![s[0]] + rest);
    lemma_bytes_value_prepend(s[0], rest);
    let r = byte_radix(rest.len());
    assert((s[0] as nat) * r >= r) by (nonlinear_arith)
        requires
            s[0] as nat >= 1,
    ;
}

/// Two byte strings of one length and one value are the same string.
pub proof fn lemma_bytes_same_length(a: Seq<u8>, b: Seq<u8>)
    requires
        a.len() == b.len(),
        bytes_value(a) == bytes_value(b),
    ensures
        a == b,
    decreases a.len(),
{
    if a.len() > 0 {
        let x = bytes_value(a.drop_last());
        let y = bytes_value(b.drop_last());
        assert(x * 256 + a.last() as nat == y * 256 + b.last() as nat);
        assert(x == y && a.last() == b.last()) by (nonlinear_arith)
            requires
                x * 256 + a.last() as nat == y * 256 + b.last() as nat,
                a.last() < 256,
                b.last() < 256,
        ;
        lemma_bytes_same_length(a.drop_last(), b.drop_last());
        assert(a =~= a.drop_last().push(a.last()));
        assert(b =~= b.drop_last().push(b.last()));
    } else {
        assert(a =~= b);
    }
}

/// The minimal big-endian encoding of a number is unique.
pub proof fn lemma_minimal_bytes_unique(a: Seq<u8>, b: Seq<u8>)
    requires
        minimal_bytes(a),
        minimal_bytes(b),
        bytes_value(a) == bytes_value(b),
    ensures
        a == b,
{
    if a.len() != b.len() {
        // The shorter one is below the radix that the longer one reaches.
        let (short, long) = if a.len() < b.len() {
            (a, b)
        } else {
            (b, a)
        };
        lemma_bytes_value_bound(short);
        lemma_bytes_value_lower(long);
        lemma_byte_radix_monotone(short.len(), (long.len() - 1) as nat);
        assert(false);
    }
    lemma_bytes_same_length(a, b);
}

/// More bytes, a larger radix.
pub proof fn lemma_byte_radix_monotone(a: nat, b: nat)
    requires
        a <= b,
    ensures
        byte_radix(a) <= byte_radix(b),
    decreases b,
{
    if a < b {
        lemma_byte_radix_monotone(a, (b - 1) as nat);
        lemma_byte_radix_facts((b - 1) as nat);
    }
}

} // verus!
