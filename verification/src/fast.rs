//! Encryption arithmetic: a window table of fixed-base powers in
//! Montgomery form, read in constant time.
//!
//! The table holds `hs^(d · 64^i)` for every window `i` and digit `d`,
//! so `hs^r` costs one Montgomery multiplication per six-bit window of
//! `r`, whatever the digits are. A row is read in full and the wanted
//! entry folded out under a mask, so neither the time nor the addresses
//! touched depend on the secret exponent.

use vstd::prelude::*;
use vstd::arithmetic::power2::*;
use vstd::arithmetic::div_mod::*;
use vstd::arithmetic::mul::*;
use vstd::bits::{lemma_u8_shl_is_mul, lemma_u8_shr_is_div};
use crate::arith::{lemma_mul_mod, lemma_power_adds, lemma_power_is_pow, lemma_power_multiplies, power};
use crate::bignum::{Natural, Signed, nat_mul, nat_rem};
use crate::limbs::{byte_radix, bytes_value, lemma_byte_radix_facts, limbs_value, radix};
use crate::mont::{Limb, Montgomery, Work};

verus! {

/// Window width of the table of precomputed powers, in bits.
pub const WINDOW_BITS: u32 = 6;

/// Entries per row: `2^WINDOW_BITS`.
pub const ROW_ENTRIES: usize = 64;

/// The number of windows an exponent of `bytes` bytes needs: `⌈8 · bytes / 6⌉`.
pub open spec fn window_count(bytes: nat) -> nat {
    (bytes * 8 + 5) / 6
}

/// The value of little-endian base-64 digits.
pub open spec fn digits_value(d: Seq<u8>) -> nat
    decreases d.len(),
{
    if d.len() == 0 {
        0
    } else {
        digits_value(d.drop_last()) + (d.last() as nat) * power(64, (d.len() - 1) as nat)
    }
}

/// How many windows an exponent of `bytes` bytes needs.
///
/// One function for every place that needs this number: the table build
/// and the exponent split have to agree.
pub fn windows_for(bytes: usize) -> (count: usize)
    requires
        bytes * 8 + 5 <= usize::MAX,
    ensures
        count == window_count(bytes as nat),
{
    (bytes * 8 + WINDOW_BITS as usize - 1) / WINDOW_BITS as usize
}

/// `256^q = 2^(8 q)`.
pub proof fn lemma_byte_radix_pow2(q: nat)
    ensures
        byte_radix(q) == pow2(8 * q),
    decreases q,
{
    if q == 0 {
        lemma2_to64();
    } else {
        lemma_byte_radix_pow2((q - 1) as nat);
        lemma_byte_radix_facts((q - 1) as nat);
        lemma_pow2_adds(8 * ((q - 1) as nat), 8);
        lemma2_to64();
        assert(8 * ((q - 1) as nat) + 8 == 8 * q) by (nonlinear_arith)
            requires
                q > 0,
        ;
    }
}

/// `64^n = 2^(6 n)`.
proof fn lemma_digit_power(n: nat)
    ensures
        power(64, n) == pow2(6 * n),
{
    lemma_power_multiplies(2, 6, n);
    lemma_power_is_pow(2, 6);
    lemma_power_is_pow(2, 6 * n);
    lemma_pow2(6);
    lemma_pow2(6 * n);
    lemma2_to64();
}

/// Byte `q` from the bottom of a big-endian string.
proof fn lemma_byte_of_value(s: Seq<u8>, q: nat)
    requires
        q < s.len(),
    ensures
        (bytes_value(s) / byte_radix(q)) % 256 == s[s.len() - 1 - q] as nat,
    decreases q,
{
    let t = s.drop_last();
    let v = bytes_value(s);
    assert(v == bytes_value(t) * 256 + s.last() as nat);
    if q == 0 {
        lemma_byte_radix_facts(0);
        lemma_mod_multiples_vanish(bytes_value(t) as int, s.last() as int, 256);
        lemma_small_mod(s.last() as nat, 256);
        assert(v == 256 * bytes_value(t) + s.last() as nat);
    } else {
        lemma_byte_of_value(t, (q - 1) as nat);
        lemma_byte_radix_facts((q - 1) as nat);
        let r = byte_radix((q - 1) as nat);
        lemma_div_denominator(v as int, 256, r as int);
        lemma_fundamental_div_mod_converse(v as int, 256, bytes_value(t) as int, s.last() as int);
        assert(v / 256 == bytes_value(t));
        assert(byte_radix(q) == 256 * r) by (nonlinear_arith)
            requires
                byte_radix(q) == r * 256,
        ;
        assert(t[t.len() - 1 - (q - 1)] == s[s.len() - 1 - q]);
    }
}

/// Bit `r < 8` of a number depends only on its low byte.
proof fn lemma_bit_of_low_byte(x: nat, r: nat)
    requires
        r < 8,
    ensures
        (x / pow2(r)) % 2 == ((x % 256) / pow2(r)) % 2,
{
    lemma2_to64();
    lemma_pow2_adds(r, (8 - r) as nat);
    let p = pow2(r);
    let t = pow2((8 - r) as nat);
    assert(p * t == 256);
    lemma_pow2_pos(r);
    lemma_pow2_strictly_increases(0, (8 - r) as nat);
    lemma_pow2_unfold((8 - r) as nat);
    let h = x / 256;
    let l = x % 256;
    lemma_fundamental_div_mod(x as int, 256);
    // x = 256 h + l = p (t h + l / p) + l % p
    lemma_fundamental_div_mod(l as int, p as int);
    lemma_mod_bound(l as int, p as int);
    assert(x == p * (t * h + l / p) + l % p) by (nonlinear_arith)
        requires
            x == 256 * h + l,
            l == p * (l / p) + l % p,
            p * t == 256,
    ;
    lemma_fundamental_div_mod_converse(x as int, p as int, (t * h + l / p) as int, (l % p) as int);
    assert(x / p == t * h + l / p);
    let half_t = pow2((8 - r - 1) as nat);
    assert(t == 2 * half_t);
    assert(t * h + l / p == 2 * (half_t * h) + l / p) by (nonlinear_arith)
        requires
            t == 2 * half_t,
    ;
    lemma_mod_multiples_vanish((half_t * h) as int, (l / p) as int, 2);
}

/// Bit `b` of a big-endian string is bit `b % 8` of byte `b / 8` from the
/// bottom.
proof fn lemma_bit_of_value(s: Seq<u8>, b: nat)
    requires
        b < 8 * s.len(),
    ensures
        (bytes_value(s) / pow2(b)) % 2 == ((s[s.len() - 1 - b / 8] as nat) / pow2(b % 8)) % 2,
{
    let q = b / 8;
    let r = b % 8;
    let v = bytes_value(s);
    lemma_byte_radix_pow2(q);
    lemma_byte_radix_facts(q);
    lemma_pow2_adds(8 * q, r);
    assert(8 * q + r == b);
    lemma_pow2_pos(r);
    lemma_div_denominator(v as int, pow2(8 * q) as int, pow2(r) as int);
    lemma_byte_of_value(s, q);
    lemma_bit_of_low_byte(v / pow2(8 * q), r);
}

/// The next bit of a window.
proof fn lemma_window_bit(x: nat, o: nat)
    ensures
        x % pow2(o + 1) == x % pow2(o) + pow2(o) * ((x / pow2(o)) % 2),
{
    lemma_pow2_pos(o);
    lemma_pow2_unfold(o + 1);
    lemma_breakdown(x as int, pow2(o) as int, 2);
    assert(pow2(o + 1) == pow2(o) * 2);
}

/// Shifting a byte right, or-ing a bit into place: the arithmetic the
/// digit loop performs.
proof fn lemma_digit_bit(byte: u8, r: u8, digit: u8, offset: u8)
    requires
        r < 8,
        offset < 6,
        digit < pow2(offset as nat),
    ensures
        ((byte >> r) & 1u8) == ((byte as nat) / pow2(r as nat)) % 2,
        ({
            let bit = (byte >> r) & 1u8;
            &&& (digit | (bit << offset)) == digit + (bit as nat) * pow2(offset as nat)
            &&& (digit | (bit << offset)) < pow2((offset + 1) as nat)
        }),
{
    lemma_u8_shr_is_div(byte, r);
    let shifted = byte >> r;
    assert(shifted & 1u8 == shifted % 2) by (bit_vector);
    let bit = shifted & 1u8;
    assert(bit <= 1) by (bit_vector)
        requires
            bit == shifted & 1u8,
    ;
    lemma2_to64();
    lemma_pow2_unfold((offset + 1) as nat);
    lemma_u8_pow2_facts(offset);
    assert(bit * pow2(offset as nat) <= 32) by (nonlinear_arith)
        requires
            bit <= 1,
            pow2(offset as nat) <= 32,
    ;
    lemma_u8_shl_is_mul(bit, offset);
    lemma_u8_shl_is_mul(1u8, offset);
    assert(digit < (1u8 << offset));
    assert(bit <= 1 && offset < 6 && digit < (1u8 << offset) ==> (digit | (bit << offset)) == digit
        + (bit << offset)) by (bit_vector);
    assert(digit + (bit as nat) * pow2(offset as nat) < pow2((offset + 1) as nat)) by (nonlinear_arith)
        requires
            bit <= 1,
            digit < pow2(offset as nat),
            pow2((offset + 1) as nat) == 2 * pow2(offset as nat),
    ;
}

/// `2^offset` fits a byte for the offsets a window uses.
proof fn lemma_u8_pow2_facts(offset: u8)
    requires
        offset < 6,
    ensures
        pow2(offset as nat) <= 32,
        pow2((offset + 1) as nat) <= 64,
{
    lemma2_to64();
    if offset == 0 {
    } else if offset == 1 {
    } else if offset == 2 {
    } else if offset == 3 {
    } else if offset == 4 {
    } else {
    }
}

/// Digits of the exponent, least significant first, six bits wide, read
/// straight out of big-endian bytes: bit `i` from the bottom lives in byte
/// `raw[len − 1 − i/8]`. The loop bounds depend only on the length.
pub fn windows_of(raw: &[u8]) -> (out: Vec<u8>)
    requires
        raw.len() * 8 + 5 <= usize::MAX,
    ensures
        out.len() == window_count(raw.len() as nat),
        forall|i: int| 0 <= i < out.len() ==> out@[i] < 64,
        digits_value(out@) == bytes_value(raw@),
{
    let bits = raw.len() * 8;
    let width = WINDOW_BITS as usize;
    let ghost v = bytes_value(raw@);
    let mut out: Vec<u8> = Vec::with_capacity(windows_for(raw.len()));
    let mut index = 0usize;
    proof {
        lemma2_to64();
        lemma_small_mod(0, 1);
        crate::limbs::lemma_bytes_value_bound(raw@);
        lemma_byte_radix_pow2(raw.len() as nat);
    }
    while index < bits
        invariant
            bits == raw.len() * 8,
            width == 6,
            raw.len() * 8 + 5 <= usize::MAX,
            index == 6 * out.len(),
            index < bits + 6,
            v == bytes_value(raw@),
            v < pow2(bits as nat),
            forall|i: int| 0 <= i < out.len() ==> out@[i] < 64,
            digits_value(out@) == v % pow2(index as nat),
        decreases bits + 6 - index,
    {
        let mut digit = 0u8;
        let mut offset: usize = 0;
        proof {
            lemma2_to64();
            lemma_mod_bound((v / pow2(index as nat)) as int, 1);
        }
        while offset < width
            invariant_except_break
                bits == raw.len() * 8,
                width == 6,
                index < bits,
                offset <= 6,
                v == bytes_value(raw@),
                v < pow2(bits as nat),
                pow2(6) == 64,
                digit < pow2(offset as nat),
                digit == (v / pow2(index as nat)) % pow2(offset as nat),
            ensures
                digit < 64,
                digit == (v / pow2(index as nat)) % 64,
            decreases width - offset,
        {
            let bit_index = index + offset;
            if bit_index >= bits {
                proof {
                    // Nothing lies at or above bit `bits`: the rest of the window is zero.
                    let x = v / pow2(index as nat);
                    lemma_pow2_pos(index as nat);
                    lemma_pow2_adds(index as nat, (bits - index) as nat);
                    assert(index as nat + (bits - index) as nat == bits as nat);
                    lemma_div_by_multiple_is_strongly_ordered_wrap(v, pow2(index as nat), pow2((bits - index) as nat));
                    lemma_pow2_increases((bits - index) as nat, offset as nat);
                    lemma_small_mod(x, pow2(offset as nat));
                    lemma_pow2_increases(offset as nat, 6);
                    lemma_small_mod(x, 64);
                }
                break;
            }
            let byte = raw[raw.len() - 1 - bit_index / 8];
            let r = (bit_index % 8) as u8;
            proof {
                lemma_pow2_pos(index as nat);
                lemma_pow2_pos(offset as nat);
                lemma_bit_of_value(raw@, bit_index as nat);
                lemma_digit_bit(byte, r, digit, offset as u8);
                lemma_window_bit(v / pow2(index as nat), offset as nat);
                lemma_div_denominator(v as int, pow2(index as nat) as int, pow2(offset as nat) as int);
                lemma_pow2_adds(index as nat, offset as nat);
                let x = v / pow2(index as nat);
                assert(x / pow2(offset as nat) == v / pow2(bit_index as nat));
                assert(((byte >> r) & 1u8) as nat == x / pow2(offset as nat) % 2);
                assert((offset as u8) as nat == offset as nat);
            }
            let ghost old_digit = digit;
            let ghost bit = ((byte >> r) & 1u8) as nat;
            digit = digit | (((byte >> r) & 1u8) << (offset as u8));
            proof {
                let x = v / pow2(index as nat);
                let p = pow2(offset as nat);
                assert(digit == old_digit + bit * p);
                assert(bit * p == p * ((x / p) % 2)) by (nonlinear_arith)
                    requires
                        bit == (x / p) % 2,
                ;
                assert(digit == x % pow2((offset + 1) as nat));
            }
            offset = offset + 1;
            proof {
                lemma2_to64();
            }
        }
        let ghost before = out@;
        out.push(digit);
        proof {
            assert(out@.drop_last() =~= before);
            lemma_digit_power(before.len());
            lemma_pow2_pos(index as nat);
            lemma2_to64();
            lemma_breakdown(v as int, pow2(index as nat) as int, 64);
            lemma_pow2_adds(index as nat, 6);
            assert(pow2(index as nat) * 64 == pow2((index + 6) as nat));
            assert(digits_value(out@) == digits_value(before) + (digit as nat) * pow2(index as nat));
            assert((digit as nat) * pow2(index as nat) == pow2(index as nat) * (digit as nat))
                by (nonlinear_arith);
        }
        index = index + width;
    }
    proof {
        lemma_pow2_increases(bits as nat, index as nat);
        lemma_small_mod(v, pow2(index as nat));
        assert(out.len() == (bits + 5) / 6) by (nonlinear_arith)
            requires
                index == 6 * out.len(),
                bits <= index,
                index < bits + 6,
        ;
    }
    out
}

/// `v < a · b` gives `v / a < b`.
proof fn lemma_div_by_multiple_is_strongly_ordered_wrap(v: nat, a: nat, b: nat)
    requires
        a > 0,
        v < a * b,
    ensures
        v / a < b,
{
    lemma_fundamental_div_mod(v as int, a as int);
    lemma_mod_bound(v as int, a as int);
    if v / a >= b {
        assert(a * (v / a) >= a * b) by (nonlinear_arith)
            requires
                v / a >= b,
                a > 0,
        ;
    }
}


/// `2^a <= 2^b` for `a <= b`.
proof fn lemma_pow2_increases(a: nat, b: nat)
    requires
        a <= b,
    ensures
        pow2(a) <= pow2(b),
{
    if a < b {
        lemma_pow2_strictly_increases(a, b);
    }
}


/// Entry `d` of row `i` in a row-major table of `width`-limb entries.
pub open spec fn entry_of(row: Seq<Limb>, d: int, width: int) -> Seq<Limb> {
    row.subrange(d * width, d * width + width)
}

/// What entry `d` of window `i` holds: `base^(d · 64^i)` in Montgomery
/// form, `base^(d · 64^i) · R mod N`.
pub open spec fn entry_value(base: nat, n: nat, r: nat, i: nat, d: nat) -> nat {
    (power(base, d * power(64, i)) * r) % n
}

/// Precomputed powers of a fixed base: entry `[i][d]` equals
/// `base^(d · 2^(6 i))`, held in Montgomery form in a row of `64 × width`
/// limbs.
pub struct WindowTable {
    rows: Vec<Vec<Limb>>,
    form: Montgomery,
    base: Ghost<nat>,
}

impl WindowTable {
    /// The base, reduced modulo `N`.
    pub closed spec fn base_value(&self) -> nat {
        self.base@
    }

    /// The modulus `N`.
    pub closed spec fn modulus_value(&self) -> nat {
        self.form.modulus_value()
    }

    /// The width of an entry, in limbs.
    pub closed spec fn width_value(&self) -> nat {
        self.form.width()
    }

    /// The number of windows.
    pub closed spec fn window_total(&self) -> nat {
        self.rows.len() as nat
    }

    /// Every row holds the powers of `base` its window needs, in Montgomery
    /// form, under a well-formed Montgomery context.
    pub closed spec fn wf(&self) -> bool {
        let k = self.form.width() as int;
        &&& self.form.wf()
        &&& self.form.modulus_value() > 1
        &&& k <= 0x0100_0000
        &&& self.base@ < self.form.modulus_value()
        &&& forall|i: int| #![trigger self.rows@[i]] 0 <= i < self.rows.len() ==> {
            &&& self.rows@[i]@.len() == 64 * k
            &&& forall|d: int|
                0 <= d < 64 ==> limbs_value(#[trigger] entry_of(self.rows@[i]@, d, k))
                    == entry_value(
                    self.base@,
                    self.form.modulus_value(),
                    self.form.radix_value(),
                    i as nat,
                    d as nat,
                )
        }
    }

    /// The number of windows, i.e. the exponent length in digits.
    pub fn windows(&self) -> (count: usize)
        ensures
            count == self.window_total(),
    {
        self.rows.len()
    }

    /// Entry width in limbs: the width of the modulus, which
    /// `build_window_table` states.
    pub fn entry_width(&self) -> (width: usize)
        ensures
            width == self.width_value(),
    {
        self.form.limbs()
    }
}


/// Places one entry into a row.
fn put(row: &mut [Limb], entry: usize, width: usize, value: &[Limb])
    requires
        value.len() == width,
        entry * width + width <= old(row).len(),
    ensures
        final(row).len() == old(row).len(),
        forall|j: int|
            0 <= j < old(row).len() && !(entry * width <= j < entry * width + width)
                ==> final(row)@[j] == old(row)@[j],
        entry_of(final(row)@, entry as int, width as int) == value@,
{
    let start = entry * width;
    let mut t: usize = 0;
    while t < width
        invariant
            start == entry * width,
            start + width <= row.len(),
            row.len() == old(row).len(),
            value.len() == width,
            t <= width,
            forall|j: int|
                0 <= j < row.len() && !(start <= j < start + t) ==> row@[j] == old(row)@[j],
            forall|j: int| 0 <= j < t ==> row@[start + j] == value@[j],
        decreases width - t,
    {
        row[start + t] = value[t];
        t = t + 1;
    }
    proof {
        assert(entry_of(row@, entry as int, width as int) =~= value@);
    }
}

/// The mask for one entry: all ones when it is the wanted one.
proof fn lemma_select_mask(entry: u32, digit: u32)
    requires
        entry < 64,
        digit < 256,
    ensures
        ((entry ^ digit).wrapping_sub(1) >> 31u32) == if entry == digit { 1u32 } else { 0u32 },
{
    let difference = entry ^ digit;
    assert(entry < 64 && digit < 256 ==> (entry ^ digit) < 256) by (bit_vector);
    assert((entry ^ digit) == 0 <==> entry == digit) by (bit_vector);
    if difference == 0 {
        assert(difference.wrapping_sub(1) == 0xffff_ffffu32);
        assert(0xffff_ffffu32 >> 31u32 == 1u32) by (bit_vector);
    } else {
        assert(difference.wrapping_sub(1) == difference - 1);
        let x = (difference - 1) as u32;
        assert(x < 256 ==> (x >> 31u32) == 0u32) by (bit_vector);
    }
}

/// Puts entry number `digit` into `out`, having read the whole row: the
/// mask comes from arithmetic on `entry ^ digit`, and every entry is read.
/// A digit past the row selects nothing: `out` comes back all zero.
fn select_entry(row: &[Limb], width: usize, digit: u8, out: &mut [Limb])
    requires
        row.len() == 64 * width,
        old(out).len() == width,
        width <= 0x0100_0000,
    ensures
        final(out).len() == width,
        digit < 64 ==> final(out)@ == entry_of(row@, digit as int, width as int),
        digit >= 64 ==> final(out)@ == Seq::new(width as nat, |j: int| 0u64),
{
    let mut t: usize = 0;
    while t < width
        invariant
            out.len() == width,
            t <= width,
            forall|j: int| 0 <= j < t ==> out@[j] == 0,
        decreases width - t,
    {
        out[t] = 0;
        t = t + 1;
    }
    let mut entry: usize = 0;
    while entry < ROW_ENTRIES
        invariant
            row.len() == 64 * width,
            out.len() == width,
            width <= 0x0100_0000,
            entry <= 64,
            forall|j: int|
                0 <= j < width ==> out@[j] == if (digit as int) < entry {
                    row@[digit * width + j]
                } else {
                    0u64
                },
        decreases 64 - entry,
    {
        let difference = (entry as u32) ^ (digit as u32);
        let is_wanted = (difference.wrapping_sub(1) >> 31) as Limb;
        let mask = 0_u64.wrapping_sub(is_wanted);
        proof {
            lemma_select_mask(entry as u32, digit as u32);
            assert(mask == if entry == digit as usize { 0xffff_ffff_ffff_ffffu64 } else { 0u64 });
            assert(entry * width + width <= 64 * width) by (nonlinear_arith)
                requires
                    entry < 64,
            ;
        }
        let start = entry * width;
        let mut t: usize = 0;
        while t < width
            invariant
                row.len() == 64 * width,
                out.len() == width,
                start == entry * width,
                start + width <= row.len(),
                entry < 64,
                mask == if entry == digit as usize { 0xffff_ffff_ffff_ffffu64 } else { 0u64 },
                t <= width,
                forall|j: int|
                    0 <= j < t ==> out@[j] == if (digit as int) < entry + 1 {
                        row@[digit * width + j]
                    } else {
                        0u64
                    },
                forall|j: int|
                    t <= j < width ==> out@[j] == if (digit as int) < entry {
                        row@[digit * width + j]
                    } else {
                        0u64
                    },
            decreases width - t,
        {
            let x = out[t];
            let y = row[start + t];
            proof {
                assert(x | (y & 0u64) == x) by (bit_vector);
                assert(0u64 | (y & 0xffff_ffff_ffff_ffffu64) == y) by (bit_vector);
            }
            out[t] = x | (y & mask);
            t = t + 1;
        }
        entry = entry + 1;
    }
    proof {
        if digit < 64 {
            let e = entry_of(row@, digit as int, width as int);
            assert((digit as int) * (width as int) + (width as int) <= 64 * width) by (nonlinear_arith)
                requires
                    digit < 64,
            ;
            assert(e.len() == width);
            assert forall|j: int| 0 <= j < width implies out@[j] == e[j] by {
                assert(e[j] == row@[(digit as int) * (width as int) + j]);
                assert(out@[j] == row@[digit * width + j]);
            }
            assert(out@ =~= e);
        } else {
            assert(out@ =~= Seq::new(width as nat, |j: int| 0u64));
        }
    }
}


/// A Montgomery product of two powers in Montgomery form is the power of
/// the sum of exponents, still in Montgomery form.
proof fn lemma_mont_product(p1: nat, p2: nat, r: nat, rinv: nat, n: nat)
    requires
        n > 0,
        (r * rinv) % n == 1nat % n,
    ensures
        (((p1 * r) % n) * ((p2 * r) % n) * rinv) % n == (p1 * p2 * r) % n,
{
    let a = p1 * r;
    let b = p2 * r;
    lemma_mul_mod(a, b, n);
    lemma_mul_mod((a % n) * (b % n), rinv, n);
    lemma_mul_mod(a * b, rinv, n);
    assert(a * b * rinv == (p1 * p2 * r) * (r * rinv)) by (nonlinear_arith)
        requires
            a == p1 * r,
            b == p2 * r,
    ;
    lemma_mul_mod(p1 * p2 * r, r * rinv, n);
    lemma_mul_mod(p1 * p2 * r, 1, n);
    if n > 1 {
        lemma_small_mod(1, n);
    }
}

/// Leaving Montgomery form: `((p · R mod N) · R^{-1}) mod N = p mod N`.
proof fn lemma_mont_exit(p: nat, r: nat, rinv: nat, n: nat)
    requires
        n > 0,
        (r * rinv) % n == 1nat % n,
    ensures
        (((p * r) % n) * rinv) % n == p % n,
{
    lemma_mul_mod(p * r, rinv, n);
    assert(p * r * rinv == p * (r * rinv)) by (nonlinear_arith);
    lemma_mul_mod(p, r * rinv, n);
    lemma_mul_mod(p, 1, n);
    if n > 1 {
        lemma_small_mod(1, n);
    }
}

/// The value of a prefix of digits grows by one weighted digit.
proof fn lemma_digits_value_take(d: Seq<u8>, w: int)
    requires
        0 <= w < d.len(),
    ensures
        digits_value(d.take(w + 1)) == digits_value(d.take(w)) + (d[w] as nat) * power(64, w as nat),
{
    assert(d.take(w + 1).drop_last() =~= d.take(w));
}

/// `hs^r mod N` from a prepared table: one Montgomery multiplication at
/// every window, zero digits included, each entry read through a mask
/// over its whole row.
pub fn pow_by_table(table: &WindowTable, digits: &[u8]) -> (result: Natural)
    requires
        table.wf(),
        digits.len() <= table.window_total(),
        forall|i: int| 0 <= i < digits.len() ==> digits@[i] < 64,
    ensures
        result@ == power(table.base_value(), digits_value(digits@)) % table.modulus_value(),
{
    let form = &table.form;
    let width = form.limbs();
    let ghost n = form.modulus_value();
    let ghost r = form.radix_value();
    let ghost rinv = form.radix_inverse_value();
    let ghost b0 = table.base@;
    proof {
        form.lemma_wf();
        crate::arith::lemma_radix_inverse(n, width as nat);
    }
    let mut work = Work::new(width);
    let mut selected: Vec<Limb> = vec![0; width];
    let mut product: Vec<Limb> = vec![0; width];
    let mut result: Vec<Limb> = copy_limbs(form.one());
    proof {
        assert(digits@.take(0) =~= Seq::<u8>::empty());
        assert(power(b0, 0) == 1);
        assert(power(b0, 0) * r == r);
        crate::arith::lemma_mul_mod(1, r, n);
    }
    let mut window: usize = 0;
    while window < digits.len()
        invariant
            table.wf(),
            form == &table.form,
            width == form.width(),
            n == form.modulus_value(),
            r == form.radix_value(),
            rinv == form.radix_inverse_value(),
            (r * rinv) % n == 1nat % n,
            n > 1,
            b0 == table.base@,
            digits.len() <= table.rows.len(),
            forall|i: int| 0 <= i < digits.len() ==> digits@[i] < 64,
            window <= digits.len(),
            work.fits(width as nat),
            selected.len() == width,
            product.len() == width,
            result.len() == width,
            limbs_value(result@) == (power(b0, digits_value(digits@.take(window as int))) * r) % n,
        decreases digits.len() - window,
    {
        let digit = digits[window];
        let row = &table.rows[window];
        proof {
            assert(row@.len() == 64 * width);
        }
        select_entry(row.as_slice(), width, digit, selected.as_mut_slice());
        let ghost e1 = digits_value(digits@.take(window as int));
        let ghost e2 = (digit as nat) * power(64, window as nat);
        proof {
            assert(limbs_value(entry_of(row@, digit as int, width as int)) == entry_value(
                b0,
                n,
                r,
                window as nat,
                digit as nat,
            ));
            crate::limbs::lemma_radix_facts(width as nat);
            lemma_mod_bound((power(b0, e1) * r) as int, n as int);
            lemma_mod_bound((power(b0, e2) * r) as int, n as int);
        }
        form.mul(result.as_slice(), selected.as_slice(), product.as_mut_slice(), &mut work);
        proof {
            lemma_mont_product(power(b0, e1), power(b0, e2), r, rinv, n);
            lemma_power_adds(b0, e1, e2);
            lemma_digits_value_take(digits@, window as int);
        }
        std::mem::swap(&mut result, &mut product);
        window = window + 1;
    }
    proof {
        assert(digits@.take(digits.len() as int) =~= digits@);
        lemma_mod_bound((power(b0, digits_value(digits@)) * r) as int, n as int);
        lemma_mont_exit(power(b0, digits_value(digits@)), r, rinv, n);
    }
    form.leave(result.as_slice(), &mut work)
}

/// A fresh vector with the same limbs.
fn copy_limbs(src: &[Limb]) -> (out: Vec<Limb>)
    ensures
        out@ == src@,
{
    let mut out: Vec<Limb> = Vec::new();
    let mut i: usize = 0;
    while i < src.len()
        invariant
            i <= src.len(),
            out@ == src@.take(i as int),
        decreases src.len() - i,
    {
        out.push(src[i]);
        i = i + 1;
        proof {
            assert(out@ =~= src@.take(i as int));
        }
    }
    proof {
        assert(src@.take(src.len() as int) =~= src@);
    }
    out
}


/// The `d`-th power of a reduced base, reduced, entered into Montgomery
/// form, is the table entry for that window and digit.
proof fn lemma_entry(b0: nat, base: nat, i: nat, d: nat, value: nat, r: nat, n: nat)
    requires
        n > 0,
        base == power(b0, power(64, i)) % n,
        value == power(base, d) % n,
    ensures
        ((value * r) % n) == entry_value(b0, n, r, i, d),
{
    crate::arith::lemma_power_mod_noop(power(b0, power(64, i)), d, n);
    lemma_power_multiplies(b0, power(64, i), d);
    assert(power(64, i) * d == d * power(64, i)) by (nonlinear_arith);
    lemma_mul_mod(power(b0, d * power(64, i)), r, n);
    lemma_mul_mod(value, r, n);
    lemma_mod_twice(power(b0, d * power(64, i)) as int, n as int);
}

/// Entries of a row other than the one just written keep their values.
proof fn lemma_put_keeps(old_row: Seq<Limb>, new_row: Seq<Limb>, e: int, d: int, w: int)
    requires
        0 <= d < 64,
        0 <= e < 64,
        d != e,
        w >= 0,
        old_row.len() == 64 * w,
        new_row.len() == old_row.len(),
        forall|j: int|
            0 <= j < old_row.len() && !(e * w <= j < e * w + w) ==> new_row[j] == old_row[j],
    ensures
        entry_of(new_row, d, w) == entry_of(old_row, d, w),
{
    assert(d * w + w <= 64 * w) by (nonlinear_arith)
        requires
            d < 64,
            w >= 0,
    ;
    assert forall|t: int| 0 <= t < w implies #[trigger] new_row[d * w + t] == old_row[d * w + t] by {
        if d < e {
            assert(d * w + t < e * w) by (nonlinear_arith)
                requires
                    0 <= d < e,
                    0 <= t < w,
            ;
        } else {
            assert(d * w + t >= e * w + w) by (nonlinear_arith)
                requires
                    d > e,
                    e >= 0,
                    t >= 0,
                    w >= 0,
            ;
        }
    }
    assert forall|t: int| 0 <= t < w implies #[trigger] entry_of(new_row, d, w)[t] == entry_of(old_row, d, w)[t] by {
        assert(new_row[d * w + t] == old_row[d * w + t]);
    }
    assert(entry_of(new_row, d, w) =~= entry_of(old_row, d, w));
}

/// Builds the table of `windows` rows for the base `hs` modulo an odd
/// `nn > 1`. Entry zero of every row holds `R mod nn`, one in Montgomery
/// form, in a buffer as wide as any other entry.
pub fn build_window_table(hs: &Natural, nn: &Natural, windows: usize) -> (table: WindowTable)
    requires
        nn@ > 1,
        nn@ % 2 == 1,
        nn@ < radix(0x0100_0000),
    ensures
        table.wf(),
        table.base_value() == hs@ % nn@,
        table.modulus_value() == nn@,
        table.window_total() == windows,
        table.width_value() > 0,
        radix((table.width_value() - 1) as nat) <= nn@ < radix(table.width_value()),
{
    proof {
        crate::limbs::lemma_radix_monotone(0x0100_0000, (crate::bignum::MAX_LIMBS / 2) as nat);
    }
    let form = match Montgomery::new(&Signed::from_natural(nn.duplicate())) {
        Some(form) => form,
        None => {
            proof {
                assert(false);
            }
            vstd::pervasive::unreached()
        },
    };
    let width = form.limbs();
    let ghost n = nn@;
    let ghost r = form.radix_value();
    proof {
        form.lemma_wf();
        if width > 0x0100_0000 {
            crate::limbs::lemma_radix_monotone(0x0100_0000, (width - 1) as nat);
        }
    }
    let mut work = Work::new(width);
    let mut rows: Vec<Vec<Limb>> = Vec::new();
    let mut base = nat_rem(hs, nn);
    let ghost b0 = base@;
    proof {
        lemma_mod_bound(hs@ as int, n as int);
        crate::arith::lemma_power_one_exponent(b0);
        lemma_small_mod(b0, n);
        assert(power(64, 0) == 1);
    }
    let mut i: usize = 0;
    while i < windows
        invariant
            form.wf(),
            form.modulus_value() == n,
            n == nn@,
            n < radix(0x0100_0000),
            n > 1,
            width == form.width(),
            width <= 0x0100_0000,
            r == form.radix_value(),
            work.fits(width as nat),
            b0 < n,
            i <= windows,
            rows.len() == i,
            base@ == power(b0, power(64, i as nat)) % n,
            forall|j: int| #![trigger rows@[j]] 0 <= j < i ==> {
                &&& rows@[j]@.len() == 64 * width
                &&& forall|d: int|
                    0 <= d < 64 ==> limbs_value(#[trigger] entry_of(rows@[j]@, d, width as int))
                        == entry_value(b0, n, r, j as nat, d as nat)
            },
        decreases windows - i,
    {
        let mut row: Vec<Limb> = vec![0; ROW_ENTRIES * width];
        proof {
            lemma_mod_bound(
                power(b0, power(64, i as nat)) as int,
                n as int,
            );
        }
        put(row.as_mut_slice(), 0, width, form.one());
        proof {
            assert(power(base@, 0) == 1);
            lemma_small_mod(1, n);
            lemma_entry(b0, base@, i as nat, 0, 1, r, n);
            assert(1 * r == r);
        }
        let mut value = base.duplicate();
        let entered = form.enter(&value, &mut work);
        let ghost row0 = row@;
        put(row.as_mut_slice(), 1, width, entered.as_slice());
        proof {
            crate::arith::lemma_power_one_exponent(base@);
            lemma_small_mod(base@, n);
            lemma_entry(b0, base@, i as nat, 1, value@, r, n);
            lemma_put_keeps(row0, row@, 1, 0, width as int);
        }
        let mut entry: usize = 2;
        while entry < ROW_ENTRIES
            invariant
                form.wf(),
                form.modulus_value() == n,
                n == nn@,
                n < radix(0x0100_0000),
                n > 1,
                width == form.width(),
                width <= 0x0100_0000,
                r == form.radix_value(),
                work.fits(width as nat),
                2 <= entry <= 64,
                row.len() == 64 * width,
                base@ == power(b0, power(64, i as nat)) % n,
                value@ == power(base@, (entry - 1) as nat) % n,
                forall|d: int|
                    0 <= d < entry ==> limbs_value(#[trigger] entry_of(row@, d, width as int))
                        == entry_value(b0, n, r, i as nat, d as nat),
            decreases 64 - entry,
        {
            let ghost previous = value@;
            proof {
                lemma_mod_bound(power(base@, (entry - 1) as nat) as int, n as int);
                lemma_mod_bound(power(b0, power(64, i as nat)) as int, n as int);
                crate::bignum::lemma_product_fits(value@, base@, 0x0100_0000);
            }
            value = nat_rem(&nat_mul(&value, &base), nn);
            proof {
                lemma_mul_mod(power(base@, (entry - 1) as nat), base@, n);
                lemma_small_mod(base@, n);
                lemma_mod_bound(power(b0, power(64, i as nat)) as int, n as int);
                assert(power(base@, entry as nat) == base@ * power(base@, (entry - 1) as nat));
                assert(power(base@, (entry - 1) as nat) * base@ == base@ * power(base@, (entry - 1) as nat))
                    by (nonlinear_arith);
                lemma_mul_mod(power(base@, (entry - 1) as nat), base@, n);
                assert((previous * base@) % n == (power(base@, (entry - 1) as nat) * (base@ % n)) % n);
            }
            let in_form = form.enter(&value, &mut work);
            proof {
                assert(entry * width + width <= 64 * width) by (nonlinear_arith)
                    requires
                        entry < 64,
                ;
            }
            let ghost before = row@;
            put(row.as_mut_slice(), entry, width, in_form.as_slice());
            proof {
                lemma_entry(b0, base@, i as nat, entry as nat, value@, r, n);
                assert forall|d: int|
                    0 <= d < entry + 1 implies limbs_value(#[trigger] entry_of(row@, d, width as int))
                    == entry_value(b0, n, r, i as nat, d as nat) by {
                    if d < entry {
                        lemma_put_keeps(before, row@, entry as int, d, width as int);
                    }
                }
            }
            entry = entry + 1;
        }
        let ghost pushed = row@;
        rows.push(row);
        proof {
            assert(rows@[i as int]@ == pushed);
        }
        // The base for the next window: `base^(2^6)`.
        let mut square: usize = 0;
        proof {
            assert(power(2, 0) == 1);
            assert(power(64, i as nat) * 1 == power(64, i as nat));
        }
        while square < WINDOW_BITS as usize
            invariant
                square <= 6,
                n == nn@,
                n < radix(0x0100_0000),
                n > 1,
                base@ == power(b0, power(64, i as nat) * power(2, square as nat)) % n,
            decreases 6 - square,
        {
            let ghost e = power(64, i as nat) * power(2, square as nat);
            proof {
                lemma_mod_bound(power(b0, e) as int, n as int);
                crate::bignum::lemma_product_fits(base@, base@, 0x0100_0000);
            }
            base = nat_rem(&nat_mul(&base, &base), nn);
            proof {
                lemma_mul_mod(power(b0, e), power(b0, e), n);
                lemma_power_adds(b0, e, e);
                assert(power(2, (square + 1) as nat) == 2 * power(2, square as nat));
                assert(e + e == power(64, i as nat) * power(2, (square + 1) as nat)) by (nonlinear_arith)
                    requires
                        e == power(64, i as nat) * power(2, square as nat),
                        power(2, (square + 1) as nat) == 2 * power(2, square as nat),
                ;
            }
            square = square + 1;
        }
        proof {
            crate::arith::lemma_power_is_pow(2, 6);
            vstd::arithmetic::power::lemma_pow_adds(2, 3, 3);
            assert(power(2, 6) == 64) by {
                reveal_with_fuel(power, 7);
            }
            assert(power(64, (i + 1) as nat) == 64 * power(64, i as nat));
            assert(power(64, i as nat) * 64 == 64 * power(64, i as nat)) by (nonlinear_arith);
        }
        i = i + 1;
    }
    WindowTable { rows, form, base: Ghost(b0) }
}

} // verus!
