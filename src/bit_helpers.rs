//! Bit access on 32-byte little-endian encodings, and powers of two as field
//! elements.
use vstd::prelude::*;
use vstd::arithmetic::power2::{pow2, lemma_pow2_unfold, lemma_pow2_adds, lemma_pow2_pos};
use vstd::arithmetic::div_mod::{
    lemma_div_denominator, lemma_div_multiples_vanish_fancy, lemma_fundamental_div_mod,
    lemma_fundamental_div_mod_converse, lemma_mod_breakdown, lemma_mod_mod,
};
use crate::field::bytes_value;
use vstd::bits::lemma_u8_shr_is_div;
use crate::field::{FieldElement, group_order, fmod};

verus! {

/// Bit `i` of a little-endian byte sequence, bit 0 being the least significant
/// bit of byte 0.
pub open spec fn bit_of(s: Seq<u8>, i: int) -> nat {
    ((s[i / 8] as nat / pow2((i % 8) as nat)) % 2) as nat
}

/// The sum of bits `lo .. hi` of a byte sequence.
pub open spec fn bits_sum(s: Seq<u8>, lo: int, hi: int) -> nat
    decreases hi - lo,
{
    if hi <= lo {
        0
    } else {
        bits_sum(s, lo, hi - 1) + bit_of(s, hi - 1)
    }
}

proof fn lemma_byte_bit(b: u8, k: u8)
    requires
        k < 8,
    ensures
        ((b >> k) & 1u8) as nat == (b as nat / pow2(k as nat)) % 2,
{
    lemma_u8_shr_is_div(b, k);
    let s = b >> k;
    assert(s & 1u8 == s % 2) by (bit_vector);
}

/// Returns bit `i` of `bits`, where bit 0 is the least significant bit of
/// byte 0 and bit 255 the most significant bit of byte 31.
pub fn get_bit(bits: [u8; 32], i: usize) -> (r: u8)
    requires
        i < 256,
    ensures
        r as nat == bit_of(bits@, i as int),
        r <= 1,
{
    let k: u8 = (i % 8) as u8;
    proof {
        lemma_byte_bit(bits[i as int / 8], k);
        let s = bits[i as int / 8] >> k;
        assert(s & 1u8 <= 1u8) by (bit_vector);
    }
    (bits[i / 8] >> k) & 1
}

/// Sets bit `i` of `bits` to the low bit of `b`, leaving every other bit as it was.
pub fn set_bit(bits: &mut [u8; 32], i: usize, b: u8)
    requires
        i < 256,
    ensures
        forall|j: int| 0 <= j < 256 && j != i ==> bit_of(final(bits)@, j) == bit_of(old(bits)@, j),
        bit_of(final(bits)@, i as int) == (b % 2) as nat,
        forall|q: int| 0 <= q < 32 && q != i / 8 ==> final(bits)@[q] == old(bits)@[q],
{
    let k: u8 = (i % 8) as u8;
    let old_byte: u8 = bits[i / 8];
    let new_byte: u8 = (old_byte & !(1u8 << k)) | ((b & 1) << k);
    bits[i / 8] = new_byte;
    proof {
        assert forall|j: int| 0 <= j < 256 && j != i implies bit_of(bits@, j) == bit_of(old(bits)@, j) by {
            if j / 8 == i / 8 {
                let m = (j % 8) as u8;
                assert(m != k);
                lemma_byte_bit(new_byte, m);
                lemma_byte_bit(old_byte, m);
                assert(((new_byte >> m) & 1u8) == ((old_byte >> m) & 1u8)) by (bit_vector)
                    requires
                        new_byte == (old_byte & !(1u8 << k)) | ((b & 1) << k),
                        m < 8,
                        k < 8,
                        m != k,
                ;
            }
        }
        lemma_byte_bit(new_byte, k);
        assert(((new_byte >> k) & 1u8) == b % 2) by (bit_vector)
            requires
                new_byte == (old_byte & !(1u8 << k)) | ((b & 1) << k),
                k < 8,
        ;
    }
}

/// Returns the sum of the `n` most significant bits of `bits`; the sum must fit
/// in a byte.
pub fn sum_last_n_bits(bits: [u8; 32], n: usize) -> (r: u8)
    requires
        n <= 256,
        bits_sum(bits@, 256 - n, 256) <= 255,
    ensures
        r as nat == bits_sum(bits@, 256 - n, 256),
{
    let mut i: usize = 256 - n;
    let mut sum: u8 = 0;
    while i < 256
        invariant
            256 - n <= i <= 256,
            n <= 256,
            bits_sum(bits@, 256 - n, 256) <= 255,
            sum as nat == bits_sum(bits@, 256 - n, i as int),
        decreases 256 - i,
    {
        let bit = get_bit(bits, i);
        proof {
            lemma_bits_sum_monotone(bits@, 256 - n, i as int + 1, 256);
        }
        sum = sum + bit;
        i = i + 1;
    }
    sum
}

/// A sum of bits is at most their number.
pub proof fn lemma_bits_sum_bound(s: Seq<u8>, lo: int, hi: int)
    requires
        lo <= hi,
        0 <= lo,
        hi <= 8 * s.len(),
    ensures
        bits_sum(s, lo, hi) <= hi - lo,
    decreases hi - lo,
{
    if lo < hi {
        lemma_bits_sum_bound(s, lo, hi - 1);
        let i = hi - 1;
        assert(bit_of(s, i) <= 1) by {
            vstd::arithmetic::div_mod::lemma_mod_bound((s[i / 8] as nat / pow2((i % 8) as nat)) as int, 2);
        }
    }
}

proof fn lemma_bits_sum_monotone(s: Seq<u8>, lo: int, mid: int, hi: int)
    requires
        lo <= mid <= hi,
    ensures
        bits_sum(s, lo, mid) <= bits_sum(s, lo, hi),
    decreases hi - mid,
{
    if mid < hi {
        lemma_bits_sum_monotone(s, lo, mid, hi - 1);
    }
}

/// Returns 2^n as a field element.
pub fn get_pow_2(n: usize) -> (r: FieldElement)
    requires
        n <= 252,
    ensures
        r.wf(),
        r.val() == pow2(n as nat),
{
    let mut p = FieldElement::one();
    let mut i: usize = 0;
    proof {
        vstd::arithmetic::power2::lemma2_to64();
    }
    while i < n
        invariant
            i <= n <= 252,
            p.wf(),
            p.val() == pow2(i as nat),
        decreases n - i,
    {
        proof {
            lemma_pow2_le_252((i + 1) as nat);
            lemma_pow2_unfold((i + 1) as nat);
            vstd::arithmetic::div_mod::lemma_small_mod(pow2((i + 1) as nat), group_order());
        }
        p = p.add(&p);
        i = i + 1;
    }
    p
}

proof fn lemma_pow2_le_252(e: nat)
    requires
        e <= 252,
    ensures
        pow2(e) < group_order(),
{
    vstd::arithmetic::power2::lemma_pow2_pos(e);
    if e < 252 {
        vstd::arithmetic::power2::lemma_pow2_strictly_increases(e, 252);
    }
}


proof fn lemma_pow2_8()
    ensures
        pow2(8) == 256,
{
    vstd::arithmetic::power2::lemma2_to64();
}

/// Dividing the value of a byte sequence by `2^(8k)` drops its first `k` bytes.
pub proof fn lemma_bytes_value_shift(s: Seq<u8>, k: nat)
    requires
        k <= s.len(),
    ensures
        (bytes_value(s) as int) / (pow2(8 * k) as int) == bytes_value(s.subrange(k as int, s.len() as int)) as int,
    decreases k,
{
    lemma_pow2_pos(8 * k);
    if k == 0 {
        vstd::arithmetic::power2::lemma2_to64();
        assert(s.subrange(0, s.len() as int) =~= s);
    } else {
        let rest = s.drop_first();
        lemma_bytes_value_shift(rest, (k - 1) as nat);
        lemma_pow2_8();
        lemma_pow2_adds(8, 8 * (k - 1) as nat);
        assert(8 + 8 * (k - 1) as nat == 8 * k);
        lemma_pow2_pos(8 * (k - 1) as nat);
        lemma_div_denominator(bytes_value(s) as int, 256, pow2(8 * (k - 1) as nat) as int);
        lemma_div_multiples_vanish_fancy(bytes_value(rest) as int, s[0] as int, 256);
        assert(bytes_value(s) == s[0] as nat + 256 * bytes_value(rest));
        assert(rest.subrange((k - 1) as int, rest.len() as int) =~= s.subrange(k as int, s.len() as int));
    }
}

/// The value of `n` bytes is below `2^(8n)`.
pub proof fn lemma_bytes_value_bound(s: Seq<u8>)
    ensures
        bytes_value(s) < pow2(8 * s.len()),
    decreases s.len(),
{
    if s.len() == 0 {
        vstd::arithmetic::power2::lemma2_to64();
    } else {
        let rest = s.drop_first();
        lemma_bytes_value_bound(rest);
        lemma_pow2_8();
        lemma_pow2_adds(8, 8 * rest.len());
        assert(8 + 8 * rest.len() == 8 * s.len());
        assert(bytes_value(s) == s[0] as nat + 256 * bytes_value(rest));
        assert(bytes_value(rest) + 1 <= pow2(8 * rest.len()));
        assert(256 * (bytes_value(rest) + 1) <= 256 * pow2(8 * rest.len())) by (nonlinear_arith)
            requires bytes_value(rest) + 1 <= pow2(8 * rest.len());
    }
}

/// Bit `i` of a byte sequence is bit `i` of the integer it encodes.
pub proof fn lemma_bit_of_value(s: Seq<u8>, i: nat)
    requires
        i < 8 * s.len(),
    ensures
        bit_of(s, i as int) == (bytes_value(s) / pow2(i)) % 2,
{
    let q = i / 8;
    let r = i % 8;
    lemma_bytes_value_shift(s, q);
    let tail = s.subrange(q as int, s.len() as int);
    let rest = tail.drop_first();
    lemma_pow2_adds(8 * q, r);
    assert(8 * q + r == i);
    lemma_pow2_pos(8 * q);
    lemma_pow2_pos(r);
    lemma_div_denominator(bytes_value(s) as int, pow2(8 * q) as int, pow2(r) as int);
    let v = bytes_value(tail) as int;
    assert(v == tail[0] as int + 256 * bytes_value(rest));
    let p = pow2(r) as int;
    let h = pow2((8 - r) as nat) as int;
    lemma_pow2_adds(r, (8 - r) as nat);
    lemma_pow2_8();
    assert(p * h == 256);
    let b = tail[0] as int;
    lemma_fundamental_div_mod(b, p);
    let t = (b / p);
    assert(v == p * (h * bytes_value(rest) + t) + b % p) by (nonlinear_arith)
        requires v == b + 256 * bytes_value(rest), p * h == 256, b == p * t + b % p;
    vstd::arithmetic::div_mod::lemma_mod_pos_bound(b, p);
    lemma_div_multiples_vanish_fancy(h * bytes_value(rest) + t, b % p, p);
    lemma_pow2_adds(1, (7 - r) as nat);
    vstd::arithmetic::power2::lemma2_to64();
    let h2 = pow2((7 - r) as nat) as int;
    assert(h == 2 * h2);
    lemma_fundamental_div_mod(t, 2);
    assert(h * bytes_value(rest) + t == 2 * (h2 * bytes_value(rest) + t / 2) + t % 2) by (nonlinear_arith)
        requires h == 2 * h2, t == 2 * (t / 2) + t % 2;
    vstd::arithmetic::div_mod::lemma_mod_pos_bound(t, 2);
    lemma_fundamental_div_mod_converse(h * bytes_value(rest) + t, 2, h2 * bytes_value(rest) + t / 2, t % 2);
    assert(tail[0] == s[i as int / 8]);
}

/// The top byte of a 32-byte encoding is nonzero exactly when its value is at
/// least `2^248`, and then the sum of its 8 top bits is nonzero.
pub proof fn lemma_top_byte(s: Seq<u8>)
    requires
        s.len() == 32,
    ensures
        (bits_sum(s, 248, 256) != 0) <==> bytes_value(s) >= pow2(248),
{
    lemma_bytes_value_shift(s, 31);
    assert(8 * 31nat == 248);
    let tail = s.subrange(31, 32);
    assert(tail.drop_first() =~= Seq::<u8>::empty());
    assert(bytes_value(Seq::<u8>::empty()) == 0);
    assert(tail[0] == s[31]);
    assert(bytes_value(tail) == s[31] as nat);
    lemma_pow2_pos(248);
    let v = bytes_value(s) as int;
    let p = pow2(248) as int;
    lemma_fundamental_div_mod(v, p);
    vstd::arithmetic::div_mod::lemma_mod_pos_bound(v, p);
    assert(v >= p <==> v / p >= 1) by (nonlinear_arith)
        requires v == p * (v / p) + v % p, 0 <= v % p < p, v >= 0, p > 0;
    let b = s[31];
    assert forall|k: int| 248 <= k < 256 implies #[trigger] bit_of(s, k) == ((b >> ((k - 248) as u8)) & 1u8) as nat by {
        lemma_byte_bit(b, (k - 248) as u8);
    }
    reveal_with_fuel(bits_sum, 9);
    assert(((b >> 0u8) & 1u8) + ((b >> 1u8) & 1u8) + ((b >> 2u8) & 1u8) + ((b >> 3u8) & 1u8) + ((b >> 4u8) & 1u8)
        + ((b >> 5u8) & 1u8) + ((b >> 6u8) & 1u8) + ((b >> 7u8) & 1u8) == 0 <==> b == 0) by (bit_vector);
}

} // verus!
