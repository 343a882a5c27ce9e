//! Integer hash functions and the power-of-two arithmetic that the tables
//! use to turn a hash into a slot index.
use vstd::prelude::*;

verus! {

/// `n` is a power of two: non-zero, with a single bit set.
pub open spec fn is_pow2(n: u32) -> bool {
    n != 0 && n & ((n - 1) as u32) == 0
}

/// Masking with `n - 1` keeps every value below `n`, and leaves the values
/// below `n` unchanged, when `n` is a power of two.
pub proof fn lemma_mask(x: u32, n: u32)
    requires
        is_pow2(n),
    ensures
        x & ((n - 1) as u32) < n,
        x < n ==> x & ((n - 1) as u32) == x,
        x == n ==> x & ((n - 1) as u32) == 0,
{
    assert(x & ((n - 1) as u32) < n && (x < n ==> x & ((n - 1) as u32) == x) && (x == n ==> x
        & ((n - 1) as u32) == 0)) by (bit_vector)
        requires
            n != 0,
            n & ((n - 1) as u32) == 0,
    ;
}

/// Doubling a power of two that is at most `2^30` gives a power of two.
pub proof fn lemma_double_pow2(n: u32)
    requires
        is_pow2(n),
        n <= 0x4000_0000,
    ensures
        is_pow2((2 * n) as u32),
{
    assert(is_pow2((2 * n) as u32)) by (bit_vector)
        requires
            n != 0,
            n & ((n - 1) as u32) == 0,
            n <= 0x4000_0000,
    ;
}

/// A power of two that fits a `u32` is at most `2^31`.
pub proof fn lemma_pow2_bound(n: u32)
    requires
        is_pow2(n),
    ensures
        n <= 0x8000_0000,
{
    assert(n <= 0x8000_0000) by (bit_vector)
        requires
            n != 0,
            n & ((n - 1) as u32) == 0,
    ;
}

/// The MurmurHash3 32-bit finaliser.
pub open spec fn murmur_spec(h: u32) -> u32 {
    let a = h ^ (h >> 16u32);
    let b = a.wrapping_mul(0x85eb_ca6bu32);
    let c = b ^ (b >> 13u32);
    let d = c.wrapping_mul(0xc2b2_ae35u32);
    d ^ (d >> 16u32)
}

/// The MurmurHash3 32-bit finaliser, with wrapping multiplication.
pub fn integer_hash(h: u32) -> (r: u32)
    ensures
        r == murmur_spec(h),
{
    let mut h = h;
    h ^= h >> 16u32;
    h = h.wrapping_mul(0x85eb_ca6bu32);
    h ^= h >> 13u32;
    h = h.wrapping_mul(0xc2b2_ae35u32);
    h ^= h >> 16u32;
    h
}

/// The multiply-xorshift hash with constant `0x45d9f3b`.
pub open spec fn xorshift_mul_spec(x: u32) -> u32 {
    let a = (x >> 16u32) ^ x;
    let b = a.wrapping_mul(0x45d_9f3bu32);
    let c = (b >> 16u32) ^ b;
    let d = c.wrapping_mul(0x45d_9f3bu32);
    (d >> 16u32) ^ d
}

/// The multiply-xorshift hash with constant `0x45d9f3b`, with wrapping
/// multiplication.
pub fn integer_hash2(x: u32) -> (r: u32)
    ensures
        r == xorshift_mul_spec(x),
{
    let mut x = x;
    x = (x >> 16u32) ^ x;
    x = x.wrapping_mul(0x45d_9f3bu32);
    x = (x >> 16u32) ^ x;
    x = x.wrapping_mul(0x45d_9f3bu32);
    x = (x >> 16u32) ^ x;
    x
}

/// The smallest power of two that is at least `2 * num`.
///
/// The bit-smearing computation overflows for `num == 0` and for
/// `num > 2^30`, so those inputs are excluded.
pub fn next_power_of_2_double_the(num: u32) -> (r: u32)
    requires
        1 <= num <= 0x4000_0000,
    ensures
        is_pow2(r),
        2 * num <= r,
        r < 4 * num,
        is_pow2(num) ==> r == 2 * num,
{
    let mut v: u32 = num * 2;
    v = v - 1;
    v = v | (v >> 1u32);
    v = v | (v >> 2u32);
    v = v | (v >> 4u32);
    v = v | (v >> 8u32);
    v = v | (v >> 16u32);
    assert(v < 0xffff_ffffu32 && 2 * num <= v + 1 && v + 1 < 4 * num && ((v + 1) as u32) & v == 0) by (bit_vector)
        requires
            1 <= num <= 0x4000_0000,
            v == ({
                let w0 = (num * 2 - 1) as u32;
                let w1 = w0 | (w0 >> 1u32);
                let w2 = w1 | (w1 >> 2u32);
                let w3 = w2 | (w2 >> 4u32);
                let w4 = w3 | (w3 >> 8u32);
                w4 | (w4 >> 16u32)
            }),
    ;
    v = v + 1;
    assert(is_pow2(num) ==> v == 2 * num) by (bit_vector)
        requires
            1 <= num <= 0x4000_0000,
            v != 0,
            v & ((v - 1) as u32) == 0,
            2 * num <= v,
            v < 4 * num,
    ;
    v
}

/// Xoring a value with itself shifted right by `r` (for `r` of 13 or 16)
/// loses nothing.
pub proof fn lemma_xorshift_injective(a: u32, b: u32)
    ensures
        a ^ (a >> 16u32) == b ^ (b >> 16u32) ==> a == b,
        a ^ (a >> 13u32) == b ^ (b >> 13u32) ==> a == b,
        (a >> 16u32) ^ a == (b >> 16u32) ^ b ==> a == b,
{
    assert(a ^ (a >> 16u32) == b ^ (b >> 16u32) ==> a == b) by (bit_vector);
    assert(a ^ (a >> 13u32) == b ^ (b >> 13u32) ==> a == b) by (bit_vector);
    assert((a >> 16u32) ^ a == (b >> 16u32) ^ b ==> a == b) by (bit_vector);
}

/// Wrapping multiplication by an odd constant of the hashes loses nothing:
/// multiplying again by its inverse modulo `2^32` gives the value back.
pub proof fn lemma_mul_injective(a: u32, b: u32)
    ensures
        a.wrapping_mul(0x85eb_ca6bu32) == b.wrapping_mul(0x85eb_ca6bu32) ==> a == b,
        a.wrapping_mul(0xc2b2_ae35u32) == b.wrapping_mul(0xc2b2_ae35u32) ==> a == b,
        a.wrapping_mul(0x45d_9f3bu32) == b.wrapping_mul(0x45d_9f3bu32) ==> a == b,
{
    lemma_mul_inverse(a, 0x85eb_ca6bu32, 0xa5cb_9243u32);
    lemma_mul_inverse(b, 0x85eb_ca6bu32, 0xa5cb_9243u32);
    lemma_mul_inverse(a, 0xc2b2_ae35u32, 0x7ed1_b41du32);
    lemma_mul_inverse(b, 0xc2b2_ae35u32, 0x7ed1_b41du32);
    lemma_mul_inverse(a, 0x45d_9f3bu32, 0x119d_e1f3u32);
    lemma_mul_inverse(b, 0x45d_9f3bu32, 0x119d_e1f3u32);
}

/// Where `c * d` is `1` modulo `2^32`, wrapping multiplication by `c` then
/// by `d` gives `a` back.
pub proof fn lemma_mul_inverse(a: u32, c: u32, d: u32)
    requires
        (c as int * d as int) % 0x1_0000_0000 == 1,
    ensures
        a.wrapping_mul(c).wrapping_mul(d) == a,
{
    let m: int = 0x1_0000_0000;
    let x = a as int * c as int;
    let y = x % m;
    assert(a.wrapping_mul(c) as int == y);
    vstd::arithmetic::div_mod::lemma_mul_mod_noop_left(x, d as int, m);
    assert((y * d) % m == (x * d) % m);
    assert(x * d == a as int * (c as int * d as int)) by (nonlinear_arith)
        requires
            x == a as int * c as int,
    ;
    vstd::arithmetic::div_mod::lemma_mul_mod_noop_right(a as int, c as int * d as int, m);
    vstd::arithmetic::div_mod::lemma_small_mod(a as nat, m as nat);
    assert((a as int * 1) % m == a as int);
}

/// `integer_hash` is injective: every step of the finaliser can be undone,
/// so distinct inputs give distinct hashes.
pub proof fn law_integer_hash_injective(a: u32, b: u32)
    ensures
        murmur_spec(a) == murmur_spec(b) ==> a == b,
{
    let a1 = a ^ (a >> 16u32);
    let b1 = b ^ (b >> 16u32);
    let a2 = a1.wrapping_mul(0x85eb_ca6bu32);
    let b2 = b1.wrapping_mul(0x85eb_ca6bu32);
    let a3 = a2 ^ (a2 >> 13u32);
    let b3 = b2 ^ (b2 >> 13u32);
    let a4 = a3.wrapping_mul(0xc2b2_ae35u32);
    let b4 = b3.wrapping_mul(0xc2b2_ae35u32);
    lemma_xorshift_injective(a4, b4);
    lemma_mul_injective(a3, b3);
    lemma_xorshift_injective(a2, b2);
    lemma_mul_injective(a1, b1);
    lemma_xorshift_injective(a, b);
}

/// `integer_hash2` is injective: every step can be undone, so distinct
/// inputs give distinct hashes.
pub proof fn law_integer_hash2_injective(a: u32, b: u32)
    ensures
        xorshift_mul_spec(a) == xorshift_mul_spec(b) ==> a == b,
{
    let a1 = (a >> 16u32) ^ a;
    let b1 = (b >> 16u32) ^ b;
    let a2 = a1.wrapping_mul(0x45d_9f3bu32);
    let b2 = b1.wrapping_mul(0x45d_9f3bu32);
    let a3 = (a2 >> 16u32) ^ a2;
    let b3 = (b2 >> 16u32) ^ b2;
    let a4 = a3.wrapping_mul(0x45d_9f3bu32);
    let b4 = b3.wrapping_mul(0x45d_9f3bu32);
    lemma_xorshift_injective(a4, b4);
    lemma_mul_injective(a3, b3);
    lemma_xorshift_injective(a2, b2);
    lemma_mul_injective(a1, b1);
    lemma_xorshift_injective(a, b);
}

} // verus!
