//! Bit-level access to report buffers.
//!
//! A report is a string of bytes; its bits are numbered so that bit 0 is the
//! least significant bit of byte 0, bit 8 the least significant bit of byte 1,
//! and so on ("little-endian from the bitstream"). Fields of a report occupy
//! arbitrary, not necessarily byte-aligned, ranges of these bits.

use vstd::prelude::*;

verus! {

use vstd::arithmetic::power2::pow2;
use vstd::arithmetic::power2::lemma_pow2_adds;
use vstd::arithmetic::power2::lemma_pow2_pos;
use vstd::bits::lemma_u32_pow2_no_overflow;
use vstd::bits::lemma_u32_shl_is_mul;

/// Bit `i` of a byte string, bit 0 being the least significant bit of byte 0.
/// Bits outside the string are false.
pub open spec fn bit_of(bytes: Seq<u8>, i: int) -> bool {
    &&& 0 <= i
    &&& i / 8 < bytes.len()
    &&& (bytes[i / 8] >> ((i % 8) as u8)) & 1u8 == 1u8
}

/// Bit `k` of a 32-bit value, bit 0 being the least significant.
/// Bits outside 0..32 are false.
pub open spec fn u32_bit(v: u32, k: int) -> bool {
    &&& 0 <= k < 32
    &&& (v >> (k as u32)) & 1u32 == 1u32
}

/// The unsigned value of the `n` bits starting at bit `start`:
/// bit `start` contributes 1, bit `start + 1` contributes 2, and so on.
pub open spec fn bits_val(bytes: Seq<u8>, start: int, n: nat) -> nat
    decreases n,
{
    if n == 0 {
        0
    } else {
        bits_val(bytes, start, (n - 1) as nat) + if bit_of(bytes, start + n - 1) {
            pow2((n - 1) as nat)
        } else {
            0
        }
    }
}

pub proof fn lemma_bits_val_bound(bytes: Seq<u8>, start: int, n: nat)
    ensures
        bits_val(bytes, start, n) < pow2(n),
    decreases n,
{
    if n == 0 {
        lemma_pow2_pos(0);
    } else {
        lemma_bits_val_bound(bytes, start, (n - 1) as nat);
        lemma_pow2_adds((n - 1) as nat, 1);
        vstd::arithmetic::power2::lemma2_to64();
    }
}

/// Two equal-length byte strings whose bits all agree are equal.
pub proof fn lemma_bytes_eq_by_bits(s1: Seq<u8>, s2: Seq<u8>)
    requires
        s1.len() == s2.len(),
        forall|j: int| 0 <= j < 8 * s1.len() ==> bit_of(s1, j) == bit_of(s2, j),
    ensures
        s1 == s2,
{
    assert forall|k: int| 0 <= k < s1.len() implies s1[k] == s2[k] by {
        assert forall|sh: u8| sh < 8 implies ((s1[k] >> sh) & 1u8 == 1u8) == ((s2[k] >> sh) & 1u8
            == 1u8) by {
            let j = 8 * k + sh;
            assert(j / 8 == k && j % 8 == sh) by {
                vstd::arithmetic::div_mod::lemma_fundamental_div_mod_converse(
                    j,
                    8,
                    k,
                    sh as int,
                );
            }
            assert(bit_of(s1, j) == bit_of(s2, j));
        }
        lemma_u8_eq_by_bits(s1[k], s2[k]);
    }
    assert(s1 =~= s2);
}

proof fn lemma_u8_eq_by_bits(a: u8, b: u8)
    requires
        forall|sh: u8| sh < 8 ==> ((a >> sh) & 1u8 == 1u8) == ((b >> sh) & 1u8 == 1u8),
    ensures
        a == b,
{
    assert(((a >> 0u8) & 1u8 == 1u8) == ((b >> 0u8) & 1u8 == 1u8));
    assert(((a >> 1u8) & 1u8 == 1u8) == ((b >> 1u8) & 1u8 == 1u8));
    assert(((a >> 2u8) & 1u8 == 1u8) == ((b >> 2u8) & 1u8 == 1u8));
    assert(((a >> 3u8) & 1u8 == 1u8) == ((b >> 3u8) & 1u8 == 1u8));
    assert(((a >> 4u8) & 1u8 == 1u8) == ((b >> 4u8) & 1u8 == 1u8));
    assert(((a >> 5u8) & 1u8 == 1u8) == ((b >> 5u8) & 1u8 == 1u8));
    assert(((a >> 6u8) & 1u8 == 1u8) == ((b >> 6u8) & 1u8 == 1u8));
    assert(((a >> 7u8) & 1u8 == 1u8) == ((b >> 7u8) & 1u8 == 1u8));
    assert(a == b) by (bit_vector)
        requires
            ((a >> 0u8) & 1u8 == 1u8) == ((b >> 0u8) & 1u8 == 1u8),
            ((a >> 1u8) & 1u8 == 1u8) == ((b >> 1u8) & 1u8 == 1u8),
            ((a >> 2u8) & 1u8 == 1u8) == ((b >> 2u8) & 1u8 == 1u8),
            ((a >> 3u8) & 1u8 == 1u8) == ((b >> 3u8) & 1u8 == 1u8),
            ((a >> 4u8) & 1u8 == 1u8) == ((b >> 4u8) & 1u8 == 1u8),
            ((a >> 5u8) & 1u8 == 1u8) == ((b >> 5u8) & 1u8 == 1u8),
            ((a >> 6u8) & 1u8 == 1u8) == ((b >> 6u8) & 1u8 == 1u8),
            ((a >> 7u8) & 1u8 == 1u8) == ((b >> 7u8) & 1u8 == 1u8),
    ;
}

/// Bit `k` of the value of an `n`-bit range is the bit at `start + k`.
pub proof fn lemma_bits_val_bit(bytes: Seq<u8>, start: int, n: nat, k: int)
    requires
        n <= 32,
        0 <= k < n,
    ensures
        u32_bit(bits_val(bytes, start, n) as u32, k) == bit_of(bytes, start + k),
    decreases n,
{
    lemma_bits_val_bound(bytes, start, n);
    let v_full = bits_val(bytes, start, n);
    let vlo = bits_val(bytes, start, (n - 1) as nat);
    lemma_bits_val_bound(bytes, start, (n - 1) as nat);
    lemma_u32_pow2_no_overflow((n - 1) as nat);
    assert(v_full < 0x1_0000_0000) by {
        if n < 32 {
            vstd::arithmetic::power2::lemma_pow2_strictly_increases(n, 32);
        }
        vstd::arithmetic::power2::lemma2_to64();
        vstd::arithmetic::power2::lemma2_to64_rest();
    }
    let x = vlo as u32;
    let y = v_full as u32;
    assert(x as nat == vlo && y as nat == v_full);
    let m = (n - 1) as u32;
    assert(pow2((n - 1) as nat) == (1u32 << m)) by {
        lemma_u32_shl_is_mul(1u32, m);
    }
    assert(x < (1u32 << m));
    if bit_of(bytes, start + n - 1) {
        assert(y == x + (1u32 << m));
        if k == n - 1 {
            assert((y >> m) & 1u32 == 1u32) by (bit_vector)
                requires
                    m < 32u32,
                    x < (1u32 << m),
                    y == x + (1u32 << m),
            ;
        } else {
            let kk = k as u32;
            assert((y >> kk) & 1u32 == (x >> kk) & 1u32) by (bit_vector)
                requires
                    m < 32u32,
                    kk < m,
                    x < (1u32 << m),
                    y == x + (1u32 << m),
            ;
            lemma_bits_val_bit(bytes, start, (n - 1) as nat, k);
        }
    } else {
        assert(y == x);
        if k == n - 1 {
            assert((y >> m) & 1u32 == 0u32) by (bit_vector)
                requires
                    m < 32u32,
                    y < (1u32 << m),
            ;
        } else {
            lemma_bits_val_bit(bytes, start, (n - 1) as nat, k);
        }
    }
}

/// Reads one bit of a report buffer.
pub fn get_bit(bytes: &[u8], i: usize) -> (b: bool)
    requires
        i < 8 * bytes@.len(),
    ensures
        b == bit_of(bytes@, i as int),
{
    proof {
        lemma_bit_index_in_bounds(i as int, bytes@.len() as int);
    }
    let sh: u8 = (i % 8) as u8;
    (bytes[i / 8] >> sh) & 1 == 1
}

proof fn lemma_bit_index_in_bounds(i: int, len: int)
    requires
        0 <= i < 8 * len,
    ensures
        0 <= i / 8 < len,
{
    vstd::arithmetic::div_mod::lemma_fundamental_div_mod(i, 8);
}

/// Reads one bit of a 32-bit value.
pub fn get_u32_bit(v: u32, k: usize) -> (b: bool)
    requires
        k < 32,
    ensures
        b == u32_bit(v, k as int),
{
    let sh: u32 = k as u32;
    (v >> sh) & 1 == 1
}

/// Sets or clears one bit of a report buffer; all other bits are unchanged.
pub fn set_bit(bytes: &mut Vec<u8>, i: usize, value: bool)
    requires
        i < 8 * old(bytes)@.len(),
    ensures
        final(bytes)@.len() == old(bytes)@.len(),
        forall|j: int|
            0 <= j < 8 * old(bytes)@.len() ==> bit_of(final(bytes)@, j) == if j == i as int {
                value
            } else {
                bit_of(old(bytes)@, j)
            },
{
    proof {
        lemma_bit_index_in_bounds(i as int, bytes@.len() as int);
    }
    let idx = i / 8;
    let sh: u8 = (i % 8) as u8;
    let b = bytes[idx];
    let nb = if value {
        b | (1u8 << sh)
    } else {
        b & !(1u8 << sh)
    };
    bytes.set(idx, nb);
    proof {
        let old_s = old(bytes)@;
        let new_s = bytes@;
        assert forall|j: int| 0 <= j < 8 * old_s.len() implies bit_of(new_s, j) == if j == i as int {
            value
        } else {
            bit_of(old_s, j)
        } by {
            lemma_bit_index_in_bounds(j, old_s.len() as int);
            if j / 8 == idx as int {
                let sh2 = (j % 8) as u8;
                if value {
                    lemma_u8_set_bit(b, sh, sh2);
                } else {
                    lemma_u8_clear_bit(b, sh, sh2);
                }
                if j == i as int {
                    assert(sh2 == sh);
                } else {
                    assert(sh2 != sh) by {
                        vstd::arithmetic::div_mod::lemma_fundamental_div_mod(j, 8);
                        vstd::arithmetic::div_mod::lemma_fundamental_div_mod(i as int, 8);
                    }
                }
            }
        }
    }
}

proof fn lemma_u8_set_bit(b: u8, sh: u8, sh2: u8)
    by (bit_vector)
    requires
        sh < 8,
        sh2 < 8,
    ensures
        sh2 == sh ==> ((b | (1u8 << sh)) >> sh2) & 1u8 == 1u8,
        sh2 != sh ==> ((b | (1u8 << sh)) >> sh2) & 1u8 == (b >> sh2) & 1u8,
{
}

proof fn lemma_u8_clear_bit(b: u8, sh: u8, sh2: u8)
    by (bit_vector)
    requires
        sh < 8,
        sh2 < 8,
    ensures
        sh2 == sh ==> ((b & !(1u8 << sh)) >> sh2) & 1u8 == 0u8,
        sh2 != sh ==> ((b & !(1u8 << sh)) >> sh2) & 1u8 == (b >> sh2) & 1u8,
{
}

/// Extracts the unsigned value of the `n` bits starting at bit `start`.
pub fn extract_bits(bytes: &[u8], start: usize, n: usize) -> (v: u32)
    requires
        n <= 32,
        start + n <= 8 * bytes@.len(),
        start + n <= usize::MAX,
    ensures
        v as nat == bits_val(bytes@, start as int, n as nat),
{
    proof {
        vstd::arithmetic::power2::lemma_pow2_pos(0);
    }
    let mut v: u32 = 0;
    let mut k: usize = 0;
    while k < n
        invariant
            k <= n,
            n <= 32,
            start + n <= 8 * bytes@.len(),
            start + n <= usize::MAX,
            v as nat == bits_val(bytes@, start as int, k as nat),
            (v as nat) < pow2(k as nat),
        decreases n - k,
    {
        proof {
            lemma_u32_pow2_no_overflow(k as nat);
            lemma_u32_shl_is_mul(1u32, k as u32);
        }
        if get_bit(bytes, start + k) {
            let mask: u32 = 1u32 << (k as u32);
            proof {
                let vv = v;
                let kk = k as u32;
                assert(vv | (1u32 << kk) == vv + (1u32 << kk)) by (bit_vector)
                    requires
                        kk < 32u32,
                        vv < (1u32 << kk),
                ;
            }
            v = v | mask;
        }
        k = k + 1;
        proof {
            lemma_pow2_adds((k - 1) as nat, 1);
            vstd::arithmetic::power2::lemma2_to64();
        }
    }
    v
}

/// Writes the low `n` bits of `v` into the bit range starting at `start`;
/// every bit outside that range keeps its old value (read-modify-write).
pub fn pack_bits(bytes: &mut Vec<u8>, start: usize, n: usize, v: u32)
    requires
        n <= 32,
        start + n <= 8 * old(bytes)@.len(),
        start + n <= usize::MAX,
    ensures
        final(bytes)@.len() == old(bytes)@.len(),
        forall|j: int|
            0 <= j < 8 * old(bytes)@.len() ==> bit_of(final(bytes)@, j) == if start <= j < start
                + n {
                u32_bit(v, j - start)
            } else {
                bit_of(old(bytes)@, j)
            },
{
    let mut k: usize = 0;
    while k < n
        invariant
            k <= n,
            n <= 32,
            start + n <= 8 * old(bytes)@.len(),
            start + n <= usize::MAX,
            bytes@.len() == old(bytes)@.len(),
            forall|j: int|
                0 <= j < 8 * old(bytes)@.len() ==> bit_of(bytes@, j) == if start <= j < start
                    + k {
                    u32_bit(v, j - start)
                } else {
                    bit_of(old(bytes)@, j)
                },
        decreases n - k,
    {
        let b = get_u32_bit(v, k);
        set_bit(bytes, start + k, b);
        k = k + 1;
    }
}

} // verus!
