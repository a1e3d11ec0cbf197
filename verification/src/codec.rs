//! The field codec: extracts and packs field values of a report buffer at
//! arbitrary, not necessarily byte-aligned, bit ranges.
//!
//! All multi-bit values are little-endian from the bitstream: bit 0 of a
//! field is the least significant bit of the first byte it touches. Unsigned
//! values are zero-extended to a 32-bit container, signed values (a field
//! whose logical minimum is negative) sign-extended. Fields wider than 32
//! bits are read as their raw byte span instead.

use vstd::prelude::*;

verus! {

use vstd::arithmetic::power2::pow2;
use crate::bits::bit_of;
use crate::bits::u32_bit;
use crate::bits::bits_val;
use crate::bits::extract_bits;
use crate::bits::pack_bits;
use crate::bits::lemma_bits_val_bound;
use crate::bits::lemma_bits_val_bit;
use crate::bits::lemma_bytes_eq_by_bits;
use crate::descriptor::VariableField;
use crate::descriptor::ArrayField;

/// How a field access of a report buffer fails.
#[derive(Clone, Copy, Debug, PartialEq, Eq, Structural)]
pub enum CodecError {
    /// The field's bit range reaches past the end of the buffer.
    BufferTooShort,
    /// The field is empty or wider than the 32-bit container.
    UnsupportedWidth,
}

/// A value read from a field: the 32-bit container and whether it is to be
/// read as signed (two's complement).
#[derive(Clone, Copy, Debug, PartialEq, Eq, Structural)]
pub struct FieldValue {
    pub signed: bool,
    pub value: u32,
}

/// The 32-bit container that an `n`-bit raw value fills: sign-extended when
/// the field is signed and its top bit is set, the raw value otherwise.
pub open spec fn spec_container(raw: nat, n: nat, signed: bool) -> nat {
    if signed && n < 32 && raw >= pow2((n - 1) as nat) {
        (raw + 0x1_0000_0000 - pow2(n)) as nat
    } else {
        raw
    }
}

impl FieldValue {
    pub fn as_u32(&self) -> (r: u32)
        ensures
            r == self.value,
    {
        self.value
    }

    /// The container read as a two's-complement 32-bit integer.
    pub fn as_i32(&self) -> (r: i32)
        ensures
            r as int == if self.value < 0x8000_0000 {
                self.value as int
            } else {
                self.value - 0x1_0000_0000
            },
    {
        let v = self.value;
        if v < 0x8000_0000 {
            v as i32
        } else {
            proof {
                assert(v as i32 == v - 0x1_0000_0000) by (bit_vector)
                    requires
                        v >= 0x8000_0000u32,
                ;
            }
            v as i32
        }
    }
}

/// Whether a variable field can be extracted from (or packed into) a buffer
/// of this many bytes: at least one bit, at most 32, wholly inside the
/// buffer, and addressable on this machine.
pub open spec fn spec_variable_fits(field: VariableField, buflen: nat) -> bool {
    let n = field.bits.end - field.bits.start;
    &&& 1 <= n <= 32
    &&& field.bits.end <= 8 * buflen
    &&& field.bits.end <= usize::MAX
}


/// Whether a bit position bound fits a buffer of `len` bytes.
fn bits_fit(end: u64, len: usize) -> (r: bool)
    ensures
        r == (end <= 8 * len),
{
    proof {
        vstd::arithmetic::div_mod::lemma_fundamental_div_mod(end as int, 8);
    }
    let l = len as u64;
    let div = end / 8;
    let rem = end % 8;
    div < l || (div == l && rem == 0)
}

/// Extracts a variable field's value from a report buffer.
///
/// Succeeds exactly when the field fits the buffer; the container then holds
/// the field's bits zero-extended, or sign-extended for a signed field.
pub fn extract_variable(field: &VariableField, buf: &[u8]) -> (r: Result<FieldValue, CodecError>)
    requires
        field.bits.start <= field.bits.end,
    ensures
        r is Ok <==> spec_variable_fits(*field, buf@.len()),
        r matches Ok(v) ==> {
            let n = (field.bits.end - field.bits.start) as nat;
            let raw = bits_val(buf@, field.bits.start as int, n);
            &&& v.signed == field.spec_is_signed()
            &&& v.value as nat == spec_container(raw, n, field.spec_is_signed())
        },
        r matches Err(e) ==> (e == CodecError::UnsupportedWidth <==> !(1 <= field.bits.end
            - field.bits.start <= 32)),
{
    let n64 = field.bits.end - field.bits.start;
    if n64 == 0 || n64 > 32 {
        return Err(CodecError::UnsupportedWidth);
    }
    if !bits_fit(field.bits.end, buf.len()) {
        return Err(CodecError::BufferTooShort);
    }
    if field.bits.end > (usize::MAX as u64) {
        return Err(CodecError::BufferTooShort);
    }
    let start = field.bits.start as usize;
    let n = n64 as usize;
    let raw = extract_bits(buf, start, n);
    let signed = field.is_signed();
    proof {
        lemma_bits_val_bound(buf@, start as int, n as nat);
        vstd::bits::lemma_u32_pow2_no_overflow((n - 1) as nat);
        vstd::bits::lemma_u32_shl_is_mul(1u32, (n - 1) as u32);
        if n < 32 {
            vstd::bits::lemma_u32_pow2_no_overflow(n as nat);
            vstd::bits::lemma_u32_shl_is_mul(1u32, n as u32);
        }
    }
    let value: u32 = if signed && n < 32 {
        let top = 1u32 << ((n - 1) as u32);
        if raw >= top {
            let ext: u32 = 0xFFFF_FFFFu32 - ((1u32 << (n as u32)) - 1);
            raw + ext
        } else {
            raw
        }
    } else {
        raw
    };
    Ok(FieldValue { signed, value })
}

/// Packs the low bits of a value into a variable field's bit range of a
/// report buffer, read-modify-write: every bit outside the range keeps its
/// old value. The inverse of `extract_variable` for round-tripping.
pub fn pack_variable(field: &VariableField, value: u32, buf: &mut Vec<u8>) -> (r: Result<
    (),
    CodecError,
>)
    requires
        field.bits.start <= field.bits.end,
    ensures
        r is Ok <==> spec_variable_fits(*field, old(buf)@.len()),
        r matches Ok(_) ==> {
            let n = field.bits.end - field.bits.start;
            &&& final(buf)@.len() == old(buf)@.len()
            &&& forall|j: int|
                0 <= j < 8 * old(buf)@.len() ==> bit_of(final(buf)@, j) == if field.bits.start <= j
                    < field.bits.end {
                    u32_bit(value, j - field.bits.start)
                } else {
                    bit_of(old(buf)@, j)
                }
        },
        r is Err ==> final(buf)@ == old(buf)@,
{
    let n64 = field.bits.end - field.bits.start;
    if n64 == 0 || n64 > 32 {
        return Err(CodecError::UnsupportedWidth);
    }
    if !bits_fit(field.bits.end, buf.len()) {
        return Err(CodecError::BufferTooShort);
    }
    if field.bits.end > (usize::MAX as u64) {
        return Err(CodecError::BufferTooShort);
    }
    let start = field.bits.start as usize;
    let n = n64 as usize;
    pack_bits(buf, start, n, value);
    Ok(())
}

/// The low bits of a container agree with the raw value it extends: sign
/// extension only touches bits at and above the field width.
proof fn lemma_container_low_bits(raw: u32, n: nat, signed: bool, k: int)
    requires
        1 <= n <= 32,
        (raw as nat) < pow2(n),
        0 <= k < n,
    ensures
        u32_bit((spec_container(raw as nat, n, signed) as u32), k) == u32_bit(raw, k),
{
    if signed && n < 32 && raw as nat >= pow2((n - 1) as nat) {
        vstd::bits::lemma_u32_pow2_no_overflow(n);
        vstd::bits::lemma_u32_shl_is_mul(1u32, n as u32);
        let nn = n as u32;
        let kk = k as u32;
        let c = spec_container(raw as nat, n, signed) as u32;
        assert(c == raw + (0xFFFF_FFFFu32 - ((1u32 << nn) - 1)));
        assert((((raw + (0xFFFF_FFFFu32 - ((1u32 << nn) - 1))) as u32) >> kk) & 1u32 == (raw >> kk)
            & 1u32) by (bit_vector)
            requires
                1 <= nn < 32u32,
                kk < nn,
                raw < (1u32 << nn),
        ;
    }
}

/// Round trip of the variable-field codec: packing the value extracted from
/// a source buffer into a scratch buffer that agrees with the source on
/// every bit outside the field's range reproduces the source exactly. The
/// hypotheses are precisely what `extract_variable` and `pack_variable`
/// ensure, for both signed and unsigned fields of width 1 to 32.
pub proof fn lemma_pack_extract_round_trip(
    orig: Seq<u8>,
    scratch: Seq<u8>,
    packed: Seq<u8>,
    start: int,
    n: nat,
    signed: bool,
)
    requires
        1 <= n <= 32,
        0 <= start,
        start + n <= 8 * orig.len(),
        scratch.len() == orig.len(),
        packed.len() == orig.len(),
        forall|j: int|
            0 <= j < 8 * orig.len() && !(start <= j < start + n) ==> bit_of(scratch, j) == bit_of(
                orig,
                j,
            ),
        forall|j: int|
            0 <= j < 8 * orig.len() ==> bit_of(packed, j) == if start <= j < start + n {
                u32_bit(spec_container(bits_val(orig, start, n), n, signed) as u32, j - start)
            } else {
                bit_of(scratch, j)
            },
    ensures
        packed == orig,
{
    lemma_bits_val_bound(orig, start, n);
    let raw = bits_val(orig, start, n) as u32;
    assert(raw as nat == bits_val(orig, start, n)) by {
        vstd::arithmetic::power2::lemma2_to64();
        vstd::arithmetic::power2::lemma2_to64_rest();
        if n < 32 {
            vstd::arithmetic::power2::lemma_pow2_strictly_increases(n, 32);
        }
    }
    assert forall|j: int| 0 <= j < 8 * orig.len() implies bit_of(packed, j) == bit_of(orig, j) by {
        if start <= j < start + n {
            lemma_container_low_bits(raw, n, signed, j - start);
            lemma_bits_val_bit(orig, start, n, j - start);
        }
    }
    lemma_bytes_eq_by_bits(packed, orig);
}

/// Whether an array field can be extracted from a buffer of this many
/// bytes: a positive slot count, slots of 1 to 32 bits, the whole range
/// inside the buffer and addressable.
pub open spec fn spec_array_fits(field: ArrayField, buflen: nat) -> bool {
    let w = (field.bits.end - field.bits.start) / (field.report_count as int);
    &&& field.report_count >= 1
    &&& 1 <= w <= 32
    &&& field.bits.end <= 8 * buflen
    &&& field.bits.end <= usize::MAX
}

/// Extracts every slot of an array field as an unsigned raw value: slot `i`
/// occupies the `i`-th run of `width` bits of the field's range, where
/// `width` is the range's length divided by the slot count.
pub fn extract_array(field: &ArrayField, buf: &[u8]) -> (r: Result<Vec<u32>, CodecError>)
    requires
        field.bits.start <= field.bits.end,
    ensures
        r is Ok <==> spec_array_fits(*field, buf@.len()),
        r matches Ok(v) ==> {
            let w = (field.bits.end - field.bits.start) / (field.report_count as int);
            &&& v@.len() == field.report_count
            &&& forall|i: int|
                0 <= i < v@.len() ==> v@[i] as nat == bits_val(
                    buf@,
                    field.bits.start + i * w,
                    w as nat,
                )
        },
{
    if field.report_count == 0 {
        return Err(CodecError::UnsupportedWidth);
    }
    let w64 = (field.bits.end - field.bits.start) / (field.report_count as u64);
    if w64 == 0 || w64 > 32 {
        return Err(CodecError::UnsupportedWidth);
    }
    if !bits_fit(field.bits.end, buf.len()) {
        return Err(CodecError::BufferTooShort);
    }
    if field.bits.end > (usize::MAX as u64) {
        return Err(CodecError::BufferTooShort);
    }
    let count = field.report_count;
    let start = field.bits.start as usize;
    let w = w64 as usize;
    proof {
        lemma_slots_fit(
            field.bits.start as int,
            field.bits.end as int,
            w as int,
            count as int,
        );
    }
    let mut v: Vec<u32> = Vec::new();
    let mut i: u32 = 0;
    while i < count
        invariant
            i <= count,
            w == (field.bits.end - field.bits.start) as int / (count as int),
            1 <= w <= 32,
            start == field.bits.start,
            field.bits.start + (count as int) * (w as int) <= field.bits.end <= 8 * buf@.len(),
            field.bits.end <= usize::MAX,
            v@.len() == i,
            forall|k: int|
                0 <= k < v@.len() ==> v@[k] as nat == bits_val(
                    buf@,
                    field.bits.start + k * (w as int),
                    w as nat,
                ),
        decreases count - i,
    {
        proof {
            vstd::arithmetic::mul::lemma_mul_inequality(i as int + 1, count as int, w as int);
            vstd::arithmetic::mul::lemma_mul_is_distributive_add(w as int, i as int, 1);
            vstd::arithmetic::mul::lemma_mul_is_commutative(i as int + 1, w as int);
            vstd::arithmetic::mul::lemma_mul_is_commutative(count as int, w as int);
            vstd::arithmetic::mul::lemma_mul_nonnegative(w as int, i as int);
            vstd::arithmetic::mul::lemma_mul_is_commutative(i as int, w as int);
        }
        let slot_start = start + (i as usize) * w;
        let raw = extract_bits(buf, slot_start, w);
        v.push(raw);
        i = i + 1;
    }
    Ok(v)
}

/// `count` slots of `w` bits fit in the range they were carved from.
proof fn lemma_slots_fit(start: int, end: int, w: int, count: int)
    requires
        0 <= start <= end,
        count >= 1,
        w == (end - start) / count,
        w >= 1,
    ensures
        start + count * w <= end,
{
    vstd::arithmetic::div_mod::lemma_fundamental_div_mod(end - start, count);
    vstd::arithmetic::mul::lemma_mul_is_commutative(count, w);
}

/// Resolves one raw array slot value to a usage within the field's declared
/// usage range: a value with a non-zero high half is a full page-and-id
/// usage of its own; a bare id is combined with the range's page. A usage
/// outside the range yields nothing and the slot is ignored.
pub fn array_slot_usage(field: &ArrayField, raw: u32) -> (r: Option<u32>)
    requires
        field.is_usage_range,
        field.usages@.len() > 0,
    ensures
        ({
            let mn = field.usages@[0];
            let mx = field.usages@[field.usages@.len() - 1];
            let usage = if raw & 0xFFFF0000 != 0 {
                raw
            } else {
                (mn & 0xFFFF0000) | (raw & 0xFFFF)
            };
            r == if (usage & 0xFFFF0000) == (mn & 0xFFFF0000) && (mn & 0xFFFF) <= (usage & 0xFFFF)
                <= (mx & 0xFFFF) {
                Some(usage)
            } else {
                None::<u32>
            }
        }),
{
    let mn = field.usages[0];
    let mx = field.usages[field.usages.len() - 1];
    let usage: u32 = if raw & 0xFFFF0000 != 0 {
        raw
    } else {
        (mn & 0xFFFF0000) | (raw & 0xFFFF)
    };
    if (usage & 0xFFFF0000) == (mn & 0xFFFF0000) && (mn & 0xFFFF) <= (usage & 0xFFFF) && (usage
        & 0xFFFF) <= (mx & 0xFFFF) {
        Some(usage)
    } else {
        None
    }
}

/// Reads the raw byte span of a field wider than 32 bits: the bytes from
/// `start / 8` up to `end / 8`, as the formatting layer shows them.
pub fn extract_long(start: u64, end: u64, buf: &[u8]) -> (r: Option<Vec<u8>>)
    requires
        start <= end,
    ensures
        r is Some <==> (end / 8 <= buf@.len() && end <= usize::MAX),
        r matches Some(v) ==> v@ == buf@.subrange((start / 8) as int, (end / 8) as int),
{
    if end > usize::MAX as u64 {
        return None;
    }
    let lo = (start / 8) as usize;
    let hi = (end / 8) as usize;
    if hi > buf.len() {
        proof {
            vstd::arithmetic::div_mod::lemma_div_is_ordered(
                start as int,
                end as int,
                8,
            );
        }
        return None;
    }
    proof {
        vstd::arithmetic::div_mod::lemma_div_is_ordered(start as int, end as int, 8);
    }
    let mut v: Vec<u8> = Vec::new();
    let mut i: usize = lo;
    while i < hi
        invariant
            lo <= i <= hi,
            hi <= buf@.len(),
            v@ == buf@.subrange(lo as int, i as int),
        decreases hi - i,
    {
        v.push(buf[i]);
        proof {
            assert(v@ =~= buf@.subrange(lo as int, i + 1));
        }
        i = i + 1;
    }
    Some(v)
}

} // verus!
