//! ASCII text helpers shared by the recording codec and the hex-array reader:
//! decimal and hexadecimal numbers, byte classification, trimming.

use vstd::prelude::*;

verus! {

pub open spec fn is_ascii_ws(c: u8) -> bool {
    c == 32 || c == 9 || c == 10 || c == 13 || c == 11 || c == 12
}

pub open spec fn is_dec_digit(c: u8) -> bool {
    48 <= c <= 57
}

pub open spec fn dec_digit_val(c: u8) -> nat {
    (c - 48) as nat
}

pub open spec fn is_hex_digit(c: u8) -> bool {
    is_dec_digit(c) || (97 <= c <= 102) || (65 <= c <= 70)
}

pub open spec fn hex_digit_val(c: u8) -> nat {
    if is_dec_digit(c) {
        (c - 48) as nat
    } else if 97 <= c <= 102 {
        (c - 87) as nat
    } else {
        (c - 55) as nat
    }
}

pub open spec fn all_dec_digits(s: Seq<u8>) -> bool {
    forall|i: int| 0 <= i < s.len() ==> is_dec_digit(#[trigger] s[i])
}

pub open spec fn all_hex_digits(s: Seq<u8>) -> bool {
    forall|i: int| 0 <= i < s.len() ==> is_hex_digit(#[trigger] s[i])
}

/// The value of a string of decimal digits, most significant first.
pub open spec fn dec_val(s: Seq<u8>) -> nat
    decreases s.len(),
{
    if s.len() == 0 {
        0
    } else {
        dec_val(s.drop_last()) * 10 + dec_digit_val(s.last())
    }
}

/// The value of a string of hexadecimal digits, most significant first.
pub open spec fn hex_val(s: Seq<u8>) -> nat
    decreases s.len(),
{
    if s.len() == 0 {
        0
    } else {
        hex_val(s.drop_last()) * 16 + hex_digit_val(s.last())
    }
}

pub fn byte_is_dec_digit(c: u8) -> (r: bool)
    ensures
        r == is_dec_digit(c),
{
    48 <= c && c <= 57
}

pub fn byte_is_hex_digit(c: u8) -> (r: bool)
    ensures
        r == is_hex_digit(c),
{
    (48 <= c && c <= 57) || (97 <= c && c <= 102) || (65 <= c && c <= 70)
}

pub fn byte_is_ascii_ws(c: u8) -> (r: bool)
    ensures
        r == is_ascii_ws(c),
{
    c == 32 || c == 9 || c == 10 || c == 13 || c == 11 || c == 12
}

pub fn hex_digit_value(c: u8) -> (v: u8)
    requires
        is_hex_digit(c),
    ensures
        v as nat == hex_digit_val(c),
        v < 16,
{
    if 48 <= c && c <= 57 {
        c - 48
    } else if 97 <= c && c <= 102 {
        c - 87
    } else {
        c - 55
    }
}

/// `acc * base + d` stays within `max` exactly when `acc` is at most
/// `(max - d) / base`: the test the parsing loops make before each step.
pub proof fn lemma_step_fits_iff_pub(acc: nat, d: nat, base: nat, max: nat)
    requires
        0 < base,
        d <= max,
    ensures
        (acc * base + d <= max) <==> (acc <= (max - d) as nat / base),
{
    lemma_step_fits_iff(acc, d, base, max);
}

proof fn lemma_step_fits_iff(acc: nat, d: nat, base: nat, max: nat)
    requires
        0 < base,
        d <= max,
    ensures
        (acc * base + d <= max) <==> (acc <= (max - d) as nat / base),
{
    let m = (max - d) as nat;
    vstd::arithmetic::div_mod::lemma_fundamental_div_mod(m as int, base as int);
    vstd::arithmetic::div_mod::lemma_mod_bound(m as int, base as int);
    if acc <= m / base {
        vstd::arithmetic::mul::lemma_mul_inequality(acc as int, (m / base) as int, base as int);
        vstd::arithmetic::mul::lemma_mul_is_commutative((m / base) as int, base as int);
        assert(acc * base <= (m / base) * base);
        assert((m / base) * base <= m);
    }
    if acc * base + d <= max {
        vstd::arithmetic::div_mod::lemma_div_is_ordered(
            (acc * base) as int,
            m as int,
            base as int,
        );
        vstd::arithmetic::mul::lemma_mul_is_commutative(acc as int, base as int);
        vstd::arithmetic::div_mod::lemma_div_multiples_vanish(acc as int, base as int);
        assert((acc * base) as int / (base as int) == acc as int);
    }
}

/// A value prefix never exceeds the value of the whole digit string.
proof fn lemma_dec_val_prefix_le(s: Seq<u8>, i: int)
    requires
        0 <= i <= s.len(),
    ensures
        dec_val(s.take(i)) <= dec_val(s),
    decreases s.len() - i,
{
    if i < s.len() {
        lemma_dec_val_prefix_le(s, i + 1);
        assert(s.take(i + 1).drop_last() =~= s.take(i));
        assert(dec_val(s.take(i + 1)) == dec_val(s.take(i)) * 10 + dec_digit_val(s[i]));
    } else {
        assert(s.take(i) =~= s);
    }
}

proof fn lemma_hex_val_prefix_le(s: Seq<u8>, i: int)
    requires
        0 <= i <= s.len(),
    ensures
        hex_val(s.take(i)) <= hex_val(s),
    decreases s.len() - i,
{
    if i < s.len() {
        lemma_hex_val_prefix_le(s, i + 1);
        assert(s.take(i + 1).drop_last() =~= s.take(i));
        assert(hex_val(s.take(i + 1)) == hex_val(s.take(i)) * 16 + hex_digit_val(s[i]));
    } else {
        assert(s.take(i) =~= s);
    }
}

/// Leading zeroes do not change the value of a digit string.
pub proof fn lemma_dec_val_leading_zeroes(zeroes: Seq<u8>, s: Seq<u8>)
    requires
        forall|i: int| 0 <= i < zeroes.len() ==> #[trigger] zeroes[i] == 48u8,
    ensures
        dec_val(zeroes + s) == dec_val(s),
    decreases s.len(),
{
    if s.len() == 0 {
        assert(zeroes + s =~= zeroes);
        lemma_dec_val_all_zeroes(zeroes);
    } else {
        assert((zeroes + s).drop_last() =~= zeroes + s.drop_last());
        lemma_dec_val_leading_zeroes(zeroes, s.drop_last());
        assert((zeroes + s).last() == s.last());
    }
}

proof fn lemma_dec_val_all_zeroes(zeroes: Seq<u8>)
    requires
        forall|i: int| 0 <= i < zeroes.len() ==> #[trigger] zeroes[i] == 48u8,
    ensures
        dec_val(zeroes) == 0,
    decreases zeroes.len(),
{
    if zeroes.len() > 0 {
        lemma_dec_val_all_zeroes(zeroes.drop_last());
    }
}

/// Parses an unsigned decimal number. Succeeds exactly on non-empty,
/// all-digit strings whose value fits in a `u64`.
pub fn parse_u64_dec(s: &[u8]) -> (r: Option<u64>)
    ensures
        r is Some <==> s@.len() > 0 && all_dec_digits(s@) && dec_val(s@) <= u64::MAX,
        r matches Some(v) ==> v as nat == dec_val(s@),
{
    if s.len() == 0 {
        return None;
    }
    let mut acc: u64 = 0;
    let mut i: usize = 0;
    while i < s.len()
        invariant
            0 < s@.len(),
            i <= s@.len(),
            forall|j: int| 0 <= j < i ==> is_dec_digit(#[trigger] s@[j]),
            acc as nat == dec_val(s@.take(i as int)),
        decreases s@.len() - i,
    {
        let c = s[i];
        if !byte_is_dec_digit(c) {
            return None;
        }
        let d: u64 = (c - 48) as u64;
        proof {
            assert(s@.take(i + 1).drop_last() =~= s@.take(i as int));
            assert(s@.take(i + 1).last() == s@[i as int]);
            assert(dec_val(s@.take(i + 1)) == acc * 10 + d);
            lemma_step_fits_iff(acc as nat, d as nat, 10, u64::MAX as nat);
        }
        if acc > (u64::MAX - d) / 10 {
            proof {
                lemma_dec_val_prefix_le(s@, i + 1);
            }
            return None;
        }
        acc = acc * 10 + d;
        i = i + 1;
    }
    proof {
        assert(s@.take(i as int) =~= s@);
    }
    Some(acc)
}

/// Parses an unsigned hexadecimal number as `u16::from_str_radix` does:
/// an optional leading `+`, then at least one hex digit, both cases accepted,
/// value at most `u16::MAX`.
pub open spec fn spec_hex_u16_ok(s: Seq<u8>) -> bool {
    if s.len() > 0 && s[0] == 43 {
        let rest = s.skip(1);
        rest.len() > 0 && all_hex_digits(rest) && hex_val(rest) <= u16::MAX
    } else {
        s.len() > 0 && all_hex_digits(s) && hex_val(s) <= u16::MAX
    }
}

pub open spec fn spec_hex_u16_val(s: Seq<u8>) -> nat {
    if s.len() > 0 && s[0] == 43 {
        hex_val(s.skip(1))
    } else {
        hex_val(s)
    }
}

pub fn parse_u16_hex(s: &[u8]) -> (r: Option<u16>)
    ensures
        r is Some <==> spec_hex_u16_ok(s@),
        r matches Some(v) ==> v as nat == spec_hex_u16_val(s@),
{
    if s.len() == 0 {
        return None;
    }
    let start: usize = if s[0] == 43 {
        1
    } else {
        0
    };
    if s.len() == start {
        return None;
    }
    let ghost digits = s@.skip(start as int);
    proof {
        if start == 0 {
            assert(digits =~= s@);
        }
    }
    let mut acc: u16 = 0;
    let mut i: usize = start;
    while i < s.len()
        invariant
            start <= i <= s@.len(),
            start < s@.len(),
            digits == s@.skip(start as int),
            if s@[0] == 43 {
                start == 1
            } else {
                start == 0 && digits == s@
            },
            forall|j: int| start <= j < i ==> is_hex_digit(#[trigger] s@[j]),
            acc as nat == hex_val(digits.take(i - start)),
        decreases s@.len() - i,
    {
        let c = s[i];
        if !byte_is_hex_digit(c) {
            proof {
                assert(digits[i - start] == s@[i as int]);
            }
            return None;
        }
        let d: u16 = hex_digit_value(c) as u16;
        proof {
            assert(digits.take(i - start + 1).drop_last() =~= digits.take(i - start));
            assert(digits.take(i - start + 1).last() == s@[i as int]);
            assert(hex_val(digits.take(i - start + 1)) == acc * 16 + d);
            lemma_step_fits_iff(acc as nat, d as nat, 16, u16::MAX as nat);
        }
        if acc > (u16::MAX - d) / 16 {
            proof {
                lemma_hex_val_prefix_le(digits, i - start + 1);
            }
            return None;
        }
        acc = acc * 16 + d;
        i = i + 1;
    }
    proof {
        assert(digits.take(i - start) =~= digits);
        if s@[0] != 43 {
            assert(digits =~= s@);
        }
    }
    Some(acc)
}

/// Parses one hexadecimal byte token as `u8::from_str_radix` does, with an
/// optional leading `+`: at least one hex digit, value at most 255.
pub open spec fn spec_hex_u8_ok(s: Seq<u8>) -> bool {
    if s.len() > 0 && s[0] == 43 {
        let rest = s.skip(1);
        rest.len() > 0 && all_hex_digits(rest) && hex_val(rest) <= u8::MAX
    } else {
        s.len() > 0 && all_hex_digits(s) && hex_val(s) <= u8::MAX
    }
}

pub open spec fn spec_hex_u8_val(s: Seq<u8>) -> nat {
    if s.len() > 0 && s[0] == 43 {
        hex_val(s.skip(1))
    } else {
        hex_val(s)
    }
}

pub fn parse_u8_hex(s: &[u8]) -> (r: Option<u8>)
    ensures
        r is Some <==> spec_hex_u8_ok(s@),
        r matches Some(v) ==> v as nat == spec_hex_u8_val(s@),
{
    if s.len() == 0 {
        return None;
    }
    let start: usize = if s[0] == 43 {
        1
    } else {
        0
    };
    if s.len() == start {
        return None;
    }
    let ghost digits = s@.skip(start as int);
    proof {
        if start == 0 {
            assert(digits =~= s@);
        }
    }
    let mut acc: u8 = 0;
    let mut i: usize = start;
    while i < s.len()
        invariant
            start <= i <= s@.len(),
            start < s@.len(),
            digits == s@.skip(start as int),
            if s@[0] == 43 {
                start == 1
            } else {
                start == 0 && digits == s@
            },
            forall|j: int| start <= j < i ==> is_hex_digit(#[trigger] s@[j]),
            acc as nat == hex_val(digits.take(i - start)),
        decreases s@.len() - i,
    {
        let c = s[i];
        if !byte_is_hex_digit(c) {
            proof {
                assert(digits[i - start] == s@[i as int]);
            }
            return None;
        }
        let d: u8 = hex_digit_value(c);
        proof {
            assert(digits.take(i - start + 1).drop_last() =~= digits.take(i - start));
            assert(digits.take(i - start + 1).last() == s@[i as int]);
            assert(hex_val(digits.take(i - start + 1)) == acc * 16 + d);
            lemma_step_fits_iff(acc as nat, d as nat, 16, u8::MAX as nat);
        }
        if acc > (u8::MAX - d) / 16 {
            proof {
                lemma_hex_val_prefix_le(digits, i - start + 1);
            }
            return None;
        }
        acc = acc * 16 + d;
        i = i + 1;
    }
    proof {
        assert(digits.take(i - start) =~= digits);
        if s@[0] != 43 {
            assert(digits =~= s@);
        }
    }
    Some(acc)
}

/// The canonical decimal spelling of `v`: no leading zero except for 0 itself.
pub open spec fn spec_dec_digits(v: nat) -> Seq<u8>
    decreases v,
{
    if v < 10 {
        seq![(48 + v) as u8]
    } else {
        spec_dec_digits(v / 10).push((48 + v % 10) as u8)
    }
}

pub proof fn lemma_spec_dec_digits_ok(v: nat)
    ensures
        spec_dec_digits(v).len() > 0,
        all_dec_digits(spec_dec_digits(v)),
        dec_val(spec_dec_digits(v)) == v,
    decreases v,
{
    if v < 10 {
        let s = spec_dec_digits(v);
        assert(s =~= seq![(48 + v) as u8]);
        assert(s.drop_last() =~= Seq::<u8>::empty());
        assert(dec_val(s.drop_last()) == 0);
        assert(dec_digit_val(s.last()) == v);
        assert(dec_val(s) == v);
    } else {
        vstd::arithmetic::div_mod::lemma_fundamental_div_mod(v as int, 10);
        lemma_spec_dec_digits_ok(v / 10);
        let prefix = spec_dec_digits(v / 10);
        let s = spec_dec_digits(v);
        assert(s.drop_last() =~= prefix);
        assert(s.last() == (48 + v % 10) as u8);
        assert(dec_digit_val(s.last()) == v % 10);
        assert(dec_val(s) == dec_val(prefix) * 10 + v % 10);
        assert forall|i: int| 0 <= i < s.len() implies is_dec_digit(#[trigger] s[i]) by {
            if i < s.len() - 1 {
                assert(s[i] == prefix[i]);
            }
        }
    }
}

/// Formats `v` in decimal, most significant digit first, no leading zeroes.
pub fn format_u64_dec(v: u64) -> (r: Vec<u8>)
    ensures
        r@ == spec_dec_digits(v as nat),
{
    let mut digits_rev: Vec<u8> = Vec::new();
    let mut x: u64 = v;
    loop
        invariant_except_break
            spec_dec_digits(v as nat) == spec_dec_digits(x as nat) + digits_rev@.reverse(),
        ensures
            spec_dec_digits(v as nat) == digits_rev@.reverse(),
        decreases x,
    {
        let d: u8 = (x % 10) as u8;
        proof {
            let dr = digits_rev@;
            assert(dr.push((48 + d) as u8).reverse() =~= seq![(48 + d) as u8] + dr.reverse());
        }
        digits_rev.push(48 + d);
        if x < 10 {
            proof {
                assert(spec_dec_digits(x as nat) =~= seq![(48 + d) as u8]);
                assert(spec_dec_digits(v as nat) =~= digits_rev@.reverse());
            }
            break;
        }
        proof {
            assert(spec_dec_digits(x as nat) == spec_dec_digits((x as nat) / 10).push(
                (48 + (x as nat) % 10) as u8,
            ));
            assert(spec_dec_digits((x as nat) / 10).push((48 + (x as nat) % 10) as u8)
                =~= spec_dec_digits((x as nat) / 10) + seq![(48 + d) as u8]);
            assert(spec_dec_digits((x as nat) / 10) + seq![(48 + d) as u8]
                + digits_rev@.drop_last().reverse() =~= spec_dec_digits((x as nat) / 10)
                + digits_rev@.reverse());
            assert(spec_dec_digits(v as nat) =~= spec_dec_digits((x as nat) / 10)
                + digits_rev@.reverse());
            vstd::arithmetic::div_mod::lemma_div_decreases(x as int, 10);
        }
        x = x / 10;
    }
    let mut r: Vec<u8> = Vec::new();
    let mut i: usize = digits_rev.len();
    while i > 0
        invariant
            i <= digits_rev@.len(),
            r@ == digits_rev@.skip(i as int).reverse(),
        decreases i,
    {
        i = i - 1;
        let c = digits_rev[i];
        r.push(c);
        proof {
            assert(r@ =~= digits_rev@.skip(i as int).reverse());
        }
    }
    proof {
        assert(digits_rev@.skip(0) =~= digits_rev@);
    }
    r
}

/// The lowercase hex character of one digit value.
pub open spec fn spec_hex_char(d: nat) -> u8 {
    if d < 10 {
        (48 + d) as u8
    } else {
        (87 + d) as u8
    }
}

/// The canonical lowercase hex spelling of `v`: no leading zero except for 0.
pub open spec fn spec_hex_digits(v: nat) -> Seq<u8>
    decreases v,
{
    if v < 16 {
        seq![spec_hex_char(v)]
    } else {
        spec_hex_digits(v / 16).push(spec_hex_char(v % 16))
    }
}

pub proof fn lemma_spec_hex_digits_ok(v: nat)
    ensures
        spec_hex_digits(v).len() > 0,
        all_hex_digits(spec_hex_digits(v)),
        hex_val(spec_hex_digits(v)) == v,
    decreases v,
{
    if v < 16 {
        let s = spec_hex_digits(v);
        assert(s =~= seq![spec_hex_char(v)]);
        assert(s.drop_last() =~= Seq::<u8>::empty());
        assert(hex_val(s.drop_last()) == 0);
        assert(is_hex_digit(s[0]));
        assert(hex_digit_val(s.last()) == v);
    } else {
        vstd::arithmetic::div_mod::lemma_fundamental_div_mod(v as int, 16);
        lemma_spec_hex_digits_ok(v / 16);
        let prefix = spec_hex_digits(v / 16);
        let s = spec_hex_digits(v);
        assert(s.drop_last() =~= prefix);
        assert(s.last() == spec_hex_char(v % 16));
        assert(is_hex_digit(s.last()));
        assert(hex_digit_val(s.last()) == v % 16);
        assert(hex_val(s) == hex_val(prefix) * 16 + v % 16);
        assert forall|i: int| 0 <= i < s.len() implies is_hex_digit(#[trigger] s[i]) by {
            if i < s.len() - 1 {
                assert(s[i] == prefix[i]);
            }
        }
    }
}

fn hex_char_of(d: u8) -> (r: u8)
    requires
        d < 16,
    ensures
        r == spec_hex_char(d as nat),
{
    if d < 10 {
        48 + d
    } else {
        87 + d
    }
}

/// Formats `v` in lowercase hexadecimal, no leading zeroes.
pub fn format_u16_hex(v: u16) -> (r: Vec<u8>)
    ensures
        r@ == spec_hex_digits(v as nat),
{
    let mut digits_rev: Vec<u8> = Vec::new();
    let mut x: u16 = v;
    loop
        invariant_except_break
            spec_hex_digits(v as nat) == spec_hex_digits(x as nat) + digits_rev@.reverse(),
        ensures
            spec_hex_digits(v as nat) == digits_rev@.reverse(),
        decreases x,
    {
        let d: u8 = (x % 16) as u8;
        let c = hex_char_of(d);
        proof {
            let dr = digits_rev@;
            assert(dr.push(spec_hex_char(d as nat)).reverse() =~= seq![spec_hex_char(d as nat)]
                + dr.reverse());
        }
        digits_rev.push(c);
        if x < 16 {
            proof {
                assert(spec_hex_digits(x as nat) =~= seq![spec_hex_char(d as nat)]);
                assert(spec_hex_digits(v as nat) =~= digits_rev@.reverse());
            }
            break ;
        }
        proof {
            assert(spec_hex_digits(x as nat) == spec_hex_digits((x as nat) / 16).push(
                spec_hex_char((x as nat) % 16),
            ));
            assert(spec_hex_digits((x as nat) / 16).push(spec_hex_char((x as nat) % 16))
                =~= spec_hex_digits((x as nat) / 16) + seq![spec_hex_char(d as nat)]);
            assert(spec_hex_digits((x as nat) / 16) + seq![spec_hex_char(d as nat)]
                + digits_rev@.drop_last().reverse() =~= spec_hex_digits((x as nat) / 16)
                + digits_rev@.reverse());
            assert(spec_hex_digits(v as nat) =~= spec_hex_digits((x as nat) / 16)
                + digits_rev@.reverse());
            vstd::arithmetic::div_mod::lemma_div_decreases(x as int, 16);
        }
        x = x / 16;
    }
    let mut r: Vec<u8> = Vec::new();
    let mut i: usize = digits_rev.len();
    while i > 0
        invariant
            i <= digits_rev@.len(),
            r@ == digits_rev@.skip(i as int).reverse(),
        decreases i,
    {
        i = i - 1;
        let c = digits_rev[i];
        r.push(c);
        proof {
            assert(r@ =~= digits_rev@.skip(i as int).reverse());
        }
    }
    proof {
        assert(digits_rev@.skip(0) =~= digits_rev@);
    }
    r
}

/// The two lowercase hex characters of one byte.
pub open spec fn spec_hex_byte(b: u8) -> Seq<u8> {
    seq![spec_hex_char((b / 16) as nat), spec_hex_char((b % 16) as nat)]
}

pub fn format_hex_byte(b: u8) -> (r: Vec<u8>)
    ensures
        r@ == spec_hex_byte(b),
{
    let mut r: Vec<u8> = Vec::new();
    r.push(hex_char_of(b / 16));
    r.push(hex_char_of(b % 16));
    proof {
        assert(r@ =~= spec_hex_byte(b));
    }
    r
}

/// A hex character is never mistaken for a sign, a space, a dot or a newline.
pub proof fn lemma_hex_char_class(d: nat)
    requires
        d < 16,
    ensures
        is_hex_digit(spec_hex_char(d)),
        hex_digit_val(spec_hex_char(d)) == d,
        48 <= spec_hex_char(d) <= 102,
{
}

/// So many zero characters.
pub open spec fn spec_zeroes(k: nat) -> Seq<u8> {
    Seq::new(k, |i: int| 48u8)
}

/// Zero-pads a digit string on the left to at least six characters, as the
/// recording format writes the two halves of a timestamp.
pub open spec fn spec_pad6(s: Seq<u8>) -> Seq<u8> {
    if s.len() >= 6 {
        s
    } else {
        spec_zeroes((6 - s.len()) as nat) + s
    }
}

pub fn pad6(v: Vec<u8>) -> (r: Vec<u8>)
    ensures
        r@ == spec_pad6(v@),
{
    let mut r: Vec<u8> = Vec::new();
    let n = v.len();
    if n < 6 {
        let mut k: usize = 0;
        while k < 6 - n
            invariant
                n == v@.len(),
                n < 6,
                k <= 6 - n,
                r@ =~= spec_zeroes(k as nat),
            decreases 6 - n - k,
        {
            r.push(48);
            proof {
                assert(r@ =~= spec_zeroes((k + 1) as nat));
            }
            k = k + 1;
        }
        let mut i: usize = 0;
        while i < v.len()
            invariant
                n == v@.len(),
                n < 6,
                i <= v@.len(),
                r@ =~= spec_zeroes((6 - n) as nat) + v@.take(i as int),
            decreases v@.len() - i,
        {
            let c = v[i];
            r.push(c);
            proof {
                assert(r@ =~= spec_zeroes((6 - n) as nat) + v@.take(i + 1));
            }
            i = i + 1;
        }
        proof {
            assert(v@.take(n as int) =~= v@);
        }
        r
    } else {
        v
    }
}

/// The padded spelling still reads back as the same number.
pub proof fn lemma_pad6_value(s: Seq<u8>)
    requires
        all_dec_digits(s),
    ensures
        all_dec_digits(spec_pad6(s)),
        dec_val(spec_pad6(s)) == dec_val(s),
        spec_pad6(s).len() >= s.len(),
{
    if s.len() < 6 {
        let zeroes = spec_zeroes((6 - s.len()) as nat);
        lemma_dec_val_leading_zeroes(zeroes, s);
        assert forall|i: int| 0 <= i < spec_pad6(s).len() implies is_dec_digit(
            #[trigger] spec_pad6(s)[i],
        ) by {
            if i < zeroes.len() {
                assert(spec_pad6(s)[i] == 48u8);
            } else {
                assert(spec_pad6(s)[i] == s[i - zeroes.len()]);
            }
        }
    }
}


/// Parses an unsigned hexadecimal number as `u32::from_str_radix` does:
/// an optional leading `+`, then at least one hex digit, both cases
/// accepted, value at most `u32::MAX`.
pub open spec fn spec_hex_u32_ok(s: Seq<u8>) -> bool {
    if s.len() > 0 && s[0] == 43 {
        let rest = s.skip(1);
        rest.len() > 0 && all_hex_digits(rest) && hex_val(rest) <= u32::MAX
    } else {
        s.len() > 0 && all_hex_digits(s) && hex_val(s) <= u32::MAX
    }
}

pub open spec fn spec_hex_u32_val(s: Seq<u8>) -> nat {
    if s.len() > 0 && s[0] == 43 {
        hex_val(s.skip(1))
    } else {
        hex_val(s)
    }
}

pub fn parse_u32_hex(s: &[u8]) -> (r: Option<u32>)
    ensures
        r is Some <==> spec_hex_u32_ok(s@),
        r matches Some(v) ==> v as nat == spec_hex_u32_val(s@),
{
    if s.len() == 0 {
        return None;
    }
    let start: usize = if s[0] == 43 {
        1
    } else {
        0
    };
    if s.len() == start {
        return None;
    }
    let ghost digits = s@.skip(start as int);
    proof {
        if start == 0 {
            assert(digits =~= s@);
        }
    }
    let mut acc: u32 = 0;
    let mut i: usize = start;
    while i < s.len()
        invariant
            start <= i <= s@.len(),
            start < s@.len(),
            digits == s@.skip(start as int),
            if s@[0] == 43 {
                start == 1
            } else {
                start == 0 && digits == s@
            },
            forall|j: int| start <= j < i ==> is_hex_digit(#[trigger] s@[j]),
            acc as nat == hex_val(digits.take(i - start)),
        decreases s@.len() - i,
    {
        let c = s[i];
        if !byte_is_hex_digit(c) {
            proof {
                assert(digits[i - start] == s@[i as int]);
            }
            return None;
        }
        let d: u32 = hex_digit_value(c) as u32;
        proof {
            assert(digits.take(i - start + 1).drop_last() =~= digits.take(i - start));
            assert(digits.take(i - start + 1).last() == s@[i as int]);
            assert(hex_val(digits.take(i - start + 1)) == acc * 16 + d);
            lemma_step_fits_iff(acc as nat, d as nat, 16, u32::MAX as nat);
        }
        if acc > (u32::MAX - d) / 16 {
            proof {
                lemma_hex_val_prefix_le(digits, i - start + 1);
            }
            return None;
        }
        acc = acc * 16 + d;
        i = i + 1;
    }
    proof {
        assert(digits.take(i - start) =~= digits);
        if s@[0] != 43 {
            assert(digits =~= s@);
        }
    }
    Some(acc)
}

} // verus!
