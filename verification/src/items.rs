//! The item parser: turns one raw byte span of a report descriptor into one
//! typed descriptor item.
//!
//! A short item is a prefix byte followed by 0, 1, 2 or 4 data bytes. The
//! prefix encodes the data size in its low 2 bits (size code 3 means 4
//! bytes), the item class (Main / Global / Local / Reserved) in bits 2..4,
//! and the tag in bits 4..8. Data bytes are little-endian; tags with signed
//! semantics are sign-extended by their encoded width when interpreted.

use vstd::prelude::*;

verus! {

use vstd::arithmetic::power2::pow2;

/// How a decode of a report descriptor fails. A failure aborts the whole
/// decode; no partial result is returned.
#[derive(Clone, Copy, Debug, PartialEq, Eq, Structural)]
pub enum FormatError {
    /// Fewer bytes remain than an item's declared data size.
    TruncatedItem,
    /// A Main item with a tag that is not Input, Output, Feature, Collection
    /// or EndCollection, or an item whose tag demands data but carries none.
    InvalidItem,
    /// A Pop with an empty global-state stack.
    StackUnderflow,
    /// An EndCollection with no matching open Collection.
    UnbalancedCollection,
    /// A data Main item with neither explicit Usages nor a usage range.
    MissingUsage,
    /// A usage range or a page-less Usage with no current UsagePage.
    MissingUsagePage,
    /// A UsageMinimum without a UsageMaximum.
    MissingUsageMaximum,
    /// An empty report descriptor.
    EmptyDescriptor,
    /// A report grew past the supported total bit count.
    DescriptorTooLarge,
}

pub enum ItemClass {
    Main,
    Global,
    Local,
    Reserved,
}

/// One parsed descriptor item: the prefix byte, its data value zero-extended
/// from the little-endian data bytes, the data byte count, and the byte
/// offset of the prefix in the descriptor. The raw bytes of the item are
/// `descriptor[offset .. offset + 1 + nbytes]`.
#[derive(Clone, Copy, Debug, PartialEq, Eq, Structural)]
pub struct Item {
    pub header: u8,
    pub data: u32,
    pub nbytes: u8,
    pub offset: usize,
}

pub const MAIN_INPUT: u8 = 8;
pub const MAIN_OUTPUT: u8 = 9;
pub const MAIN_COLLECTION: u8 = 10;
pub const MAIN_FEATURE: u8 = 11;
pub const MAIN_END_COLLECTION: u8 = 12;

pub const GLOBAL_USAGE_PAGE: u8 = 0;
pub const GLOBAL_LOGICAL_MINIMUM: u8 = 1;
pub const GLOBAL_LOGICAL_MAXIMUM: u8 = 2;
pub const GLOBAL_PHYSICAL_MINIMUM: u8 = 3;
pub const GLOBAL_PHYSICAL_MAXIMUM: u8 = 4;
pub const GLOBAL_UNIT_EXPONENT: u8 = 5;
pub const GLOBAL_UNIT: u8 = 6;
pub const GLOBAL_REPORT_SIZE: u8 = 7;
pub const GLOBAL_REPORT_ID: u8 = 8;
pub const GLOBAL_REPORT_COUNT: u8 = 9;
pub const GLOBAL_PUSH: u8 = 10;
pub const GLOBAL_POP: u8 = 11;

pub const LOCAL_USAGE: u8 = 0;
pub const LOCAL_USAGE_MINIMUM: u8 = 1;
pub const LOCAL_USAGE_MAXIMUM: u8 = 2;
pub const LOCAL_DESIGNATOR_INDEX: u8 = 3;
pub const LOCAL_DESIGNATOR_MINIMUM: u8 = 4;
pub const LOCAL_DESIGNATOR_MAXIMUM: u8 = 5;
pub const LOCAL_STRING_INDEX: u8 = 7;
pub const LOCAL_STRING_MINIMUM: u8 = 8;
pub const LOCAL_STRING_MAXIMUM: u8 = 9;
pub const LOCAL_DELIMITER: u8 = 10;

/// Data byte count encoded in a prefix byte: size code 3 means 4 bytes.
pub open spec fn spec_data_len(header: u8) -> nat {
    if header & 3 == 3 {
        4
    } else {
        (header & 3) as nat
    }
}

pub open spec fn spec_class_code(header: u8) -> u8 {
    (header >> 2) & 3
}

pub open spec fn spec_tag(header: u8) -> u8 {
    header >> 4
}

pub open spec fn spec_is_main(header: u8) -> bool {
    spec_class_code(header) == 0
}

pub open spec fn spec_is_global(header: u8) -> bool {
    spec_class_code(header) == 1
}

pub open spec fn spec_is_local(header: u8) -> bool {
    spec_class_code(header) == 2
}

/// Whether an item of this shape is accepted: a Main item must carry one of
/// the five defined tags, and Input, Output and Feature items, the sized
/// Global items (ReportSize, ReportId, ReportCount) and every Local item
/// must carry at least one data byte.
pub open spec fn spec_item_shape_ok(header: u8) -> bool {
    let n = spec_data_len(header);
    let tag = spec_tag(header);
    if spec_is_main(header) {
        ||| (tag == MAIN_INPUT || tag == MAIN_OUTPUT || tag == MAIN_FEATURE) && n >= 1
        ||| tag == MAIN_COLLECTION
        ||| tag == MAIN_END_COLLECTION
    } else if spec_is_global(header) {
        (tag == GLOBAL_REPORT_SIZE || tag == GLOBAL_REPORT_ID || tag == GLOBAL_REPORT_COUNT)
            ==> n >= 1
    } else if spec_is_local(header) {
        n >= 1
    } else {
        true
    }
}

/// The value of a byte string read as a little-endian unsigned integer.
pub open spec fn spec_le_val(bytes: Seq<u8>) -> nat
    decreases bytes.len(),
{
    if bytes.len() == 0 {
        0
    } else {
        (bytes[0] + 256 * spec_le_val(bytes.skip(1))) as nat
    }
}

pub proof fn lemma_le_val_bound(bytes: Seq<u8>)
    ensures
        spec_le_val(bytes) < pow2(8 * bytes.len()),
    decreases bytes.len(),
{
    if bytes.len() == 0 {
        vstd::arithmetic::power2::lemma_pow2_pos(0);
        vstd::arithmetic::power2::lemma2_to64();
    } else {
        lemma_le_val_bound(bytes.skip(1));
        vstd::arithmetic::power2::lemma_pow2_adds(8, 8 * (bytes.len() - 1) as nat);
        vstd::arithmetic::power2::lemma2_to64();
        let rest = spec_le_val(bytes.skip(1));
        let p = pow2(8 * (bytes.len() - 1) as nat);
        assert(256 * rest <= 256 * (p - 1)) by {
            vstd::arithmetic::mul::lemma_mul_inequality(rest as int, p - 1, 256);
        }
    }
}

/// The parse of the single item whose prefix byte stands at `pos`.
pub open spec fn spec_parse_item(bytes: Seq<u8>, pos: int) -> Result<Item, FormatError>
    recommends
        0 <= pos < bytes.len(),
{
    let header = bytes[pos];
    let n = spec_data_len(header);
    if pos + 1 + n > bytes.len() {
        Err(FormatError::TruncatedItem)
    } else if !spec_item_shape_ok(header) {
        Err(FormatError::InvalidItem)
    } else {
        Ok(
            Item {
                header,
                data: spec_le_val(bytes.subrange(pos + 1, pos + 1 + n)) as u32,
                nbytes: n as u8,
                offset: pos as usize,
            },
        )
    }
}

/// The parse of all items from `pos` to the end of the descriptor.
pub open spec fn spec_parse_items(bytes: Seq<u8>, pos: int) -> Result<Seq<Item>, FormatError>
    recommends
        0 <= pos <= bytes.len(),
    decreases bytes.len() - pos,
    when 0 <= pos <= bytes.len()
{
    if pos >= bytes.len() {
        Ok(Seq::empty())
    } else {
        match spec_parse_item(bytes, pos) {
            Err(e) => Err(e),
            Ok(item) => {
                match spec_parse_items(bytes, pos + 1 + spec_data_len(item.header)) {
                    Err(e) => Err(e),
                    Ok(rest) => Ok(seq![item] + rest),
                }
            },
        }
    }
}

/// A parsed item is internally consistent with the bytes it came from.
pub open spec fn spec_item_wf(item: Item) -> bool {
    &&& (item.nbytes == 0 || item.nbytes == 1 || item.nbytes == 2 || item.nbytes == 4)
    &&& (item.data as nat) < pow2(8 * item.nbytes as nat)
    &&& item.nbytes as nat == spec_data_len(item.header)
    &&& spec_item_shape_ok(item.header)
}

pub proof fn lemma_parse_item_wf(bytes: Seq<u8>, pos: int)
    requires
        0 <= pos < bytes.len(),
        spec_parse_item(bytes, pos) is Ok,
    ensures
        spec_item_wf(spec_parse_item(bytes, pos)->Ok_0),
{
    let header = bytes[pos];
    let n = spec_data_len(header);
    let h = bytes[pos];
    assert(h & 3 < 4) by (bit_vector);
    let data_bytes = bytes.subrange(pos + 1, pos + 1 + n);
    lemma_le_val_bound(data_bytes);
    assert(pow2(8 * n) <= 0x1_0000_0000) by {
        vstd::arithmetic::power2::lemma2_to64();
        vstd::arithmetic::power2::lemma2_to64_rest();
        if 8 * n < 32 {
            vstd::arithmetic::power2::lemma_pow2_strictly_increases(8 * n, 32);
        }
    }
}

/// Every item of a successful parse is well formed.
pub proof fn lemma_parse_items_wf(bytes: Seq<u8>, pos: int)
    requires
        0 <= pos <= bytes.len(),
        spec_parse_items(bytes, pos) is Ok,
    ensures
        forall|i: int|
            0 <= i < spec_parse_items(bytes, pos)->Ok_0.len() ==> spec_item_wf(
                #[trigger] spec_parse_items(bytes, pos)->Ok_0[i],
            ),
    decreases bytes.len() - pos,
{
    if pos < bytes.len() {
        let item = spec_parse_item(bytes, pos)->Ok_0;
        lemma_parse_item_wf(bytes, pos);
        lemma_parse_items_wf(bytes, pos + 1 + spec_data_len(item.header));
        let rest = spec_parse_items(bytes, pos + 1 + spec_data_len(item.header))->Ok_0;
        let whole = spec_parse_items(bytes, pos)->Ok_0;
        assert forall|i: int| 0 <= i < whole.len() implies spec_item_wf(#[trigger] whole[i]) by {
            if i > 0 {
                assert(whole[i] == rest[i - 1]);
            }
        }
    }
}

impl Item {
    /// Total length of the item in the descriptor: prefix plus data bytes.
    pub fn size(&self) -> (r: usize)
        requires
            self.nbytes as nat == spec_data_len(self.header),
        ensures
            r == 1 + spec_data_len(self.header),
    {
        1 + (self.nbytes as usize)
    }

    pub fn class(&self) -> (r: ItemClass)
        ensures
            r is Main <==> spec_is_main(self.header),
            r is Global <==> spec_is_global(self.header),
            r is Local <==> spec_is_local(self.header),
    {
        let h = self.header;
        let code = (h >> 2u8) & 3;
        proof {
            assert((h >> 2u8) & 3 < 4) by (bit_vector);
        }
        if code == 0 {
            ItemClass::Main
        } else if code == 1 {
            ItemClass::Global
        } else if code == 2 {
            ItemClass::Local
        } else {
            ItemClass::Reserved
        }
    }

    pub fn tag(&self) -> (r: u8)
        ensures
            r == spec_tag(self.header),
    {
        self.header >> 4u8
    }

    /// The item data zero-extended, as unsigned-semantics tags read it.
    pub fn data_u32(&self) -> (r: u32)
        ensures
            r == self.data,
    {
        self.data
    }

    /// The item data sign-extended by its encoded width, as signed-semantics
    /// tags (LogicalMinimum/Maximum, PhysicalMinimum/Maximum, UnitExponent)
    /// read it.
    pub fn data_i32(&self) -> (r: i32)
        ensures
            r as int == spec_sign_extend(self.data, self.nbytes),
    {
        if self.nbytes == 0 {
            0
        } else if self.nbytes == 1 {
            let b: u32 = self.data & 0xFF;
            proof {
                let d = self.data;
                assert(d & 0xFF < 0x100) by (bit_vector);
            }
            if b >= 0x80 {
                (b as i32) - 0x100
            } else {
                b as i32
            }
        } else if self.nbytes == 2 {
            let w: u32 = self.data & 0xFFFF;
            proof {
                let d = self.data;
                assert(d & 0xFFFF < 0x10000) by (bit_vector);
            }
            if w >= 0x8000 {
                (w as i32) - 0x10000
            } else {
                w as i32
            }
        } else {
            if self.data >= 0x8000_0000 {
                (((self.data as i64) - 0x1_0000_0000) as i32)
            } else {
                self.data as i32
            }
        }
    }

    /// The low 16 bits of the item data, as UsagePage and usage ids read it.
    pub fn data_u16(&self) -> (r: u16)
        ensures
            r == (self.data & 0xFFFF) as u16,
            r as nat == (self.data & 0xFFFF) as nat,
    {
        proof {
            let d = self.data;
            assert(d & 0xFFFF == d % 0x10000) by (bit_vector);
        }
        (self.data % 0x10000) as u16
    }

    /// The low 8 bits of the item data, as ReportId reads it.
    pub fn data_u8(&self) -> (r: u8)
        ensures
            r == (self.data & 0xFF) as u8,
            r as nat == (self.data & 0xFF) as nat,
    {
        proof {
            let d = self.data;
            assert(d & 0xFF == d % 0x100) by (bit_vector);
        }
        (self.data % 0x100) as u8
    }
}

pub open spec fn spec_sign_extend(data: u32, nbytes: u8) -> int {
    if nbytes == 0 {
        0
    } else if nbytes == 1 {
        let b = data & 0xFF;
        if b >= 0x80 {
            b - 0x100
        } else {
            b as int
        }
    } else if nbytes == 2 {
        let w = data & 0xFFFF;
        if w >= 0x8000 {
            w - 0x10000
        } else {
            w as int
        }
    } else {
        if data >= 0x8000_0000 {
            data - 0x1_0000_0000
        } else {
            data as int
        }
    }
}

/// Parses the single item whose prefix byte stands at `pos`.
pub fn parse_item(bytes: &[u8], pos: usize) -> (r: Result<Item, FormatError>)
    requires
        pos < bytes@.len(),
    ensures
        r == spec_parse_item(bytes@, pos as int),
{
    let header = bytes[pos];
    let code: u8 = header & 3;
    proof {
        assert(header & 3 < 4) by (bit_vector);
    }
    let n: usize = if code == 3 {
        4
    } else {
        code as usize
    };
    if bytes.len() - pos <= n {
        return Err(FormatError::TruncatedItem);
    }
    let tag = header >> 4u8;
    let class_code = (header >> 2u8) & 3;
    proof {
        assert((header >> 2u8) & 3 < 4) by (bit_vector);
    }
    let shape_ok: bool = if class_code == 0 {
        ((tag == MAIN_INPUT || tag == MAIN_OUTPUT || tag == MAIN_FEATURE) && n >= 1) || tag
            == MAIN_COLLECTION || tag == MAIN_END_COLLECTION
    } else if class_code == 1 {
        !(tag == GLOBAL_REPORT_SIZE || tag == GLOBAL_REPORT_ID || tag == GLOBAL_REPORT_COUNT) || n
            >= 1
    } else if class_code == 2 {
        n >= 1
    } else {
        true
    };
    if !shape_ok {
        return Err(FormatError::InvalidItem);
    }
    let len: usize = bytes.len();
    let mut data: u32 = 0;
    let mut i: usize = 0;
    let ghost data_seq = bytes@.subrange(pos + 1, pos + 1 + n);
    proof {
        vstd::arithmetic::power2::lemma2_to64();
        assert(data_seq.take(0) =~= Seq::<u8>::empty());
    }
    while i < n
        invariant
            i <= n,
            n <= 4,
            pos + 1 + n <= len,
            len == bytes@.len(),
            data_seq == bytes@.subrange(pos + 1, pos + 1 + n),
            data as nat == spec_le_val(data_seq.take(i as int)),
            (data as nat) < pow2(8 * i as nat),
        decreases n - i,
    {
        let b = bytes[pos + 1 + i];
        proof {
            lemma_le_val_take_push(data_seq, i as int);
            lemma_le_val_bound(data_seq.take(i + 1));
            vstd::arithmetic::power2::lemma2_to64();
            vstd::arithmetic::power2::lemma_pow2_adds(8 * i as nat, 8);
            let ii = i;
            assert((b as u32) << ((8 * ii) as u32) == (b as u32) * pow2((8 * ii) as nat)) by {
                vstd::arithmetic::mul::lemma_mul_inequality(
                    b as int,
                    255,
                    pow2((8 * ii) as nat) as int,
                );
                vstd::bits::lemma_u32_shl_is_mul(b as u32, (8 * ii) as u32);
            }
            assert(data_seq[i as int] == bytes@[pos + 1 + i]);
            vstd::arithmetic::mul::lemma_mul_inequality(
                b as int,
                255,
                pow2((8 * ii) as nat) as int,
            );
        }
        data = data + ((b as u32) << ((8 * i) as u32));
        i = i + 1;
    }
    proof {
        assert(data_seq.take(n as int) =~= data_seq);
    }
    Ok(Item { header, data, nbytes: n as u8, offset: pos })
}

/// `le_val` of one more byte appended at the high end.
proof fn lemma_le_val_take_push(s: Seq<u8>, i: int)
    requires
        0 <= i < s.len(),
    ensures
        spec_le_val(s.take(i + 1)) == spec_le_val(s.take(i)) + s[i] * pow2(8 * i as nat),
    decreases i,
{
    vstd::arithmetic::power2::lemma2_to64();
    if i == 0 {
        assert(s.take(1).skip(1) =~= Seq::<u8>::empty());
        assert(s.take(0) =~= Seq::<u8>::empty());
        assert(spec_le_val(Seq::<u8>::empty()) == 0);
        assert(spec_le_val(s.take(1)) == s[0] + 256 * spec_le_val(s.take(1).skip(1)));
        assert(spec_le_val(s.take(1)) == s[0]);
        assert(pow2(0) == 1);
        assert(8 * i as nat == 0);
        assert(pow2(8 * i as nat) == 1);
        assert(s[i] * pow2(8 * i as nat) == s[0]);
        assert(spec_le_val(s.take(i + 1)) == spec_le_val(s.take(i)) + s[i] * pow2(8 * i as nat));
    } else {
        let t1 = s.take(i + 1);
        let t0 = s.take(i);
        assert(t1.skip(1) =~= s.skip(1).take(i));
        assert(t0.skip(1) =~= s.skip(1).take(i - 1));
        assert(t1[0] == s[0] && t0[0] == s[0]);
        assert(spec_le_val(t0) == s[0] + 256 * spec_le_val(s.skip(1).take(i - 1)));
        lemma_le_val_take_push(s.skip(1), i - 1);
        assert(s.skip(1)[i - 1] == s[i]);
        vstd::arithmetic::power2::lemma_pow2_adds(8, 8 * ((i - 1) as nat));
        assert(8 + 8 * ((i - 1) as nat) == 8 * (i as nat));
        assert(pow2(8) == 256);
        assert(pow2(8 * (i as nat)) == 256 * pow2(8 * ((i - 1) as nat)));
        let p: int = pow2(8 * ((i - 1) as nat)) as int;
        let a: int = spec_le_val(s.skip(1).take(i - 1)) as int;
        let b: int = s[i] as int;
        assert(spec_le_val(t1) == s[0] + 256 * spec_le_val(s.skip(1).take(i)));
        assert(spec_le_val(s.skip(1).take(i)) == a + b * p);
        assert(spec_le_val(t1) == s[0] + 256 * (a + b * p));
        assert(256 * (a + b * p) == 256 * a + 256 * (b * p));
        assert(256 * (b * p) == b * (256 * p)) by {
            vstd::arithmetic::mul::lemma_mul_is_associative(256, b, p);
            vstd::arithmetic::mul::lemma_mul_is_commutative(256, b);
            vstd::arithmetic::mul::lemma_mul_is_associative(b, 256, p);
        }
        assert(spec_le_val(t1) == spec_le_val(t0) + b * (256 * p));
        assert(b * (256 * p) == s[i] * pow2(8 * i as nat));
        assert(spec_le_val(s.take(i + 1)) == spec_le_val(s.take(i)) + s[i] * pow2(8 * i as nat));
    }
}

/// Splits a whole report descriptor into its items. Succeeds exactly when
/// the descriptor is a seamless sequence of well-shaped items.
pub fn parse_items(bytes: &[u8]) -> (r: Result<Vec<Item>, FormatError>)
    ensures
        r matches Ok(v) ==> spec_parse_items(bytes@, 0) == Ok::<Seq<Item>, FormatError>(v@),
        r matches Err(e) ==> spec_parse_items(bytes@, 0) == Err::<Seq<Item>, FormatError>(e),
{
    let mut items: Vec<Item> = Vec::new();
    let mut pos: usize = 0;
    while pos < bytes.len()
        invariant
            pos <= bytes@.len(),
            spec_parse_items(bytes@, 0) == spec_items_combine(
                items@,
                spec_parse_items(bytes@, pos as int),
            ),
        decreases bytes@.len() - pos,
    {
        let r = parse_item(bytes, pos);
        match r {
            Err(e) => {
                return Err(e);
            },
            Ok(item) => {
                let sz = item.size();
                proof {
                    let prev = items@;
                    let here = spec_parse_items(bytes@, pos as int);
                    let next = spec_parse_items(bytes@, pos + 1 + spec_data_len(item.header));
                    assert(spec_parse_item(bytes@, pos as int) == Ok::<Item, FormatError>(item));
                    assert(pos + 1 + spec_data_len(item.header) <= bytes@.len());
                    assert(here == spec_items_combine(seq![item], next));
                    if next is Ok {
                        assert((prev + seq![item]) + next->Ok_0 =~= prev + (seq![item]
                            + next->Ok_0));
                    }
                    assert(spec_items_combine(prev, here) == spec_items_combine(
                        prev + seq![item],
                        next,
                    ));
                    assert(prev.push(item) =~= prev + seq![item]);
                }
                items.push(item);
                pos = pos + sz;
            },
        }
    }
    proof {
        assert(spec_parse_items(bytes@, pos as int) == Ok::<Seq<Item>, FormatError>(Seq::empty()));
        assert(items@ + Seq::<Item>::empty() =~= items@);
    }
    Ok(items)
}

pub open spec fn spec_items_combine(prefix: Seq<Item>, r: Result<Seq<Item>, FormatError>) -> Result<
    Seq<Item>,
    FormatError,
> {
    match r {
        Ok(rest) => Ok(prefix + rest),
        Err(e) => Err(e),
    }
}

} // verus!
