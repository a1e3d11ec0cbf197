//! The descriptor builder: a state machine that consumes the ordered item
//! sequence of a report descriptor and emits the device model — collections,
//! reports and fields.
//!
//! Global items update a scalar parser state that Push and Pop save and
//! restore; Local items gather pending usages that every Main item consumes
//! and clears; Collection and EndCollection open and close entries of a flat
//! collection arena; Input, Output and Feature items materialize fields into
//! the report selected by the report type and the current report id. All
//! failures abort the whole decode: no partial descriptor is returned.

use vstd::prelude::*;

verus! {

use crate::items::FormatError;
use crate::items::Item;
use crate::items::spec_tag;
use crate::items::spec_is_main;
use crate::items::spec_is_global;
use crate::items::spec_is_local;
use crate::items::spec_sign_extend;
use crate::items::spec_parse_items;
use crate::items::MAIN_INPUT;
use crate::items::MAIN_OUTPUT;
use crate::items::MAIN_COLLECTION;
use crate::items::MAIN_FEATURE;
use crate::items::MAIN_END_COLLECTION;
use crate::items::GLOBAL_USAGE_PAGE;
use crate::items::GLOBAL_LOGICAL_MINIMUM;
use crate::items::GLOBAL_LOGICAL_MAXIMUM;
use crate::items::GLOBAL_PHYSICAL_MINIMUM;
use crate::items::GLOBAL_PHYSICAL_MAXIMUM;
use crate::items::GLOBAL_UNIT_EXPONENT;
use crate::items::GLOBAL_UNIT;
use crate::items::GLOBAL_REPORT_SIZE;
use crate::items::GLOBAL_REPORT_ID;
use crate::items::GLOBAL_REPORT_COUNT;
use crate::items::GLOBAL_PUSH;
use crate::items::GLOBAL_POP;
use crate::items::LOCAL_USAGE;
use crate::items::LOCAL_USAGE_MINIMUM;
use crate::items::LOCAL_USAGE_MAXIMUM;

/// The scalar global state: each field is set by the corresponding Global
/// item and starts out unset.
#[derive(Clone, Copy, Debug, PartialEq, Eq)]
pub struct Globals {
    pub usage_page: Option<u16>,
    pub logical_minimum: Option<i32>,
    pub logical_maximum: Option<i32>,
    pub physical_minimum: Option<i32>,
    pub physical_maximum: Option<i32>,
    pub unit_exponent: Option<i32>,
    pub unit: Option<u32>,
    pub report_size: Option<u32>,
    pub report_id: Option<u8>,
    pub report_count: Option<u32>,
}

impl Globals {
    pub fn new() -> (r: Globals)
        ensures
            r == spec_initial_globals(),
    {
        Globals {
            usage_page: None,
            logical_minimum: None,
            logical_maximum: None,
            physical_minimum: None,
            physical_maximum: None,
            unit_exponent: None,
            unit: None,
            report_size: None,
            report_id: None,
            report_count: None,
        }
    }
}

pub open spec fn spec_initial_globals() -> Globals {
    Globals {
        usage_page: None,
        logical_minimum: None,
        logical_maximum: None,
        physical_minimum: None,
        physical_maximum: None,
        unit_exponent: None,
        unit: None,
        report_size: None,
        report_id: None,
        report_count: None,
    }
}

/// One pending Usage local: the page is carried only by the 4-byte form.
#[derive(Clone, Copy, Debug, PartialEq, Eq)]
pub struct LocalUsage {
    pub page: Option<u16>,
    pub id: u16,
}

#[derive(Clone, Copy, Debug, PartialEq, Eq, Structural)]
pub enum CollectionType {
    Physical,
    Application,
    Logical,
    Report,
    NamedArray,
    UsageSwitch,
    UsageModifier,
    Reserved(u8),
    VendorDefined(u8),
}

/// One collection of the arena. Collections form a tree through the parent
/// index; `id` equals the entry's index and is unique per open/close pair.
#[derive(Clone, Debug)]
pub struct Collection {
    pub id: usize,
    pub collection_type: CollectionType,
    pub usages: Vec<u32>,
    pub parent: Option<usize>,
}

/// A range of bits within a report, start inclusive, end exclusive; bit 0 is
/// the least significant bit of the report's first byte.
#[derive(Clone, Copy, Debug, PartialEq, Eq, Structural)]
pub struct BitRange {
    pub start: u64,
    pub end: u64,
}

/// A padding field: so many bits without a value.
#[derive(Clone, Debug)]
pub struct ConstantField {
    pub bits: BitRange,
}

/// One value at a fixed bit range, with one usage. The field holds signed
/// values exactly when its logical minimum is negative.
#[derive(Clone, Debug)]
pub struct VariableField {
    pub usage: u32,
    pub bits: BitRange,
    pub logical_minimum: i32,
    pub logical_maximum: i32,
    pub physical_minimum: Option<i32>,
    pub physical_maximum: Option<i32>,
    pub unit: Option<u32>,
    pub unit_exponent: Option<i32>,
    pub collections: Vec<usize>,
}

impl VariableField {
    pub open spec fn spec_is_signed(&self) -> bool {
        self.logical_minimum < 0
    }

    pub fn is_signed(&self) -> (r: bool)
        ensures
            r == self.spec_is_signed(),
    {
        self.logical_minimum < 0
    }

    /// The field's width in bits.
    pub fn width(&self) -> (r: u64)
        requires
            self.bits.start <= self.bits.end,
        ensures
            r == self.bits.end - self.bits.start,
    {
        self.bits.end - self.bits.start
    }
}

/// A group of equal-width slots whose values are indices into a usage list
/// or range.
#[derive(Clone, Debug)]
pub struct ArrayField {
    pub usages: Vec<u32>,
    pub is_usage_range: bool,
    pub report_count: u32,
    pub bits: BitRange,
    pub logical_minimum: i32,
    pub logical_maximum: i32,
    pub physical_minimum: Option<i32>,
    pub physical_maximum: Option<i32>,
    pub unit: Option<u32>,
    pub unit_exponent: Option<i32>,
    pub collections: Vec<usize>,
}

impl ArrayField {
    /// The usage range this field was declared with, as full 32-bit usages
    /// (page in the high 16 bits), if it was declared with UsageMinimum and
    /// UsageMaximum rather than individual usages.
    pub fn usage_range(&self) -> (r: Option<(u32, u32)>)
        requires
            self.usages@.len() > 0,
        ensures
            self.is_usage_range ==> r == Some::<(u32, u32)>(
                (self.usages@[0], self.usages@[self.usages@.len() - 1]),
            ),
            !self.is_usage_range ==> r is None,
    {
        if self.is_usage_range {
            Some((self.usages[0], self.usages[self.usages.len() - 1]))
        } else {
            None
        }
    }
}

#[derive(Clone, Debug)]
pub enum Field {
    Constant(ConstantField),
    Variable(VariableField),
    Array(ArrayField),
}

impl Field {
    pub open spec fn spec_bits(&self) -> BitRange {
        match self {
            Field::Constant(c) => c.bits,
            Field::Variable(v) => v.bits,
            Field::Array(a) => a.bits,
        }
    }

    pub fn bits(&self) -> (r: BitRange)
        ensures
            r == self.spec_bits(),
    {
        match self {
            Field::Constant(c) => c.bits,
            Field::Variable(v) => v.bits,
            Field::Array(a) => a.bits,
        }
    }

    /// The collection path recorded when the field was materialized: indices
    /// into the descriptor's collection arena, outermost first. Padding
    /// fields record none.
    pub fn collections(&self) -> (r: &[usize])
        ensures
            r@ == self.spec_collections(),
    {
        match self {
            Field::Constant(_) => &[],
            Field::Variable(v) => v.collections.as_slice(),
            Field::Array(a) => a.collections.as_slice(),
        }
    }

    pub open spec fn spec_collections(&self) -> Seq<usize> {
        match self {
            Field::Constant(_) => Seq::empty(),
            Field::Variable(v) => v.collections@,
            Field::Array(a) => a.collections@,
        }
    }
}

/// One report: its optional id, its fields in declaration order, and its
/// total size in bits (the id prefix byte included).
#[derive(Clone, Debug)]
pub struct Report {
    pub report_id: Option<u8>,
    pub fields: Vec<Field>,
    pub size_in_bits: u64,
}

impl Report {
    /// The report's size on the wire in bytes, bits rounded up.
    pub fn size_in_bytes(&self) -> (r: u64)
        requires
            self.size_in_bits <= u32::MAX,
        ensures
            r == (self.size_in_bits + 7) / 8,
    {
        (self.size_in_bits + 7) / 8
    }
}

/// The decoded device model: all reports by type, and the collection arena
/// that the fields' collection paths index into.
#[derive(Clone, Debug)]
pub struct ReportDescriptor {
    pub input_reports: Vec<Report>,
    pub output_reports: Vec<Report>,
    pub feature_reports: Vec<Report>,
    pub collections: Vec<Collection>,
}

// ------------------------------------------------------------------
// The specification-level state machine.
// ------------------------------------------------------------------

/// The builder state that the specification tracks: the global scalars and
/// their stack, the pending locals, the open-collection depth, the arena
/// size, and each report's accumulated size in bits, per report type in
/// order of first use.
pub ghost struct BuildState {
    pub globals: Globals,
    pub stack: Seq<Globals>,
    pub local_usages: Seq<LocalUsage>,
    pub usage_minimum: Option<u32>,
    pub usage_maximum: Option<u32>,
    pub depth: nat,
    pub ncollections: nat,
    pub input_sizes: Seq<(Option<u8>, nat)>,
    pub output_sizes: Seq<(Option<u8>, nat)>,
    pub feature_sizes: Seq<(Option<u8>, nat)>,
}

pub open spec fn spec_initial_state() -> BuildState {
    BuildState {
        globals: spec_initial_globals(),
        stack: Seq::empty(),
        local_usages: Seq::empty(),
        usage_minimum: None,
        usage_maximum: None,
        depth: 0,
        ncollections: 0,
        input_sizes: Seq::empty(),
        output_sizes: Seq::empty(),
        feature_sizes: Seq::empty(),
    }
}

impl BuildState {
    pub open spec fn with_cleared_locals(self) -> BuildState {
        BuildState {
            local_usages: Seq::empty(),
            usage_minimum: None,
            usage_maximum: None,
            ..self
        }
    }

    pub open spec fn sizes_of(self, kind: int) -> Seq<(Option<u8>, nat)> {
        if kind == 0 {
            self.input_sizes
        } else if kind == 1 {
            self.output_sizes
        } else {
            self.feature_sizes
        }
    }

    pub open spec fn with_sizes(self, kind: int, s: Seq<(Option<u8>, nat)>) -> BuildState {
        if kind == 0 {
            BuildState { input_sizes: s, ..self }
        } else if kind == 1 {
            BuildState { output_sizes: s, ..self }
        } else {
            BuildState { feature_sizes: s, ..self }
        }
    }
}

/// The index of the report with this id, if one exists yet.
pub open spec fn spec_find_id(s: Seq<(Option<u8>, nat)>, id: Option<u8>) -> Option<int>
    decreases s.len(),
{
    if s.len() == 0 {
        None
    } else if s[0].0 == id {
        Some(0)
    } else {
        match spec_find_id(s.skip(1), id) {
            Some(i) => Some(i + 1),
            None => None,
        }
    }
}

/// The error, if any, of resolving the pending locals into usages: a
/// UsageMinimum demands a UsageMaximum and a current UsagePage; an explicit
/// Usage without its own page demands a current UsagePage.
pub open spec fn spec_usage_error(st: BuildState) -> Option<FormatError> {
    if st.usage_minimum is Some {
        if st.usage_maximum is None {
            Some(FormatError::MissingUsageMaximum)
        } else if st.globals.usage_page is None {
            Some(FormatError::MissingUsagePage)
        } else {
            None
        }
    } else {
        if (exists|i: int|
            0 <= i < st.local_usages.len() && st.local_usages[i].page is None)
            && st.globals.usage_page is None {
            Some(FormatError::MissingUsagePage)
        } else {
            None
        }
    }
}

/// How many usages the pending locals resolve to: the size of the inclusive
/// range, or the count of explicit Usage items.
pub open spec fn spec_usage_count(st: BuildState) -> nat {
    if st.usage_minimum is Some {
        let mn = st.usage_minimum->Some_0;
        let mx = st.usage_maximum->Some_0;
        if mx >= mn {
            (mx - mn + 1) as nat
        } else {
            0
        }
    } else {
        st.local_usages.len()
    }
}

pub open spec fn spec_main_kind(tag: u8) -> int {
    if tag == MAIN_INPUT {
        0
    } else if tag == MAIN_OUTPUT {
        1
    } else {
        2
    }
}

/// The largest report size accepted, in bits.
pub open spec fn spec_size_cap() -> nat {
    0xFFFF_FFFF
}

/// One step of the builder on one item.
pub open spec fn spec_step(st: BuildState, item: Item) -> Result<BuildState, FormatError> {
    let tag = spec_tag(item.header);
    if spec_is_main(item.header) {
        if tag == MAIN_COLLECTION {
            match spec_usage_error(st) {
                Some(e) => Err(e),
                None => Ok(
                    BuildState {
                        depth: st.depth + 1,
                        ncollections: st.ncollections + 1,
                        ..st
                    }.with_cleared_locals(),
                ),
            }
        } else if tag == MAIN_END_COLLECTION {
            if st.depth == 0 {
                Err(FormatError::UnbalancedCollection)
            } else {
                Ok(BuildState { depth: (st.depth - 1) as nat, ..st }.with_cleared_locals())
            }
        } else {
            spec_step_main_data(st, item)
        }
    } else if spec_is_global(item.header) {
        spec_step_global(st, item)
    } else if spec_is_local(item.header) {
        Ok(spec_step_local(st, item))
    } else {
        Ok(st)
    }
}

/// An Input, Output or Feature item: materializes fields into the report
/// chosen by the report type and the current report id, creating the report
/// on first use; an id-bearing report starts at 8 bits for the id prefix.
/// With a zero report size or report count nothing is emitted.
pub open spec fn spec_step_main_data(st: BuildState, item: Item) -> Result<
    BuildState,
    FormatError,
> {
    let kind = spec_main_kind(spec_tag(item.header));
    let size = st.globals.report_size->Some_0;
    let count = st.globals.report_count->Some_0;
    if st.globals.report_size is None || st.globals.report_count is None || size == 0 || count
        == 0 {
        Ok(st.with_cleared_locals())
    } else {
        let is_constant = item.data & 1 == 1;
        if !is_constant && spec_usage_error(st) is Some {
            Err(spec_usage_error(st)->Some_0)
        } else if !is_constant && spec_usage_count(st) == 0 {
            Err(FormatError::MissingUsage)
        } else {
            let nbits = size * count;
            let id = st.globals.report_id;
            let sizes = st.sizes_of(kind);
            let cur = match spec_find_id(sizes, id) {
                Some(i) => sizes[i].1,
                None => if id is Some {
                    8 as nat
                } else {
                    0 as nat
                },
            };
            if cur + nbits > spec_size_cap() {
                Err(FormatError::DescriptorTooLarge)
            } else {
                let new_sizes = match spec_find_id(sizes, id) {
                    Some(i) => sizes.update(i, (id, (cur + nbits) as nat)),
                    None => sizes.push((id, (cur + nbits) as nat)),
                };
                Ok(st.with_sizes(kind, new_sizes).with_cleared_locals())
            }
        }
    }
}

/// A Global item: updates its scalar, or saves and restores the whole
/// scalar set on Push and Pop. A Pop with no saved snapshot fails.
pub open spec fn spec_step_global(st: BuildState, item: Item) -> Result<BuildState, FormatError> {
    let tag = spec_tag(item.header);
    let g = st.globals;
    if tag == GLOBAL_USAGE_PAGE {
        Ok(BuildState { globals: Globals { usage_page: Some((item.data & 0xFFFF) as u16), ..g }, ..st })
    } else if tag == GLOBAL_LOGICAL_MINIMUM {
        Ok(
            BuildState {
                globals: Globals {
                    logical_minimum: Some(spec_sign_extend(item.data, item.nbytes) as i32),
                    ..g
                },
                ..st
            },
        )
    } else if tag == GLOBAL_LOGICAL_MAXIMUM {
        Ok(
            BuildState {
                globals: Globals {
                    logical_maximum: Some(spec_sign_extend(item.data, item.nbytes) as i32),
                    ..g
                },
                ..st
            },
        )
    } else if tag == GLOBAL_PHYSICAL_MINIMUM {
        Ok(
            BuildState {
                globals: Globals {
                    physical_minimum: Some(spec_sign_extend(item.data, item.nbytes) as i32),
                    ..g
                },
                ..st
            },
        )
    } else if tag == GLOBAL_PHYSICAL_MAXIMUM {
        Ok(
            BuildState {
                globals: Globals {
                    physical_maximum: Some(spec_sign_extend(item.data, item.nbytes) as i32),
                    ..g
                },
                ..st
            },
        )
    } else if tag == GLOBAL_UNIT_EXPONENT {
        Ok(
            BuildState {
                globals: Globals {
                    unit_exponent: Some(spec_sign_extend(item.data, item.nbytes) as i32),
                    ..g
                },
                ..st
            },
        )
    } else if tag == GLOBAL_UNIT {
        Ok(BuildState { globals: Globals { unit: Some(item.data), ..g }, ..st })
    } else if tag == GLOBAL_REPORT_SIZE {
        Ok(BuildState { globals: Globals { report_size: Some(item.data), ..g }, ..st })
    } else if tag == GLOBAL_REPORT_ID {
        Ok(BuildState { globals: Globals { report_id: Some((item.data & 0xFF) as u8), ..g }, ..st })
    } else if tag == GLOBAL_REPORT_COUNT {
        Ok(BuildState { globals: Globals { report_count: Some(item.data), ..g }, ..st })
    } else if tag == GLOBAL_PUSH {
        Ok(BuildState { stack: st.stack.push(g), ..st })
    } else if tag == GLOBAL_POP {
        if st.stack.len() == 0 {
            Err(FormatError::StackUnderflow)
        } else {
            Ok(BuildState { globals: st.stack.last(), stack: st.stack.drop_last(), ..st })
        }
    } else {
        Ok(st)
    }
}

/// A Local item: appends a pending usage or sets a usage bound. Designator,
/// string and delimiter locals are accepted and carry no effect on the
/// emitted model. The 4-byte Usage form carries its own page in the high
/// 16 bits.
pub open spec fn spec_step_local(st: BuildState, item: Item) -> BuildState {
    let tag = spec_tag(item.header);
    if tag == LOCAL_USAGE {
        let lu = if item.nbytes == 4 {
            LocalUsage { page: Some((item.data >> 16u32) as u16), id: (item.data & 0xFFFF) as u16 }
        } else {
            LocalUsage { page: None, id: (item.data & 0xFFFF) as u16 }
        };
        BuildState { local_usages: st.local_usages.push(lu), ..st }
    } else if tag == LOCAL_USAGE_MINIMUM {
        BuildState { usage_minimum: Some(item.data), ..st }
    } else if tag == LOCAL_USAGE_MAXIMUM {
        BuildState { usage_maximum: Some(item.data), ..st }
    } else {
        st
    }
}

/// The run of the builder over the items from index `i` on.
pub open spec fn spec_build_from(st: BuildState, items: Seq<Item>, i: int) -> Result<
    BuildState,
    FormatError,
>
    decreases items.len() - i,
    when 0 <= i <= items.len()
{
    if i >= items.len() {
        Ok(st)
    } else {
        match spec_step(st, items[i]) {
            Err(e) => Err(e),
            Ok(st2) => spec_build_from(st2, items, i + 1),
        }
    }
}

/// The run of the builder over a whole item sequence.
pub open spec fn spec_build(items: Seq<Item>) -> Result<BuildState, FormatError> {
    spec_build_from(spec_initial_state(), items, 0)
}

/// The outcome of decoding raw descriptor bytes: itemize, then build.
pub open spec fn spec_decode(bytes: Seq<u8>) -> Result<BuildState, FormatError> {
    if bytes.len() == 0 {
        Err(FormatError::EmptyDescriptor)
    } else {
        match spec_parse_items(bytes, 0) {
            Err(e) => Err(e),
            Ok(items) => spec_build(items),
        }
    }
}

// ------------------------------------------------------------------
// Well-formedness of the built model.
// ------------------------------------------------------------------

/// A report is well formed: its fields tile the report seamlessly, starting
/// right after the id prefix byte if the report has an id, ending exactly at
/// the report's declared size, and every collection path points into the
/// arena.
pub open spec fn spec_report_wf(r: Report, ncoll: nat) -> bool {
    &&& r.size_in_bits <= spec_size_cap()
    &&& r.fields@.len() > 0
    &&& r.fields@[0].spec_bits().start == if r.report_id is Some {
        8int
    } else {
        0int
    }
    &&& forall|i: int|
        0 <= i < r.fields@.len() ==> (#[trigger] r.fields@[i]).spec_bits().start
            <= r.fields@[i].spec_bits().end
    &&& forall|i: int|
        0 <= i < r.fields@.len() - 1 ==> (#[trigger] r.fields@[i]).spec_bits().end
            == r.fields@[i + 1].spec_bits().start
    &&& r.fields@[r.fields@.len() - 1].spec_bits().end == r.size_in_bits
    &&& forall|i: int, j: int|
        0 <= i < r.fields@.len() && 0 <= j < (#[trigger] r.fields@[i]).spec_collections().len()
            ==> #[trigger] r.fields@[i].spec_collections()[j] < ncoll
}

/// A report list is well formed: every report is, and report ids are unique
/// within the list (the id-less report counts as one id).
pub open spec fn spec_reports_wf(rs: Seq<Report>, ncoll: nat) -> bool {
    &&& forall|i: int| 0 <= i < rs.len() ==> spec_report_wf(#[trigger] rs[i], ncoll)
    &&& forall|i: int, j: int|
        0 <= i < j < rs.len() ==> (#[trigger] rs[i]).report_id != (#[trigger] rs[j]).report_id
}

/// The collection arena is well formed: ids equal indices and parents come
/// before their children, so collections form a forest.
pub open spec fn spec_collections_wf(cs: Seq<Collection>) -> bool {
    forall|i: int|
        0 <= i < cs.len() ==> (#[trigger] cs[i]).id == i && match cs[i].parent {
            Some(p) => p < i,
            None => true,
        }
}

/// The whole decoded model is well formed.
pub open spec fn spec_rdesc_wf(rd: ReportDescriptor) -> bool {
    &&& spec_collections_wf(rd.collections@)
    &&& spec_reports_wf(rd.input_reports@, rd.collections@.len())
    &&& spec_reports_wf(rd.output_reports@, rd.collections@.len())
    &&& spec_reports_wf(rd.feature_reports@, rd.collections@.len())
}

/// The report sizes that a report list realizes, in order of first use.
pub open spec fn spec_sizes_view(rs: Seq<Report>) -> Seq<(Option<u8>, nat)> {
    rs.map_values(|r: Report| (r.report_id, r.size_in_bits as nat))
}

/// `spec_find_id` finds the first report with the given id.
proof fn lemma_find_id_at(s: Seq<(Option<u8>, nat)>, id: Option<u8>, i: int)
    requires
        0 <= i < s.len(),
        s[i].0 == id,
        forall|j: int| 0 <= j < i ==> (#[trigger] s[j]).0 != id,
    ensures
        spec_find_id(s, id) == Some(i),
    decreases i,
{
    if i > 0 {
        lemma_find_id_at(s.skip(1), id, i - 1);
        assert forall|j: int| 0 <= j < i - 1 implies (#[trigger] s.skip(1)[j]).0 != id by {
            assert(s.skip(1)[j] == s[j + 1]);
        }
    }
}

proof fn lemma_find_id_none(s: Seq<(Option<u8>, nat)>, id: Option<u8>)
    requires
        forall|j: int| 0 <= j < s.len() ==> (#[trigger] s[j]).0 != id,
    ensures
        spec_find_id(s, id) is None,
    decreases s.len(),
{
    if s.len() > 0 {
        lemma_find_id_none(s.skip(1), id);
        assert(forall|j: int| 0 <= j < s.skip(1).len() ==> (#[trigger] s.skip(1)[j]).0 != id);
    }
}

fn opt_u8_eq(a: Option<u8>, b: Option<u8>) -> (r: bool)
    ensures
        r == (a == b),
{
    match (a, b) {
        (Option::None, Option::None) => true,
        (Option::Some(x), Option::Some(y)) => x == y,
        _ => false,
    }
}

// ------------------------------------------------------------------
// The executable builder.
// ------------------------------------------------------------------

struct Builder {
    globals: Globals,
    stack: Vec<Globals>,
    local_usages: Vec<LocalUsage>,
    usage_minimum: Option<u32>,
    usage_maximum: Option<u32>,
    collections: Vec<Collection>,
    open_path: Vec<usize>,
    inputs: Vec<Report>,
    outputs: Vec<Report>,
    features: Vec<Report>,
}

impl Builder {
    spec fn model(&self) -> BuildState {
        BuildState {
            globals: self.globals,
            stack: self.stack@,
            local_usages: self.local_usages@,
            usage_minimum: self.usage_minimum,
            usage_maximum: self.usage_maximum,
            depth: self.open_path@.len(),
            ncollections: self.collections@.len(),
            input_sizes: spec_sizes_view(self.inputs@),
            output_sizes: spec_sizes_view(self.outputs@),
            feature_sizes: spec_sizes_view(self.features@),
        }
    }

    spec fn inv(&self) -> bool {
        &&& spec_collections_wf(self.collections@)
        &&& forall|i: int|
            0 <= i < self.open_path@.len() ==> #[trigger] self.open_path@[i]
                < self.collections@.len()
        &&& spec_reports_wf(self.inputs@, self.collections@.len())
        &&& spec_reports_wf(self.outputs@, self.collections@.len())
        &&& spec_reports_wf(self.features@, self.collections@.len())
    }

    fn new() -> (r: Builder)
        ensures
            r.inv(),
            r.model() == spec_initial_state(),
    {
        let b = Builder {
            globals: Globals::new(),
            stack: Vec::new(),
            local_usages: Vec::new(),
            usage_minimum: None,
            usage_maximum: None,
            collections: Vec::new(),
            open_path: Vec::new(),
            inputs: Vec::new(),
            outputs: Vec::new(),
            features: Vec::new(),
        };
        proof {
            assert(b.model().globals == spec_initial_state().globals);
            assert(b.model().stack =~= spec_initial_state().stack);
            assert(b.model().local_usages =~= spec_initial_state().local_usages);
            assert(b.model().depth == spec_initial_state().depth);
            assert(b.model().ncollections == spec_initial_state().ncollections);
            assert(b.model().input_sizes =~= spec_initial_state().input_sizes);
            assert(b.model().output_sizes =~= spec_initial_state().output_sizes);
            assert(b.model().feature_sizes =~= spec_initial_state().feature_sizes);
            assert(b.model() =~= spec_initial_state());
        }
        b
    }

    fn clear_locals(&mut self)
        ensures
            final(self).model() == old(self).model().with_cleared_locals(),
            final(self).globals == old(self).globals,
            final(self).stack == old(self).stack,
            final(self).collections == old(self).collections,
            final(self).open_path == old(self).open_path,
            final(self).inputs == old(self).inputs,
            final(self).outputs == old(self).outputs,
            final(self).features == old(self).features,
    {
        self.local_usages = Vec::new();
        self.usage_minimum = None;
        self.usage_maximum = None;
        proof {
            assert(final(self).model() =~= old(self).model().with_cleared_locals());
        }
    }

    /// Resolves the pending locals into full 32-bit usages, page in the high
    /// 16 bits: the inclusive UsageMinimum..=UsageMaximum range on the
    /// current page if a minimum was given, the explicit Usage items
    /// otherwise.
    fn compile_usages(&self) -> (r: Result<Vec<u32>, FormatError>)
        ensures
            r matches Err(e) ==> spec_usage_error(self.model()) == Some(e),
            r matches Ok(v) ==> spec_usage_error(self.model()) is None && v@.len()
                == spec_usage_count(self.model()),
    {
        match self.usage_minimum {
            Some(mn) => {
                let mx = match self.usage_maximum {
                    None => {
                        return Err(FormatError::MissingUsageMaximum);
                    },
                    Some(mx) => mx,
                };
                let page = match self.globals.usage_page {
                    None => {
                        return Err(FormatError::MissingUsagePage);
                    },
                    Some(p) => p,
                };
                let mut v: Vec<u32> = Vec::new();
                if mn <= mx {
                    let mut u: u32 = mn;
                    loop
                        invariant_except_break
                            mn <= u <= mx,
                            v@.len() == u - mn,
                        ensures
                            v@.len() == mx - mn + 1,
                        decreases mx - u,
                    {
                        v.push(((page as u32) << 16u32) | (u & 0xFFFF));
                        if u == mx {
                            break ;
                        }
                        u = u + 1;
                    }
                }
                Ok(v)
            },
            None => {
                let mut v: Vec<u32> = Vec::new();
                let mut i: usize = 0;
                while i < self.local_usages.len()
                    invariant
                        self.usage_minimum is None,
                        i <= self.local_usages@.len(),
                        v@.len() == i,
                        forall|j: int|
                            0 <= j < i ==> !((#[trigger] self.local_usages@[j]).page is None
                                && self.globals.usage_page is None),
                    decreases self.local_usages@.len() - i,
                {
                    let lu = self.local_usages[i];
                    let page: u16 = match lu.page {
                        Some(p) => p,
                        None => {
                            match self.globals.usage_page {
                                Some(p) => p,
                                None => {
                                    proof {
                                        let st = self.model();
                                        assert(st.local_usages[i as int].page is None);
                                        assert(st.usage_minimum is None);
                                        assert(st.globals.usage_page is None);
                                        assert(exists|k: int|
                                            0 <= k < st.local_usages.len()
                                                && st.local_usages[k].page is None);
                                        assert(spec_usage_error(st) == Some(
                                            FormatError::MissingUsagePage,
                                        ));
                                    }
                                    return Err(FormatError::MissingUsagePage);
                                },
                            }
                        },
                    };
                    v.push(((page as u32) << 16u32) | (lu.id as u32));
                    i = i + 1;
                }
                Ok(v)
            },
        }
    }
}

/// The product of two `u32` values fits in a `u64`.
proof fn lemma_u32_mul_fits(a: u32, b: u32)
    ensures
        (a as int) * (b as int) <= 0xFFFF_FFFE_0000_0001,
        (a as int) * (b as int) >= 0,
{
    vstd::arithmetic::mul::lemma_mul_inequality(a as int, 0xFFFF_FFFF, b as int);
    vstd::arithmetic::mul::lemma_mul_inequality(b as int, 0xFFFF_FFFF, 0xFFFF_FFFF);
    vstd::arithmetic::mul::lemma_mul_is_commutative(a as int, b as int);
    vstd::arithmetic::mul::lemma_mul_is_commutative(0xFFFF_FFFF, b as int);
    vstd::arithmetic::mul::lemma_mul_nonnegative(a as int, b as int);
}

fn clone_usize_vec(v: &Vec<usize>) -> (r: Vec<usize>)
    ensures
        r@ == v@,
{
    let mut r: Vec<usize> = Vec::new();
    let mut i: usize = 0;
    while i < v.len()
        invariant
            i <= v@.len(),
            r@ == v@.take(i as int),
        decreases v@.len() - i,
    {
        r.push(v[i]);
        proof {
            assert(r@ =~= v@.take(i + 1));
        }
        i = i + 1;
    }
    proof {
        assert(v@.take(v@.len() as int) =~= v@);
    }
    r
}

impl Builder {
    /// Materializes the fields of one Input, Output or Feature item: one
    /// padding field for a Constant item, one field per repetition for a
    /// Variable item (repetitions past the supplied usages reuse the last
    /// usage), or one Array field covering all repetitions. The fields tile
    /// the bit range `base .. base + size * count` seamlessly.
    fn make_fields(
        base: u64,
        size: u32,
        count: u32,
        constant: bool,
        variable: bool,
        usages: Vec<u32>,
        is_range: bool,
        g: Globals,
        path: &Vec<usize>,
    ) -> (fields: Vec<Field>)
        requires
            size >= 1,
            count >= 1,
            base + (size as int) * (count as int) <= spec_size_cap(),
            !constant ==> usages@.len() >= 1,
        ensures
            fields@.len() > 0,
            fields@[0].spec_bits().start == base,
            forall|i: int|
                0 <= i < fields@.len() ==> (#[trigger] fields@[i]).spec_bits().start
                    <= fields@[i].spec_bits().end,
            forall|i: int|
                0 <= i < fields@.len() - 1 ==> (#[trigger] fields@[i]).spec_bits().end
                    == fields@[i + 1].spec_bits().start,
            fields@[fields@.len() - 1].spec_bits().end == base + (size as int) * (count as int),
            forall|i: int|
                0 <= i < fields@.len() ==> (#[trigger] fields@[i]).spec_collections() == path@
                    || fields@[i].spec_collections() == Seq::<usize>::empty(),
    {
        proof {
            lemma_u32_mul_fits(size, count);
        }
        let nbits: u64 = (size as u64) * (count as u64);
        let lmin: i32 = match g.logical_minimum {
            Some(v) => v,
            None => 0,
        };
        let lmax: i32 = match g.logical_maximum {
            Some(v) => v,
            None => 0,
        };
        // A lone physical bound is completed with zero for the missing one.
        let (pmin, pmax): (Option<i32>, Option<i32>) = match (
            g.physical_minimum,
            g.physical_maximum,
        ) {
            (Some(a), None) => (Some(a), Some(0)),
            (None, Some(b)) => (Some(0), Some(b)),
            (a, b) => (a, b),
        };
        let mut fields: Vec<Field> = Vec::new();
        if constant {
            fields.push(
                Field::Constant(ConstantField { bits: BitRange { start: base, end: base + nbits } }),
            );
        } else if variable {
            let mut c: u32 = 0;
            let mut start: u64 = base;
            while c < count
                invariant
                    c <= count,
                    size >= 1,
                    count >= 1,
                    usages@.len() >= 1,
                    base + (size as int) * (count as int) <= spec_size_cap(),
                    start == base + (size as int) * (c as int),
                    fields@.len() == c,
                    forall|i: int|
                        0 <= i < fields@.len() ==> (#[trigger] fields@[i]).spec_bits().start
                            == base + (size as int) * i && fields@[i].spec_bits().end == base + (
                        size as int) * (i + 1),
                    forall|i: int|
                        0 <= i < fields@.len() ==> (#[trigger] fields@[i]).spec_collections()
                            == path@,
                decreases count - c,
            {
                proof {
                    vstd::arithmetic::mul::lemma_mul_is_distributive_add(
                        size as int,
                        c as int,
                        1,
                    );
                    vstd::arithmetic::mul::lemma_mul_inequality(
                        c as int + 1,
                        count as int,
                        size as int,
                    );
                    vstd::arithmetic::mul::lemma_mul_is_commutative(c as int + 1, size as int);
                    vstd::arithmetic::mul::lemma_mul_is_commutative(count as int, size as int);
                    vstd::arithmetic::mul::lemma_mul_nonnegative(size as int, c as int);
                }
                let uidx: usize = if (c as usize) < usages.len() {
                    c as usize
                } else {
                    usages.len() - 1
                };
                fields.push(
                    Field::Variable(
                        VariableField {
                            usage: usages[uidx],
                            bits: BitRange { start, end: start + (size as u64) },
                            logical_minimum: lmin,
                            logical_maximum: lmax,
                            physical_minimum: pmin,
                            physical_maximum: pmax,
                            unit: g.unit,
                            unit_exponent: g.unit_exponent,
                            collections: clone_usize_vec(path),
                        },
                    ),
                );
                start = start + (size as u64);
                c = c + 1;
            }
            proof {
                assert forall|i: int|
                    0 <= i < fields@.len() implies (#[trigger] fields@[i]).spec_bits().start
                    <= fields@[i].spec_bits().end by {
                    vstd::arithmetic::mul::lemma_mul_is_distributive_add(size as int, i, 1);
                    vstd::arithmetic::mul::lemma_mul_nonnegative(size as int, i);
                }
                assert(fields@[0].spec_bits().start == base);
                assert(fields@[fields@.len() - 1].spec_bits().end == base + (size as int) * (
                count as int));
            }
        } else {
            fields.push(
                Field::Array(
                    ArrayField {
                        usages,
                        is_usage_range: is_range,
                        report_count: count,
                        bits: BitRange { start: base, end: base + nbits },
                        logical_minimum: lmin,
                        logical_maximum: lmax,
                        physical_minimum: pmin,
                        physical_maximum: pmax,
                        unit: g.unit,
                        unit_exponent: g.unit_exponent,
                        collections: clone_usize_vec(path),
                    },
                ),
            );
        }
        fields
    }

    /// Appends the fields of one main item to the report with this id in
    /// this report list, creating the report on first use; a report with an
    /// id starts at 8 bits for the id prefix byte. Fails when the report
    /// would grow past the supported size cap.
    fn emit_fields(
        reports: &mut Vec<Report>,
        id: Option<u8>,
        size: u32,
        count: u32,
        constant: bool,
        variable: bool,
        usages: Vec<u32>,
        is_range: bool,
        g: Globals,
        path: Vec<usize>,
        Ghost(ncoll): Ghost<nat>,
    ) -> (r: Result<(), FormatError>)
        requires
            spec_reports_wf(old(reports)@, ncoll),
            size >= 1,
            count >= 1,
            !constant ==> usages@.len() >= 1,
            forall|j: int| 0 <= j < path@.len() ==> #[trigger] path@[j] < ncoll,
        ensures
            ({
                let sizes = spec_sizes_view(old(reports)@);
                let nbits = (size as int) * (count as int);
                let cur: int = match spec_find_id(sizes, id) {
                    Some(i) => sizes[i].1 as int,
                    None => if id is Some {
                        8int
                    } else {
                        0int
                    },
                };
                &&& (r matches Ok(_) ==> {
                    &&& cur + nbits <= spec_size_cap()
                    &&& spec_reports_wf(final(reports)@, ncoll)
                    &&& spec_sizes_view(final(reports)@) == (match spec_find_id(sizes, id) {
                        Some(i) => sizes.update(i, (id, (cur + nbits) as nat)),
                        None => sizes.push((id, (cur + nbits) as nat)),
                    })
                })
                &&& (r matches Err(e) ==> e == FormatError::DescriptorTooLarge && cur + nbits
                    > spec_size_cap())
            }),
    {
        proof {
            lemma_u32_mul_fits(size, count);
        }
        let ghost sizes = spec_sizes_view(old(reports)@);
        let nbits: u64 = (size as u64) * (count as u64);
        if nbits > 0xFFFF_FFFFu64 {
            return Err(FormatError::DescriptorTooLarge);
        }
        let mut idx: usize = 0;
        let mut found = false;
        while idx < reports.len()
            invariant_except_break
                reports == old(reports),
                idx <= reports@.len(),
                !found,
                forall|j: int| 0 <= j < idx ==> (#[trigger] reports@[j]).report_id != id,
            ensures
                reports == old(reports),
                found ==> idx < reports@.len() && reports@[idx as int].report_id == id,
                forall|j: int| 0 <= j < idx ==> (#[trigger] reports@[j]).report_id != id,
                !found ==> forall|j: int|
                    0 <= j < reports@.len() ==> (#[trigger] reports@[j]).report_id != id,
            decreases reports@.len() - idx,
        {
            if opt_u8_eq(reports[idx].report_id, id) {
                found = true;
                break ;
            }
            idx = idx + 1;
        }
        proof {
            assert(forall|j: int|
                0 <= j < sizes.len() ==> (#[trigger] sizes[j]).0 == reports@[j].report_id);
            if found {
                assert(sizes[idx as int].0 == id);
                assert(forall|j: int| 0 <= j < idx ==> (#[trigger] sizes[j]).0 != id);
                lemma_find_id_at(sizes, id, idx as int);
            } else {
                assert(forall|j: int| 0 <= j < sizes.len() ==> (#[trigger] sizes[j]).0 != id);
                lemma_find_id_none(sizes, id);
            }
        }
        if found {
            let mut rep = reports.remove(idx);
            if rep.size_in_bits > 0xFFFF_FFFFu64 - nbits {
                return Err(FormatError::DescriptorTooLarge);
            }
            let base = rep.size_in_bits;
            let mut fields = Self::make_fields(
                base,
                size,
                count,
                constant,
                variable,
                usages,
                is_range,
                g,
                &path,
            );
            let ghost old_fields = rep.fields@;
            let ghost new_fields = fields@;
            rep.fields.append(&mut fields);
            rep.size_in_bits = base + nbits;
            proof {
                let r2 = rep;
                assert(r2.fields@ == old_fields + new_fields);
                assert(spec_report_wf(old(reports)@[idx as int], ncoll));
                assert forall|i: int|
                    0 <= i < r2.fields@.len() implies (#[trigger] r2.fields@[i]).spec_bits().start
                    <= r2.fields@[i].spec_bits().end by {
                    if i < old_fields.len() {
                        assert(r2.fields@[i] == old_fields[i]);
                    } else {
                        assert(r2.fields@[i] == new_fields[i - old_fields.len()]);
                    }
                }
                assert forall|i: int|
                    0 <= i < r2.fields@.len() - 1 implies (#[trigger] r2.fields@[i]).spec_bits().end
                    == r2.fields@[i + 1].spec_bits().start by {
                    if i < old_fields.len() - 1 {
                        assert(r2.fields@[i] == old_fields[i]);
                        assert(r2.fields@[i + 1] == old_fields[i + 1]);
                    } else if i == old_fields.len() - 1 {
                        assert(r2.fields@[i] == old_fields[i]);
                        assert(r2.fields@[i + 1] == new_fields[0]);
                    } else {
                        assert(r2.fields@[i] == new_fields[i - old_fields.len()]);
                        assert(r2.fields@[i + 1] == new_fields[i + 1 - old_fields.len()]);
                    }
                }
                assert forall|i: int, j: int|
                    0 <= i < r2.fields@.len() && 0 <= j < (
                    #[trigger] r2.fields@[i]).spec_collections().len() implies #[trigger] r2.fields@[i].spec_collections()[j]
                    < ncoll by {
                    if i < old_fields.len() {
                        assert(r2.fields@[i] == old_fields[i]);
                    } else {
                        assert(r2.fields@[i] == new_fields[i - old_fields.len()]);
                        assert(r2.fields@[i].spec_collections() == path@
                            || r2.fields@[i].spec_collections() == Seq::<usize>::empty());
                    }
                }
                assert(r2.fields@[r2.fields@.len() - 1].spec_bits().end == r2.size_in_bits);
                assert(r2.fields@[0].spec_bits().start == if r2.report_id is Some {
                    8int
                } else {
                    0int
                });
                assert(spec_report_wf(r2, ncoll));
            }
            reports.insert(idx, rep);
            proof {
                assert(reports@ =~= old(reports)@.update(idx as int, reports@[idx as int]));
                assert forall|i: int, j: int|
                    0 <= i < j < reports@.len() implies (#[trigger] reports@[i]).report_id != (
                    #[trigger] reports@[j]).report_id by {
                    assert(reports@[i].report_id == old(reports)@[i].report_id);
                    assert(reports@[j].report_id == old(reports)@[j].report_id);
                }
                assert(spec_sizes_view(reports@) =~= sizes.update(
                    idx as int,
                    (id, (sizes[idx as int].1 + (size as int) * (count as int)) as nat),
                ));
            }
            Ok(())
        } else {
            let base: u64 = match id {
                Some(_) => 8,
                None => 0,
            };
            if nbits > 0xFFFF_FFFFu64 - base {
                return Err(FormatError::DescriptorTooLarge);
            }
            let fields = Self::make_fields(
                base,
                size,
                count,
                constant,
                variable,
                usages,
                is_range,
                g,
                &path,
            );
            let rep = Report { report_id: id, fields, size_in_bits: base + nbits };
            proof {
                assert(spec_report_wf(rep, ncoll));
            }
            reports.push(rep);
            proof {
                assert(spec_sizes_view(reports@) =~= sizes.push(
                    (id, (base + (size as int) * (count as int)) as nat),
                ));
                assert forall|i: int, j: int|
                    0 <= i < j < reports@.len() implies (#[trigger] reports@[i]).report_id != (
                    #[trigger] reports@[j]).report_id by {
                    if j < reports@.len() - 1 {
                        assert(reports@[i] == old(reports)@[i]);
                        assert(reports@[j] == old(reports)@[j]);
                    } else {
                        assert(reports@[i] == old(reports)@[i]);
                    }
                }
            }
            Ok(())
        }
    }
}

/// Well-formedness against an arena bound is monotone in the bound.
proof fn lemma_reports_wf_mono(rs: Seq<Report>, n1: nat, n2: nat)
    requires
        spec_reports_wf(rs, n1),
        n1 <= n2,
    ensures
        spec_reports_wf(rs, n2),
{
    assert forall|i: int| 0 <= i < rs.len() implies spec_report_wf(#[trigger] rs[i], n2) by {
        assert(spec_report_wf(rs[i], n1));
    }
}

impl Builder {
    fn apply_global(&mut self, item: Item) -> (r: Result<(), FormatError>)
        requires
            spec_is_global(item.header),
        ensures
            final(self).collections == old(self).collections,
            final(self).open_path == old(self).open_path,
            final(self).inputs == old(self).inputs,
            final(self).outputs == old(self).outputs,
            final(self).features == old(self).features,
            r matches Ok(_) ==> spec_step_global(old(self).model(), item) == Ok::<
                BuildState,
                FormatError,
            >(final(self).model()),
            r matches Err(e) ==> spec_step_global(old(self).model(), item) == Err::<
                BuildState,
                FormatError,
            >(e),
    {
        let ghost st0 = self.model();
        let tag = item.tag();
        if tag == GLOBAL_USAGE_PAGE {
            self.globals.usage_page = Some(item.data_u16());
        } else if tag == GLOBAL_LOGICAL_MINIMUM {
            self.globals.logical_minimum = Some(item.data_i32());
        } else if tag == GLOBAL_LOGICAL_MAXIMUM {
            self.globals.logical_maximum = Some(item.data_i32());
        } else if tag == GLOBAL_PHYSICAL_MINIMUM {
            self.globals.physical_minimum = Some(item.data_i32());
        } else if tag == GLOBAL_PHYSICAL_MAXIMUM {
            self.globals.physical_maximum = Some(item.data_i32());
        } else if tag == GLOBAL_UNIT_EXPONENT {
            self.globals.unit_exponent = Some(item.data_i32());
        } else if tag == GLOBAL_UNIT {
            self.globals.unit = Some(item.data_u32());
        } else if tag == GLOBAL_REPORT_SIZE {
            self.globals.report_size = Some(item.data_u32());
        } else if tag == GLOBAL_REPORT_ID {
            self.globals.report_id = Some(item.data_u8());
        } else if tag == GLOBAL_REPORT_COUNT {
            self.globals.report_count = Some(item.data_u32());
        } else if tag == GLOBAL_PUSH {
            let g = self.globals;
            self.stack.push(g);
        } else if tag == GLOBAL_POP {
            match self.stack.pop() {
                None => {
                    return Err(FormatError::StackUnderflow);
                },
                Some(g) => {
                    self.globals = g;
                },
            }
        }
        proof {
            assert(spec_step_global(st0, item) == Ok::<BuildState, FormatError>(self.model()));
        }
        Ok(())
    }

    fn apply_local(&mut self, item: Item)
        requires
            spec_is_local(item.header),
        ensures
            final(self).collections == old(self).collections,
            final(self).open_path == old(self).open_path,
            final(self).inputs == old(self).inputs,
            final(self).outputs == old(self).outputs,
            final(self).features == old(self).features,
            final(self).model() == spec_step_local(old(self).model(), item),
    {
        let ghost st0 = self.model();
        let tag = item.tag();
        if tag == LOCAL_USAGE {
            let lu = if item.nbytes == 4 {
                let d = item.data_u32();
                let hi = d >> 16u32;
                proof {
                    assert(d >> 16u32 < 0x10000) by (bit_vector);
                }
                LocalUsage { page: Some(hi as u16), id: item.data_u16() }
            } else {
                LocalUsage { page: None, id: item.data_u16() }
            };
            self.local_usages.push(lu);
        } else if tag == LOCAL_USAGE_MINIMUM {
            self.usage_minimum = Some(item.data_u32());
        } else if tag == LOCAL_USAGE_MAXIMUM {
            self.usage_maximum = Some(item.data_u32());
        }
        proof {
            assert(self.model() == spec_step_local(st0, item));
        }
    }

    /// One Input, Output or Feature item: materializes its fields into the
    /// selected report and clears the pending locals.
    fn apply_main_data(&mut self, item: Item) -> (r: Result<(), FormatError>)
        requires
            old(self).inv(),
            spec_is_main(item.header),
            spec_tag(item.header) == MAIN_INPUT || spec_tag(item.header) == MAIN_OUTPUT
                || spec_tag(item.header) == MAIN_FEATURE,
        ensures
            r matches Ok(_) ==> final(self).inv() && spec_step_main_data(old(self).model(), item)
                == Ok::<BuildState, FormatError>(final(self).model()),
            r matches Err(e) ==> spec_step_main_data(old(self).model(), item) == Err::<
                BuildState,
                FormatError,
            >(e),
    {
        let ghost st0 = self.model();
        let size: u32 = match self.globals.report_size {
            None => 0,
            Some(s) => s,
        };
        let count: u32 = match self.globals.report_count {
            None => 0,
            Some(c) => c,
        };
        if size == 0 || count == 0 {
            self.clear_locals();
            proof {
                assert(spec_step_main_data(st0, item) == Ok::<BuildState, FormatError>(
                    self.model(),
                ));
            }
            return Ok(());
        }
        let d = item.data_u32();
        let is_constant = d & 1 == 1;
        let mut usages: Vec<u32> = Vec::new();
        let mut is_range = false;
        if !is_constant {
            match self.compile_usages() {
                Err(e) => {
                    return Err(e);
                },
                Ok(v) => {
                    if v.len() == 0 {
                        return Err(FormatError::MissingUsage);
                    }
                    usages = v;
                    is_range = match self.usage_minimum {
                        Some(_) => true,
                        None => false,
                    };
                },
            }
        }
        let is_variable = (d >> 1u32) & 1 == 1;
        let path = clone_usize_vec(&self.open_path);
        let g = self.globals;
        let id = g.report_id;
        let tag = item.tag();
        let ghost ncoll = self.collections@.len();
        let r = if tag == MAIN_INPUT {
            Self::emit_fields(
                &mut self.inputs,
                id,
                size,
                count,
                is_constant,
                is_variable,
                usages,
                is_range,
                g,
                path,
                Ghost(ncoll),
            )
        } else if tag == MAIN_OUTPUT {
            Self::emit_fields(
                &mut self.outputs,
                id,
                size,
                count,
                is_constant,
                is_variable,
                usages,
                is_range,
                g,
                path,
                Ghost(ncoll),
            )
        } else {
            Self::emit_fields(
                &mut self.features,
                id,
                size,
                count,
                is_constant,
                is_variable,
                usages,
                is_range,
                g,
                path,
                Ghost(ncoll),
            )
        };
        match r {
            Err(e) => {
                proof {
                    assert(spec_step_main_data(st0, item) == Err::<BuildState, FormatError>(e));
                }
                Err(e)
            },
            Ok(_) => {
                self.clear_locals();
                proof {
                    let kind = spec_main_kind(spec_tag(item.header));
                    assert(spec_step_main_data(st0, item) is Ok);
                    assert(self.model() =~= spec_step_main_data(st0, item)->Ok_0);
                }
                Ok(())
            },
        }
    }

    /// Applies one item to the builder state, as `spec_step` describes.
    fn apply_item(&mut self, item: Item) -> (r: Result<(), FormatError>)
        requires
            old(self).inv(),
            crate::items::spec_item_shape_ok(item.header),
        ensures
            r matches Ok(_) ==> final(self).inv() && spec_step(old(self).model(), item) == Ok::<
                BuildState,
                FormatError,
            >(final(self).model()),
            r matches Err(e) ==> spec_step(old(self).model(), item) == Err::<
                BuildState,
                FormatError,
            >(e),
    {
        let ghost st0 = self.model();
        let cls = item.class();
        match cls {
            crate::items::ItemClass::Main => {
                let tag = item.tag();
                if tag == MAIN_COLLECTION {
                    let ctype_byte: u8 = if item.nbytes >= 1 {
                        item.data_u8()
                    } else {
                        0
                    };
                    let ctype = collection_type_of(ctype_byte);
                    match self.compile_usages() {
                        Err(e) => {
                            return Err(e);
                        },
                        Ok(us) => {
                            let parent: Option<usize> = if self.open_path.len() > 0 {
                                Some(self.open_path[self.open_path.len() - 1])
                            } else {
                                None
                            };
                            let idx = self.collections.len();
                            self.collections.push(
                                Collection { id: idx, collection_type: ctype, usages: us, parent },
                            );
                            self.open_path.push(idx);
                            self.clear_locals();
                            proof {
                                assert(spec_step(st0, item) is Ok);
                                assert(self.model() =~= spec_step(st0, item)->Ok_0);
                                lemma_reports_wf_mono(
                                    self.inputs@,
                                    st0.ncollections,
                                    self.collections@.len(),
                                );
                                lemma_reports_wf_mono(
                                    self.outputs@,
                                    st0.ncollections,
                                    self.collections@.len(),
                                );
                                lemma_reports_wf_mono(
                                    self.features@,
                                    st0.ncollections,
                                    self.collections@.len(),
                                );
                            }
                            Ok(())
                        },
                    }
                } else if tag == MAIN_END_COLLECTION {
                    if self.open_path.len() == 0 {
                        return Err(FormatError::UnbalancedCollection);
                    }
                    let _ = self.open_path.pop();
                    self.clear_locals();
                    proof {
                        assert(spec_step(st0, item) is Ok);
                        assert(self.model() =~= spec_step(st0, item)->Ok_0);
                    }
                    Ok(())
                } else {
                    let r = self.apply_main_data(item);
                    proof {
                        if r is Ok {
                            assert(spec_step(st0, item) == spec_step_main_data(st0, item));
                        }
                    }
                    r
                }
            },
            crate::items::ItemClass::Global => {
                let r = self.apply_global(item);
                r
            },
            crate::items::ItemClass::Local => {
                self.apply_local(item);
                Ok(())
            },
            crate::items::ItemClass::Reserved => {
                proof {
                    assert(spec_step(st0, item) == Ok::<BuildState, FormatError>(self.model()));
                }
                Ok(())
            },
        }
    }
}

fn collection_type_of(v: u8) -> (r: CollectionType)
    ensures
        r == spec_collection_type_of(v),
{
    if v == 0 {
        CollectionType::Physical
    } else if v == 1 {
        CollectionType::Application
    } else if v == 2 {
        CollectionType::Logical
    } else if v == 3 {
        CollectionType::Report
    } else if v == 4 {
        CollectionType::NamedArray
    } else if v == 5 {
        CollectionType::UsageSwitch
    } else if v == 6 {
        CollectionType::UsageModifier
    } else if v <= 0x7F {
        CollectionType::Reserved(v)
    } else {
        CollectionType::VendorDefined(v)
    }
}

/// Which collection type a Collection item's first data byte names; a
/// Collection item without data means Physical.
pub open spec fn spec_collection_type_of(v: u8) -> CollectionType {
    if v == 0 {
        CollectionType::Physical
    } else if v == 1 {
        CollectionType::Application
    } else if v == 2 {
        CollectionType::Logical
    } else if v == 3 {
        CollectionType::Report
    } else if v == 4 {
        CollectionType::NamedArray
    } else if v == 5 {
        CollectionType::UsageSwitch
    } else if v == 6 {
        CollectionType::UsageModifier
    } else if v <= 0x7F {
        CollectionType::Reserved(v)
    } else {
        CollectionType::VendorDefined(v)
    }
}

/// Runs the builder over a parsed item sequence.
///
/// On success the built descriptor is well formed, its collection arena has
/// exactly the collections the run opened, and each report's id and size in
/// bits agree with the specification run; on failure the error is exactly
/// the one the specification run gives.
pub fn build(items: &Vec<Item>) -> (r: Result<ReportDescriptor, FormatError>)
    requires
        forall|i: int| 0 <= i < items@.len() ==> crate::items::spec_item_wf(#[trigger] items@[i]),
    ensures
        r matches Ok(rd) ==> {
            &&& spec_build(items@) is Ok
            &&& spec_rdesc_wf(rd)
            &&& spec_sizes_view(rd.input_reports@) == spec_build(items@)->Ok_0.input_sizes
            &&& spec_sizes_view(rd.output_reports@) == spec_build(items@)->Ok_0.output_sizes
            &&& spec_sizes_view(rd.feature_reports@) == spec_build(items@)->Ok_0.feature_sizes
            &&& rd.collections@.len() == spec_build(items@)->Ok_0.ncollections
        },
        r matches Err(e) ==> spec_build(items@) == Err::<BuildState, FormatError>(e),
{
    let mut b = Builder::new();
    let mut i: usize = 0;
    while i < items.len()
        invariant
            b.inv(),
            i <= items@.len(),
            forall|j: int|
                0 <= j < items@.len() ==> crate::items::spec_item_wf(#[trigger] items@[j]),
            spec_build(items@) == spec_build_from(b.model(), items@, i as int),
        decreases items@.len() - i,
    {
        let item = items[i];
        let ghost st0 = b.model();
        match b.apply_item(item) {
            Err(e) => {
                proof {
                    assert(spec_build_from(st0, items@, i as int) == Err::<
                        BuildState,
                        FormatError,
                    >(e));
                }
                return Err(e);
            },
            Ok(_) => {
                proof {
                    assert(spec_build_from(st0, items@, i as int) == spec_build_from(
                        b.model(),
                        items@,
                        i + 1,
                    ));
                }
                i = i + 1;
            },
        }
    }
    let rd = ReportDescriptor {
        input_reports: b.inputs,
        output_reports: b.outputs,
        feature_reports: b.features,
        collections: b.collections,
    };
    Ok(rd)
}

/// Decodes raw report descriptor bytes: itemize, then build. The decode is
/// all or nothing; an empty descriptor is rejected.
pub fn decode(bytes: &[u8]) -> (r: Result<ReportDescriptor, FormatError>)
    ensures
        r matches Ok(rd) ==> {
            &&& spec_decode(bytes@) is Ok
            &&& spec_rdesc_wf(rd)
            &&& spec_sizes_view(rd.input_reports@) == spec_decode(bytes@)->Ok_0.input_sizes
            &&& spec_sizes_view(rd.output_reports@) == spec_decode(bytes@)->Ok_0.output_sizes
            &&& spec_sizes_view(rd.feature_reports@) == spec_decode(bytes@)->Ok_0.feature_sizes
            &&& rd.collections@.len() == spec_decode(bytes@)->Ok_0.ncollections
        },
        r matches Err(e) ==> spec_decode(bytes@) == Err::<BuildState, FormatError>(e),
{
    if bytes.len() == 0 {
        return Err(FormatError::EmptyDescriptor);
    }
    match crate::items::parse_items(bytes) {
        Err(e) => Err(e),
        Ok(items) => {
            proof {
                crate::items::lemma_parse_items_wf(bytes@, 0);
            }
            build(&items)
        },
    }
}

// ------------------------------------------------------------------
// Laws of the builder.
// ------------------------------------------------------------------

pub open spec fn spec_is_push_item(item: Item) -> bool {
    spec_is_global(item.header) && spec_tag(item.header) == GLOBAL_PUSH
}

pub open spec fn spec_is_pop_item(item: Item) -> bool {
    spec_is_global(item.header) && spec_tag(item.header) == GLOBAL_POP
}

pub open spec fn spec_is_open_item(item: Item) -> bool {
    spec_is_main(item.header) && spec_tag(item.header) == MAIN_COLLECTION
}

pub open spec fn spec_is_close_item(item: Item) -> bool {
    spec_is_main(item.header) && spec_tag(item.header) == MAIN_END_COLLECTION
}

/// How many of the first `k` items satisfy one of the four bracket roles.
pub open spec fn spec_pushes(items: Seq<Item>, k: int) -> int
    decreases k,
{
    if k <= 0 {
        0
    } else {
        spec_pushes(items, k - 1) + if spec_is_push_item(items[k - 1]) {
            1int
        } else {
            0
        }
    }
}

pub open spec fn spec_pops(items: Seq<Item>, k: int) -> int
    decreases k,
{
    if k <= 0 {
        0
    } else {
        spec_pops(items, k - 1) + if spec_is_pop_item(items[k - 1]) {
            1int
        } else {
            0
        }
    }
}

pub open spec fn spec_opens(items: Seq<Item>, k: int) -> int
    decreases k,
{
    if k <= 0 {
        0
    } else {
        spec_opens(items, k - 1) + if spec_is_open_item(items[k - 1]) {
            1int
        } else {
            0
        }
    }
}

pub open spec fn spec_closes(items: Seq<Item>, k: int) -> int
    decreases k,
{
    if k <= 0 {
        0
    } else {
        spec_closes(items, k - 1) + if spec_is_close_item(items[k - 1]) {
            1int
        } else {
            0
        }
    }
}

/// Push/Pop and Collection/EndCollection pairs are balanced: no prefix
/// closes more than it opened, and the whole sequence closes everything.
pub open spec fn spec_balanced(items: Seq<Item>) -> bool {
    &&& forall|k: int|
        0 <= k <= items.len() ==> #[trigger] spec_pops(items, k) <= spec_pushes(items, k)
    &&& forall|k: int|
        0 <= k <= items.len() ==> #[trigger] spec_closes(items, k) <= spec_opens(items, k)
    &&& spec_pops(items, items.len() as int) == spec_pushes(items, items.len() as int)
    &&& spec_closes(items, items.len() as int) == spec_opens(items, items.len() as int)
}

/// The builder state after the first `i` items.
pub open spec fn spec_run_to(items: Seq<Item>, i: int) -> Result<BuildState, FormatError>
    decreases i,
    when 0 <= i
{
    if i <= 0 {
        Ok(spec_initial_state())
    } else {
        match spec_run_to(items, i - 1) {
            Err(e) => Err(e),
            Ok(st) => spec_step(st, items[i - 1]),
        }
    }
}

/// A whole run splits at any position: run the first `i` items, then the
/// rest from the state reached.
pub proof fn lemma_run_split(items: Seq<Item>, i: int)
    requires
        0 <= i <= items.len(),
    ensures
        spec_build(items) == (match spec_run_to(items, i) {
            Err(e) => Err(e),
            Ok(st) => spec_build_from(st, items, i),
        }),
    decreases i,
{
    if i > 0 {
        lemma_run_split(items, i - 1);
    }
}

/// One successful step changes the saved-globals stack exactly by its Push
/// or Pop role, and the open-collection depth exactly by its Collection or
/// EndCollection role.
proof fn lemma_step_counts(st: BuildState, item: Item)
    requires
        spec_step(st, item) is Ok,
    ensures
        spec_step(st, item)->Ok_0.stack.len() == st.stack.len() + (if spec_is_push_item(item) {
            1int
        } else {
            0
        }) - (if spec_is_pop_item(item) {
            1int
        } else {
            0
        }),
        spec_step(st, item)->Ok_0.depth == st.depth + (if spec_is_open_item(item) {
            1int
        } else {
            0
        }) - (if spec_is_close_item(item) {
            1int
        } else {
            0
        }),
{
}

/// A failing step that reports StackUnderflow is a Pop on an empty stack; one
/// that reports UnbalancedCollection is an EndCollection at depth zero.
proof fn lemma_step_error_kinds(st: BuildState, item: Item)
    requires
        spec_step(st, item) is Err,
    ensures
        spec_step(st, item) == Err::<BuildState, FormatError>(FormatError::StackUnderflow) ==> (
        spec_is_pop_item(item) && st.stack.len() == 0),
        spec_step(st, item) == Err::<BuildState, FormatError>(FormatError::UnbalancedCollection)
            ==> (spec_is_close_item(item) && st.depth == 0),
{
}

/// After the first `i` items of a successful run, the saved-globals stack
/// holds exactly the unmatched Pushes and the open-collection depth counts
/// exactly the unmatched Collections.
proof fn lemma_run_counts(items: Seq<Item>, i: int)
    requires
        0 <= i <= items.len(),
        spec_run_to(items, i) is Ok,
    ensures
        spec_run_to(items, i)->Ok_0.stack.len() == spec_pushes(items, i) - spec_pops(items, i),
        spec_run_to(items, i)->Ok_0.depth == spec_opens(items, i) - spec_closes(items, i),
    decreases i,
{
    if i > 0 {
        lemma_run_counts(items, i - 1);
        lemma_step_counts(spec_run_to(items, i - 1)->Ok_0, items[i - 1]);
    }
}

/// An EndCollection item reached with no open Collection makes the whole
/// decode fail with UnbalancedCollection.
pub proof fn lemma_end_collection_fails(items: Seq<Item>, i: int)
    requires
        0 <= i < items.len(),
        spec_run_to(items, i) is Ok,
        spec_run_to(items, i)->Ok_0.depth == 0,
        spec_is_close_item(items[i]),
    ensures
        spec_build(items) == Err::<BuildState, FormatError>(FormatError::UnbalancedCollection),
{
    lemma_run_split(items, i);
    let st = spec_run_to(items, i)->Ok_0;
    assert(spec_step(st, items[i]) == Err::<BuildState, FormatError>(
        FormatError::UnbalancedCollection,
    ));
}

/// A Pop item reached with an empty global-state stack makes the whole
/// decode fail with StackUnderflow.
pub proof fn lemma_pop_fails(items: Seq<Item>, i: int)
    requires
        0 <= i < items.len(),
        spec_run_to(items, i) is Ok,
        spec_run_to(items, i)->Ok_0.stack.len() == 0,
        spec_is_pop_item(items[i]),
    ensures
        spec_build(items) == Err::<BuildState, FormatError>(FormatError::StackUnderflow),
{
    lemma_run_split(items, i);
    let st = spec_run_to(items, i)->Ok_0;
    assert(spec_step(st, items[i]) == Err::<BuildState, FormatError>(
        FormatError::StackUnderflow,
    ));
}

/// For a descriptor whose Push/Pop and Collection/EndCollection pairs are
/// balanced, and which fails on none of the other grounds (item shape,
/// usage resolution, size cap), the build succeeds and ends with no open
/// collection and no saved globals.
pub proof fn lemma_balanced_build_succeeds(items: Seq<Item>)
    requires
        spec_balanced(items),
        spec_build(items) is Ok || spec_build(items) == Err::<BuildState, FormatError>(
            FormatError::StackUnderflow,
        ) || spec_build(items) == Err::<BuildState, FormatError>(
            FormatError::UnbalancedCollection,
        ),
    ensures
        spec_build(items) is Ok,
        spec_build(items)->Ok_0.depth == 0,
        spec_build(items)->Ok_0.stack.len() == 0,
{
    lemma_balanced_runs_ok(items, items.len() as int);
    lemma_run_split(items, items.len() as int);
    lemma_run_counts(items, items.len() as int);
}

proof fn lemma_balanced_runs_ok(items: Seq<Item>, i: int)
    requires
        spec_balanced(items),
        spec_build(items) is Ok || spec_build(items) == Err::<BuildState, FormatError>(
            FormatError::StackUnderflow,
        ) || spec_build(items) == Err::<BuildState, FormatError>(
            FormatError::UnbalancedCollection,
        ),
        0 <= i <= items.len(),
    ensures
        spec_run_to(items, i) is Ok,
    decreases i,
{
    if i > 0 {
        lemma_balanced_runs_ok(items, i - 1);
        let st = spec_run_to(items, i - 1)->Ok_0;
        let item = items[i - 1];
        lemma_run_counts(items, i - 1);
        if spec_step(st, item) is Err {
            let e = spec_step(st, item)->Err_0;
            lemma_run_split(items, i - 1);
            assert(spec_build_from(st, items, i - 1) == Err::<BuildState, FormatError>(e));
            assert(spec_build(items) == Err::<BuildState, FormatError>(e));
            lemma_step_error_kinds(st, item);
            if e == FormatError::StackUnderflow {
                assert(spec_is_pop_item(item) && st.stack.len() == 0);
                assert(spec_pops(items, i) == spec_pops(items, i - 1) + 1);
                assert(spec_pushes(items, i) == spec_pushes(items, i - 1));
                assert(spec_pops(items, i) <= spec_pushes(items, i));
                assert(false);
            } else if e == FormatError::UnbalancedCollection {
                assert(spec_is_close_item(item) && st.depth == 0);
                assert(spec_closes(items, i) == spec_closes(items, i - 1) + 1);
                assert(spec_opens(items, i) == spec_opens(items, i - 1));
                assert(spec_closes(items, i) <= spec_opens(items, i));
                assert(false);
            } else {
                assert(false);
            }
        }
    }
}

// ------------------------------------------------------------------
// Report lookup and grouping.
// ------------------------------------------------------------------

impl ReportDescriptor {
    /// Finds the input report that a raw buffer belongs to: the report whose
    /// id equals the buffer's first byte, or the sole id-less report when
    /// the first declared report carries no id. An empty buffer, an empty
    /// report list or an unknown id find nothing.
    pub fn find_input_report(&self, bytes: &[u8]) -> (r: Option<&Report>)
        ensures
            r matches Some(rep) ==> exists|i: int|
                0 <= i < self.input_reports@.len() && rep == &self.input_reports@[i] && (
                rep.report_id is None || rep.report_id == Some(bytes@[0])),
            r is None ==> bytes@.len() == 0 || self.input_reports@.len() == 0 || (
            self.input_reports@[0].report_id is Some && forall|i: int|
                0 <= i < self.input_reports@.len()
                    ==> (#[trigger] self.input_reports@[i]).report_id != Some(bytes@[0])),
    {
        find_report_in(&self.input_reports, bytes)
    }

    /// As `find_input_report`, for output reports.
    pub fn find_output_report(&self, bytes: &[u8]) -> (r: Option<&Report>)
        ensures
            r matches Some(rep) ==> exists|i: int|
                0 <= i < self.output_reports@.len() && rep == &self.output_reports@[i] && (
                rep.report_id is None || rep.report_id == Some(bytes@[0])),
    {
        find_report_in(&self.output_reports, bytes)
    }

    /// As `find_input_report`, for feature reports.
    pub fn find_feature_report(&self, bytes: &[u8]) -> (r: Option<&Report>)
        ensures
            r matches Some(rep) ==> exists|i: int|
                0 <= i < self.feature_reports@.len() && rep == &self.feature_reports@[i] && (
                rep.report_id is None || rep.report_id == Some(bytes@[0])),
    {
        find_report_in(&self.feature_reports, bytes)
    }
}

fn find_report_in<'a>(reports: &'a Vec<Report>, bytes: &[u8]) -> (r: Option<&'a Report>)
    ensures
        r matches Some(rep) ==> exists|i: int|
            0 <= i < reports@.len() && rep == &reports@[i] && (rep.report_id is None
                || rep.report_id == Some(bytes@[0])),
        r is None ==> bytes@.len() == 0 || reports@.len() == 0 || (reports@[0].report_id is Some
            && forall|i: int|
            0 <= i < reports@.len() ==> (#[trigger] reports@[i]).report_id != Some(bytes@[0])),
{
    if bytes.len() == 0 || reports.len() == 0 {
        return None;
    }
    let first_id = reports[0].report_id;
    match first_id {
        None => {
            let rep = &reports[0];
            return Some(rep);
        },
        Some(_) => {
            let prefix = bytes[0];
            let mut i: usize = 0;
            while i < reports.len()
                invariant
                    i <= reports@.len(),
                    prefix == bytes@[0],
                    reports@.len() > 0,
                    forall|j: int|
                        0 <= j < i ==> (#[trigger] reports@[j]).report_id != Some(bytes@[0]),
                decreases reports@.len() - i,
            {
                if opt_u8_eq(reports[i].report_id, Some(prefix)) {
                    return Some(&reports[i]);
                }
                i = i + 1;
            }
            None
        },
    }
}

/// The innermost enclosing Logical collection of a field, as an index into
/// the arena, if any: report formatting groups fields by it.
pub fn deepest_logical_collection(field: &Field, collections: &Vec<Collection>) -> (r: Option<
    usize,
>)
    requires
        forall|j: int|
            0 <= j < field.spec_collections().len() ==> #[trigger] field.spec_collections()[j]
                < collections@.len(),
    ensures
        r matches Some(c) ==> exists|j: int|
            0 <= j < field.spec_collections().len() && field.spec_collections()[j] == c
                && collections@[c as int].collection_type == CollectionType::Logical && forall|
                k: int,
            |
                j < k < field.spec_collections().len()
                    ==> collections@[#[trigger] field.spec_collections()[k] as int].collection_type
                    != CollectionType::Logical,
        r is None ==> forall|j: int|
            0 <= j < field.spec_collections().len()
                ==> collections@[#[trigger] field.spec_collections()[j] as int].collection_type
                != CollectionType::Logical,
{
    let path = field.collections();
    let mut j: usize = path.len();
    while j > 0
        invariant
            j <= path@.len(),
            path@ == field.spec_collections(),
            forall|k: int|
                0 <= k < path@.len() ==> #[trigger] path@[k] < collections@.len(),
            forall|k: int|
                j <= k < path@.len()
                    ==> collections@[#[trigger] path@[k] as int].collection_type
                    != CollectionType::Logical,
        decreases j,
    {
        j = j - 1;
        let idx = path[j];
        let is_logical = match collections[idx].collection_type {
            CollectionType::Logical => true,
            _ => false,
        };
        if is_logical {
            return Some(idx);
        }
    }
    None
}

} // verus!
