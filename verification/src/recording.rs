//! The recording codec: the textual trace format that the recorder writes
//! and the replayer reads back.
//!
//! One directive per line: `N: <name>` names the device, `I: <bus> <vendor>
//! <product>` gives its ids as bare hex tokens, `R: <length> <hex bytes...>`
//! carries the length-prefixed report descriptor, and `E: <seconds>.<micro-
//! seconds> <length> <hex bytes...>` carries one timestamped event. Hex
//! bytes are two digits each, space-separated, lowercase on output and
//! case-insensitive on input; the microsecond half is written with exactly
//! six digits. Lines starting with `#` are comments. The strict reader
//! rejects unknown lines; the lenient reader of the recorder backend skips
//! them.

use vstd::prelude::*;

verus! {

use crate::textnum::is_ascii_ws;
use crate::textnum::all_dec_digits;
use crate::textnum::is_dec_digit;
use crate::textnum::all_hex_digits;
use crate::textnum::is_hex_digit;
use crate::textnum::hex_digit_val;
use crate::textnum::dec_val;
use crate::textnum::hex_val;
use crate::textnum::spec_hex_u16_ok;
use crate::textnum::spec_hex_u16_val;
use crate::textnum::spec_dec_digits;
use crate::textnum::spec_hex_digits;
use crate::textnum::spec_hex_byte;
use crate::textnum::spec_pad6;

/// How reading a recording fails. A failure aborts the parse of the whole
/// file.
#[derive(Clone, Copy, Debug, PartialEq, Eq, Structural)]
pub enum RecordingError {
    /// A line with an unknown directive prefix, in strict mode.
    UnknownLine,
    /// A length-prefixed data field without its length token.
    MissingLength,
    /// A length token that is not a decimal number.
    BadNumber,
    /// Hex data with a bad digit or an odd digit count.
    BadHex,
    /// The declared length differs from the decoded byte count.
    LengthMismatch,
    /// A malformed or overflowing event timestamp.
    BadTimestamp,
    /// An id line without three readable hex tokens.
    BadIds,
    /// No `N:` line.
    MissingName,
    /// No `I:` line.
    MissingIds,
    /// No `R:` line.
    MissingDescriptor,
}

/// One captured report: its timestamp in microseconds relative to the start
/// of the capture, and its raw bytes.
#[derive(Clone, Debug, PartialEq, Eq)]
pub struct HidEvent {
    pub timestamp_usecs: u64,
    pub bytes: Vec<u8>,
}

/// A whole parsed recording: device name and ids, the raw report
/// descriptor, and the captured events in file order (assumed time order,
/// never re-sorted).
#[derive(Clone, Debug, PartialEq, Eq)]
pub struct Recording {
    pub device_name: Vec<u8>,
    pub bustype: u16,
    pub vendor: u16,
    pub product: u16,
    pub rdesc: Vec<u8>,
    pub events: Vec<HidEvent>,
}

#[verifier::ext_equal]
pub ghost struct EventModel {
    pub timestamp_usecs: u64,
    pub bytes: Seq<u8>,
}

#[verifier::ext_equal]
pub ghost struct RecordingModel {
    pub device_name: Seq<u8>,
    pub bustype: u16,
    pub vendor: u16,
    pub product: u16,
    pub rdesc: Seq<u8>,
    pub events: Seq<EventModel>,
}

impl HidEvent {
    pub open spec fn view(&self) -> EventModel {
        EventModel { timestamp_usecs: self.timestamp_usecs, bytes: self.bytes@ }
    }
}

impl Recording {
    pub open spec fn view(&self) -> RecordingModel {
        RecordingModel {
            device_name: self.device_name@,
            bustype: self.bustype,
            vendor: self.vendor,
            product: self.product,
            rdesc: self.rdesc@,
            events: self.events@.map_values(|e: HidEvent| e.view()),
        }
    }
}

// ------------------------------------------------------------------
// Text primitives: lines, trimming, token splitting.
// ------------------------------------------------------------------

/// The index of the first occurrence of a byte, or -1.
pub open spec fn spec_find_byte(s: Seq<u8>, b: u8) -> int
    decreases s.len(),
{
    if s.len() == 0 {
        -1
    } else if s[0] == b {
        0
    } else {
        let r = spec_find_byte(s.skip(1), b);
        if r < 0 {
            -1
        } else {
            r + 1
        }
    }
}

pub proof fn lemma_find_byte(s: Seq<u8>, b: u8)
    ensures
        spec_find_byte(s, b) >= 0 ==> {
            &&& spec_find_byte(s, b) < s.len()
            &&& s[spec_find_byte(s, b)] == b
            &&& forall|j: int| 0 <= j < spec_find_byte(s, b) ==> s[j] != b
        },
        spec_find_byte(s, b) < 0 ==> forall|j: int| 0 <= j < s.len() ==> s[j] != b,
    decreases s.len(),
{
    if s.len() > 0 && s[0] != b {
        lemma_find_byte(s.skip(1), b);
        let r = spec_find_byte(s.skip(1), b);
        if r >= 0 {
            assert forall|j: int| 0 <= j < r + 1 implies s[j] != b by {
                if j > 0 {
                    assert(s.skip(1)[j - 1] != b);
                }
            }
        } else {
            assert forall|j: int| 0 <= j < s.len() implies s[j] != b by {
                if j > 0 {
                    assert(s.skip(1)[j - 1] != b);
                }
            }
        }
    }
}

/// A line with its terminating newline removed also sheds one carriage
/// return right before it.
pub open spec fn spec_strip_cr(s: Seq<u8>) -> Seq<u8> {
    if s.len() > 0 && s.last() == 13 {
        s.drop_last()
    } else {
        s
    }
}

/// The lines of a text: split at every newline; a final fragment without a
/// newline is a line too, but a text ending in a newline has no empty last
/// line.
pub open spec fn spec_lines(text: Seq<u8>) -> Seq<Seq<u8>>
    decreases text.len(),
    via spec_lines_decreases
{
    if text.len() == 0 {
        Seq::empty()
    } else {
        let i = spec_find_byte(text, 10);
        if i < 0 {
            seq![text]
        } else {
            seq![spec_strip_cr(text.take(i))] + spec_lines(text.skip(i + 1))
        }
    }
}

#[via_fn]
proof fn spec_lines_decreases(text: Seq<u8>) {
    if text.len() > 0 {
        lemma_find_byte(text, 10);
    }
}

pub open spec fn spec_trim_start(s: Seq<u8>) -> Seq<u8>
    decreases s.len(),
{
    if s.len() > 0 && is_ascii_ws(s[0]) {
        spec_trim_start(s.skip(1))
    } else {
        s
    }
}

pub open spec fn spec_trim_end(s: Seq<u8>) -> Seq<u8>
    decreases s.len(),
{
    if s.len() > 0 && is_ascii_ws(s.last()) {
        spec_trim_end(s.drop_last())
    } else {
        s
    }
}

/// ASCII whitespace trimmed from both ends, as `str::trim` does to the
/// all-ASCII lines of this format.
pub open spec fn spec_trim(s: Seq<u8>) -> Seq<u8> {
    spec_trim_end(spec_trim_start(s))
}

/// Splits at the first space: the part before it and everything after it.
pub open spec fn spec_split_once_space(s: Seq<u8>) -> Option<(Seq<u8>, Seq<u8>)> {
    let i = spec_find_byte(s, 32);
    if i < 0 {
        None
    } else {
        Some((s.take(i), s.skip(i + 1)))
    }
}

/// Splits at every space, keeping empty tokens, as `str::split(' ')` does.
pub open spec fn spec_split_spaces(s: Seq<u8>) -> Seq<Seq<u8>>
    decreases s.len(),
    via spec_split_spaces_decreases
{
    let i = spec_find_byte(s, 32);
    if i < 0 {
        seq![s]
    } else {
        seq![s.take(i)] + spec_split_spaces(s.skip(i + 1))
    }
}

#[via_fn]
proof fn spec_split_spaces_decreases(s: Seq<u8>) {
    lemma_find_byte(s, 32);
}

/// The string with every space removed, as the hex decoder preprocesses its
/// input.
pub open spec fn spec_remove_spaces(s: Seq<u8>) -> Seq<u8>
    decreases s.len(),
{
    if s.len() == 0 {
        Seq::empty()
    } else {
        let rest = spec_remove_spaces(s.drop_last());
        if s.last() == 32 {
            rest
        } else {
            rest.push(s.last())
        }
    }
}

/// Decodes a string of hex digit pairs: every character a hex digit, an
/// even count of them.
pub open spec fn spec_hex_decode(s: Seq<u8>) -> Option<Seq<u8>> {
    if s.len() % 2 == 0 && all_hex_digits(s) {
        Some(
            Seq::new(
                (s.len() / 2) as nat,
                |i: int| (hex_digit_val(s[2 * i]) * 16 + hex_digit_val(s[2 * i + 1])) as u8,
            ),
        )
    } else {
        None
    }
}

/// Parses a decimal number as `u64::from_str` does: an optional leading
/// plus sign, then at least one digit, value at most `u64::MAX`.
pub open spec fn spec_dec_u64_ok(s: Seq<u8>) -> bool {
    if s.len() > 0 && s[0] == 43 {
        let rest = s.skip(1);
        rest.len() > 0 && all_dec_digits(rest) && dec_val(rest) <= u64::MAX
    } else {
        s.len() > 0 && all_dec_digits(s) && dec_val(s) <= u64::MAX
    }
}

pub open spec fn spec_dec_u64_val(s: Seq<u8>) -> nat {
    if s.len() > 0 && s[0] == 43 {
        dec_val(s.skip(1))
    } else {
        dec_val(s)
    }
}

// ------------------------------------------------------------------
// The parse, line by line.
// ------------------------------------------------------------------

/// Decodes a length-prefixed byte string: a decimal length token, then hex
/// bytes whose spaces are ignored; the decoded count must equal the length.
pub open spec fn spec_decode_lp(s: Seq<u8>) -> Result<Seq<u8>, RecordingError> {
    match spec_split_once_space(s) {
        None => Err(RecordingError::MissingLength),
        Some((lenstr, hexstr)) => {
            if !spec_dec_u64_ok(lenstr) {
                Err(RecordingError::BadNumber)
            } else {
                match spec_hex_decode(spec_remove_spaces(hexstr)) {
                    None => Err(RecordingError::BadHex),
                    Some(bytes) => {
                        if spec_dec_u64_val(lenstr) != bytes.len() {
                            Err(RecordingError::LengthMismatch)
                        } else {
                            Ok(bytes)
                        }
                    },
                }
            }
        },
    }
}

/// Parses the rest of an `E:` line: `<seconds>.<microseconds>` and the
/// length-prefixed bytes. The two timestamp halves are combined into
/// microseconds; an unrepresentable timestamp is rejected.
pub open spec fn spec_parse_event(s: Seq<u8>) -> Result<EventModel, RecordingError> {
    match spec_split_once_space(s) {
        None => Err(RecordingError::BadTimestamp),
        Some((ts, rest)) => {
            match spec_split_once_at(ts, 46) {
                None => Err(RecordingError::BadTimestamp),
                Some((secs_str, usecs_str)) => {
                    if !spec_dec_u64_ok(secs_str) || !spec_dec_u64_ok(usecs_str) {
                        Err(RecordingError::BadTimestamp)
                    } else {
                        let total = spec_dec_u64_val(secs_str) * 1_000_000 + spec_dec_u64_val(
                            usecs_str,
                        );
                        if total > u64::MAX {
                            Err(RecordingError::BadTimestamp)
                        } else {
                            match spec_decode_lp(rest) {
                                Err(e) => Err(e),
                                Ok(bytes) => Ok(
                                    EventModel { timestamp_usecs: total as u64, bytes },
                                ),
                            }
                        }
                    }
                },
            }
        },
    }
}

/// Splits at the first occurrence of any byte.
pub open spec fn spec_split_once_at(s: Seq<u8>, b: u8) -> Option<(Seq<u8>, Seq<u8>)> {
    let i = spec_find_byte(s, b);
    if i < 0 {
        None
    } else {
        Some((s.take(i), s.skip(i + 1)))
    }
}


/// Parses the rest of an `I:` line: space-separated bare hex tokens. All
/// tokens must read as 16-bit hex numbers and, in strict mode, there must
/// be exactly three.
pub open spec fn spec_parse_ids(s: Seq<u8>, strict: bool) -> Result<
    (u16, u16, u16),
    RecordingError,
> {
    let toks = spec_split_spaces(s);
    if !(forall|i: int| 0 <= i < toks.len() ==> spec_hex_u16_ok(#[trigger] toks[i])) {
        Err(RecordingError::BadIds)
    } else if (strict && toks.len() != 3) || (!strict && toks.len() < 3) {
        Err(RecordingError::BadIds)
    } else {
        Ok(
            (
                spec_hex_u16_val(toks[0]) as u16,
                spec_hex_u16_val(toks[1]) as u16,
                spec_hex_u16_val(toks[2]) as u16,
            ),
        )
    }
}

/// The accumulating state of a line-by-line parse.
#[verifier::ext_equal]
pub ghost struct ParseState {
    pub name: Option<Seq<u8>>,
    pub ids: Option<(u16, u16, u16)>,
    pub rdesc: Option<Seq<u8>>,
    pub events: Seq<EventModel>,
}

pub open spec fn spec_initial_parse_state() -> ParseState {
    ParseState { name: None, ids: None, rdesc: None, events: Seq::empty() }
}

pub open spec fn spec_line_prefix_n() -> Seq<u8> {
    seq![78u8, 58u8]
}

pub open spec fn spec_line_prefix_i() -> Seq<u8> {
    seq![73u8, 58u8]
}

pub open spec fn spec_line_prefix_r() -> Seq<u8> {
    seq![82u8, 58u8]
}

pub open spec fn spec_line_prefix_e() -> Seq<u8> {
    seq![69u8, 58u8]
}

/// One line of the parse: empty lines and `#` comments are skipped before
/// trimming; a known directive updates the state (the last occurrence
/// wins); an unknown one is an error in strict mode and skipped otherwise.
pub open spec fn spec_parse_line(st: ParseState, line: Seq<u8>, strict: bool) -> Result<
    ParseState,
    RecordingError,
> {
    if line.len() == 0 || line[0] == 35 {
        Ok(st)
    } else {
        let t = spec_trim(line);
        if t.len() == 0 {
            if strict {
                Err(RecordingError::UnknownLine)
            } else {
                Ok(st)
            }
        } else if !strict && t[0] == 35 {
            Ok(st)
        } else {
            match spec_split_once_space(t) {
                None => {
                    if strict {
                        Err(RecordingError::UnknownLine)
                    } else {
                        Ok(st)
                    }
                },
                Some((pre, rest)) => {
                    if pre == spec_line_prefix_n() {
                        Ok(ParseState { name: Some(rest), ..st })
                    } else if pre == spec_line_prefix_i() {
                        match spec_parse_ids(rest, strict) {
                            Err(e) => Err(e),
                            Ok(ids) => Ok(ParseState { ids: Some(ids), ..st }),
                        }
                    } else if pre == spec_line_prefix_r() {
                        match spec_decode_lp(rest) {
                            Err(e) => Err(e),
                            Ok(bytes) => Ok(ParseState { rdesc: Some(bytes), ..st }),
                        }
                    } else if pre == spec_line_prefix_e() {
                        match spec_parse_event(rest) {
                            Err(e) => Err(e),
                            Ok(ev) => Ok(ParseState { events: st.events.push(ev), ..st }),
                        }
                    } else {
                        if strict {
                            Err(RecordingError::UnknownLine)
                        } else {
                            Ok(st)
                        }
                    }
                },
            }
        }
    }
}

pub open spec fn spec_parse_lines(
    st: ParseState,
    lines: Seq<Seq<u8>>,
    i: int,
    strict: bool,
) -> Result<ParseState, RecordingError>
    decreases lines.len() - i,
    when 0 <= i <= lines.len()
{
    if i >= lines.len() {
        Ok(st)
    } else {
        match spec_parse_line(st, lines[i], strict) {
            Err(e) => Err(e),
            Ok(st2) => spec_parse_lines(st2, lines, i + 1, strict),
        }
    }
}

/// The parse of a whole recording text: every line in order, then the
/// mandatory name, ids and descriptor assembled into the result.
pub open spec fn spec_parse_recording(text: Seq<u8>, strict: bool) -> Result<
    RecordingModel,
    RecordingError,
> {
    match spec_parse_lines(spec_initial_parse_state(), spec_lines(text), 0, strict) {
        Err(e) => Err(e),
        Ok(st) => {
            if st.name is None {
                Err(RecordingError::MissingName)
            } else if st.ids is None {
                Err(RecordingError::MissingIds)
            } else if st.rdesc is None {
                Err(RecordingError::MissingDescriptor)
            } else {
                Ok(
                    RecordingModel {
                        device_name: st.name->Some_0,
                        bustype: st.ids->Some_0.0,
                        vendor: st.ids->Some_0.1,
                        product: st.ids->Some_0.2,
                        rdesc: st.rdesc->Some_0,
                        events: st.events,
                    },
                )
            }
        },
    }
}

// ------------------------------------------------------------------
// The writer.
// ------------------------------------------------------------------

/// The hex bytes of a data line: two lowercase digits per byte, single
/// spaces in between, no trailing space.
pub open spec fn spec_hex_bytes(bytes: Seq<u8>) -> Seq<u8>
    decreases bytes.len(),
{
    if bytes.len() == 0 {
        Seq::empty()
    } else if bytes.len() == 1 {
        spec_hex_byte(bytes[0])
    } else {
        spec_hex_byte(bytes[0]) + seq![32u8] + spec_hex_bytes(bytes.skip(1))
    }
}

pub open spec fn spec_name_line(name: Seq<u8>) -> Seq<u8> {
    spec_line_prefix_n() + seq![32u8] + name
}

pub open spec fn spec_ids_line(bustype: u16, vendor: u16, product: u16) -> Seq<u8> {
    spec_line_prefix_i() + seq![32u8] + spec_hex_digits(bustype as nat) + seq![32u8]
        + spec_hex_digits(vendor as nat) + seq![32u8] + spec_hex_digits(product as nat)
}

pub open spec fn spec_rdesc_line(rdesc: Seq<u8>) -> Seq<u8> {
    spec_line_prefix_r() + seq![32u8] + spec_dec_digits(rdesc.len()) + seq![32u8] + spec_hex_bytes(
        rdesc,
    )
}

pub open spec fn spec_event_line(ev: EventModel) -> Seq<u8> {
    spec_line_prefix_e() + seq![32u8] + spec_pad6(spec_dec_digits(ev.timestamp_usecs as nat
        / 1_000_000)) + seq![46u8] + spec_pad6(spec_dec_digits(ev.timestamp_usecs as nat
        % 1_000_000)) + seq![32u8] + spec_dec_digits(ev.bytes.len()) + seq![32u8] + spec_hex_bytes(
        ev.bytes,
    )
}

pub open spec fn spec_event_lines(events: Seq<EventModel>) -> Seq<u8>
    decreases events.len(),
{
    if events.len() == 0 {
        Seq::empty()
    } else {
        spec_event_line(events[0]) + seq![10u8] + spec_event_lines(events.skip(1))
    }
}

/// The canonical text of a recording: the name, id and descriptor lines,
/// then one line per event, each line newline-terminated.
pub open spec fn spec_recording_text(rec: RecordingModel) -> Seq<u8> {
    spec_name_line(rec.device_name) + seq![10u8] + spec_ids_line(
        rec.bustype,
        rec.vendor,
        rec.product,
    ) + seq![10u8] + spec_rdesc_line(rec.rdesc) + seq![10u8] + spec_event_lines(rec.events)
}

/// What the writer can represent and the reader give back unchanged: a
/// non-empty device name without line breaks or surrounding whitespace, a
/// non-empty descriptor, and no empty event payloads.
pub open spec fn spec_recording_wf(rec: RecordingModel) -> bool {
    &&& rec.device_name.len() > 0
    &&& forall|i: int|
        0 <= i < rec.device_name.len() ==> #[trigger] rec.device_name[i] != 10
            && rec.device_name[i] != 13
    &&& !is_ascii_ws(rec.device_name[0])
    &&& !is_ascii_ws(rec.device_name[rec.device_name.len() - 1])
    &&& rec.rdesc.len() > 0
    &&& forall|i: int| 0 <= i < rec.events.len() ==> (#[trigger] rec.events[i]).bytes.len() > 0
}

// ------------------------------------------------------------------
// Executable text primitives.
// ------------------------------------------------------------------

/// `spec_find_byte` finds the first occurrence.
proof fn lemma_find_byte_first(s: Seq<u8>, b: u8, i: int)
    requires
        0 <= i < s.len(),
        s[i] == b,
        forall|j: int| 0 <= j < i ==> s[j] != b,
    ensures
        spec_find_byte(s, b) == i,
    decreases i,
{
    if i > 0 {
        lemma_find_byte_first(s.skip(1), b, i - 1);
        assert forall|j: int| 0 <= j < i - 1 implies s.skip(1)[j] != b by {
            assert(s.skip(1)[j] == s[j + 1]);
        }
    }
}

proof fn lemma_find_byte_none(s: Seq<u8>, b: u8)
    requires
        forall|j: int| 0 <= j < s.len() ==> s[j] != b,
    ensures
        spec_find_byte(s, b) < 0,
    decreases s.len(),
{
    if s.len() > 0 {
        lemma_find_byte_none(s.skip(1), b);
        assert(forall|j: int| 0 <= j < s.skip(1).len() ==> s.skip(1)[j] != b);
    }
}

pub fn find_byte(s: &[u8], b: u8) -> (r: Option<usize>)
    ensures
        r matches Some(i) ==> i < s@.len() && spec_find_byte(s@, b) == i,
        r is None ==> spec_find_byte(s@, b) < 0,
{
    let mut i: usize = 0;
    while i < s.len()
        invariant
            i <= s@.len(),
            forall|j: int| 0 <= j < i ==> s@[j] != b,
        decreases s@.len() - i,
    {
        if s[i] == b {
            proof {
                lemma_find_byte_first(s@, b, i as int);
            }
            return Some(i);
        }
        i = i + 1;
    }
    proof {
        lemma_find_byte_none(s@, b);
    }
    None
}

pub fn copy_range(s: &[u8], from: usize, to: usize) -> (r: Vec<u8>)
    requires
        from <= to <= s@.len(),
    ensures
        r@ == s@.subrange(from as int, to as int),
{
    let mut r: Vec<u8> = Vec::new();
    let mut i: usize = from;
    while i < to
        invariant
            from <= i <= to <= s@.len(),
            r@ == s@.subrange(from as int, i as int),
        decreases to - i,
    {
        let c = s[i];
        r.push(c);
        proof {
            assert(r@ =~= s@.subrange(from as int, i + 1));
        }
        i = i + 1;
    }
    r
}

/// Trims ASCII whitespace from both ends.
pub fn trim_ascii(s: &[u8]) -> (r: Vec<u8>)
    ensures
        r@ == spec_trim(s@),
{
    trim_bytes(s)
}

/// Trims ASCII whitespace from both ends.
fn trim_bytes(s: &[u8]) -> (r: Vec<u8>)
    ensures
        r@ == spec_trim(s@),
{
    let mut start: usize = 0;
    proof {
        assert(s@.skip(0) =~= s@);
    }
    while start < s.len() && crate::textnum::byte_is_ascii_ws(s[start])
        invariant
            start <= s@.len(),
            forall|j: int| 0 <= j < start ==> is_ascii_ws(s@[j]),
            spec_trim_start(s@) == spec_trim_start(s@.skip(start as int)),
        decreases s@.len() - start,
    {
        proof {
            assert(s@.skip(start as int).skip(1) =~= s@.skip(start + 1));
        }
        start = start + 1;
    }
    let mut end: usize = s.len();
    proof {
        assert(spec_trim_start(s@) == s@.skip(start as int));
        assert(s@.skip(start as int).take(end - start) =~= s@.skip(start as int));
    }
    while end > start && crate::textnum::byte_is_ascii_ws(s[end - 1])
        invariant
            start <= end <= s@.len(),
            spec_trim_start(s@) == s@.skip(start as int),
            spec_trim_end(s@.skip(start as int)) == spec_trim_end(
                s@.skip(start as int).take(end - start),
            ),
        decreases end,
    {
        proof {
            let t = s@.skip(start as int).take(end - start);
            assert(t.last() == s@[end - 1]);
            assert(t.drop_last() =~= s@.skip(start as int).take(end - 1 - start));
        }
        end = end - 1;
    }
    let r = copy_range(s, start, end);
    proof {
        let t = s@.skip(start as int).take(end - start);
        if end > start {
            assert(!is_ascii_ws(t.last()));
        }
        assert(spec_trim_end(t) == t);
        assert(r@ =~= t);
    }
    r
}

/// Splits at the first space, as `str::split_once(' ')` does.
fn split_once_space(s: &[u8]) -> (r: Option<(Vec<u8>, Vec<u8>)>)
    ensures
        r matches Some(p) ==> spec_split_once_space(s@) == Some((p.0@, p.1@)),
        r is None ==> spec_split_once_space(s@) is None,
{
    let n = s.len();
    match find_byte(s, 32) {
        None => None,
        Some(i) => {
            let a = copy_range(s, 0, i);
            let b = copy_range(s, i + 1, n);
            proof {
                lemma_find_byte(s@, 32);
                assert(a@ =~= s@.take(i as int));
                assert(b@ =~= s@.skip(i + 1));
            }
            Some((a, b))
        },
    }
}

fn split_once_dot(s: &[u8]) -> (r: Option<(Vec<u8>, Vec<u8>)>)
    ensures
        r matches Some(p) ==> spec_split_once_at(s@, 46) == Some((p.0@, p.1@)),
        r is None ==> spec_split_once_at(s@, 46) is None,
{
    let n = s.len();
    match find_byte(s, 46) {
        None => None,
        Some(i) => {
            let a = copy_range(s, 0, i);
            let b = copy_range(s, i + 1, n);
            proof {
                lemma_find_byte(s@, 46);
                assert(a@ =~= s@.take(i as int));
                assert(b@ =~= s@.skip(i + 1));
            }
            Some((a, b))
        },
    }
}

fn remove_spaces(s: &[u8]) -> (r: Vec<u8>)
    ensures
        r@ == spec_remove_spaces(s@),
{
    let mut r: Vec<u8> = Vec::new();
    let mut i: usize = 0;
    while i < s.len()
        invariant
            i <= s@.len(),
            r@ == spec_remove_spaces(s@.take(i as int)),
        decreases s@.len() - i,
    {
        let c = s[i];
        proof {
            assert(s@.take(i + 1).drop_last() =~= s@.take(i as int));
            assert(s@.take(i + 1).last() == s@[i as int]);
        }
        if c != 32 {
            r.push(c);
        }
        i = i + 1;
    }
    proof {
        assert(s@.take(s@.len() as int) =~= s@);
    }
    r
}

fn hex_decode(s: &[u8]) -> (r: Option<Vec<u8>>)
    ensures
        r matches Some(v) ==> spec_hex_decode(s@) == Some(v@),
        r is None ==> spec_hex_decode(s@) is None,
{
    if s.len() % 2 != 0 {
        return None;
    }
    let mut v: Vec<u8> = Vec::new();
    let mut i: usize = 0;
    while i + 1 < s.len()
        invariant
            i <= s@.len(),
            i % 2 == 0,
            s@.len() % 2 == 0,
            v@.len() == i / 2,
            forall|j: int| 0 <= j < i ==> is_hex_digit(#[trigger] s@[j]),
            forall|k: int|
                0 <= k < v@.len() ==> #[trigger] v@[k] == (hex_digit_val(s@[2 * k]) * 16
                    + hex_digit_val(s@[2 * k + 1])) as u8,
        decreases s@.len() - i,
    {
        let hi = s[i];
        let lo = s[i + 1];
        if !crate::textnum::byte_is_hex_digit(hi) || !crate::textnum::byte_is_hex_digit(lo) {
            return None;
        }
        let b: u8 = crate::textnum::hex_digit_value(hi) * 16 + crate::textnum::hex_digit_value(
            lo,
        );
        v.push(b);
        proof {
            vstd::arithmetic::div_mod::lemma_fundamental_div_mod(i as int, 2);
        }
        i = i + 2;
    }
    proof {
        assert(i == s@.len());
        let expected = spec_hex_decode(s@)->Some_0;
        assert(spec_hex_decode(s@) is Some);
        assert(v@ =~= expected);
    }
    Some(v)
}

/// Parses a decimal number as `u64::from_str` does: an optional plus sign,
/// then digits.
fn parse_u64_std(s: &[u8]) -> (r: Option<u64>)
    ensures
        r is Some <==> spec_dec_u64_ok(s@),
        r matches Some(v) ==> v as nat == spec_dec_u64_val(s@),
{
    if s.len() == 0 {
        return None;
    }
    if s[0] == 43 {
        let rest = copy_range(s, 1, s.len());
        proof {
            assert(rest@ =~= s@.skip(1));
        }
        crate::textnum::parse_u64_dec(rest.as_slice())
    } else {
        crate::textnum::parse_u64_dec(s)
    }
}

/// Splits a whole text into its lines, as a buffered line reader does.
pub fn split_lines(text: &[u8]) -> (r: Vec<Vec<u8>>)
    ensures
        r.deep_view() == spec_lines(text@),
{
    let mut r: Vec<Vec<u8>> = Vec::new();
    let mut pos: usize = 0;
    let n = text.len();
    proof {
        assert(r.deep_view() =~~= Seq::<Seq<u8>>::empty());
        assert(text@.skip(0) =~= text@);
        assert(Seq::<Seq<u8>>::empty() + spec_lines(text@) =~= spec_lines(text@));
    }
    while pos < n
        invariant
            pos <= n,
            n == text@.len(),
            spec_lines(text@) == r.deep_view() + spec_lines(text@.skip(pos as int)),
        decreases n - pos,
    {
        let ghost prev = r.deep_view();
        let ghost remaining = text@.skip(pos as int);
        let mut line: Vec<u8> = Vec::new();
        let mut i: usize = pos;
        while i < n && text[i] != 10
            invariant
                pos <= i <= n,
                n == text@.len(),
                line@ == text@.subrange(pos as int, i as int),
                forall|j: int| pos <= j < i ==> text@[j] != 10,
            decreases n - i,
        {
            let c = text[i];
            line.push(c);
            proof {
                assert(line@ =~= text@.subrange(pos as int, i + 1));
            }
            i = i + 1;
        }
        proof {
            if i < n {
                assert(text@[i as int] == 10);
                assert forall|j: int| 0 <= j < i - pos implies remaining[j] != 10 by {
                    assert(remaining[j] == text@[pos + j]);
                }
                assert(remaining[i - pos] == 10);
                lemma_find_byte_first(remaining, 10, i - pos);
                assert(remaining.take(i - pos) =~= line@);
            } else {
                assert forall|j: int| 0 <= j < remaining.len() implies remaining[j] != 10 by {
                    assert(remaining[j] == text@[pos + j]);
                }
                lemma_find_byte_none(remaining, 10);
                assert(remaining =~= line@);
            }
        }
        if i < n {
            // a newline-terminated line sheds one trailing carriage return
            if line.len() > 0 && line[line.len() - 1] == 13 {
                let popped = line.pop();
                proof {
                    assert(line@ =~= spec_strip_cr(text@.subrange(pos as int, i as int)));
                }
            }
            proof {
                let rem2 = text@.skip(pos as int).skip(i - pos + 1);
                assert(rem2 =~= text@.skip(i + 1));
                assert(spec_lines(remaining) == seq![spec_strip_cr(remaining.take(i - pos))]
                    + spec_lines(text@.skip(i + 1)));
            }
            r.push(line);
            proof {
                assert(r.deep_view() =~~= prev + seq![line@]);
                assert((prev + seq![line@]) + spec_lines(text@.skip(i + 1)) =~= prev + (seq![
                    line@,
                ] + spec_lines(text@.skip(i + 1))));
            }
            pos = i + 1;
        } else {
            proof {
                assert(spec_lines(remaining) == seq![remaining]);
            }
            r.push(line);
            proof {
                assert(r.deep_view() =~~= prev + seq![line@]);
                assert((prev + seq![line@]) + spec_lines(text@.skip(n as int)) =~= prev + seq![
                    line@,
                ]);
                assert(text@.skip(n as int).len() == 0);
            }
            pos = n;
        }
    }
    proof {
        assert(spec_lines(text@.skip(pos as int)).len() == 0) by {
            assert(text@.skip(pos as int).len() == 0);
        }
        assert(r.deep_view() + spec_lines(text@.skip(pos as int)) =~= r.deep_view());
    }
    r
}

/// Decodes one length-prefixed data field.
fn decode_length_prefixed(s: &[u8]) -> (r: Result<Vec<u8>, RecordingError>)
    ensures
        r matches Ok(v) ==> spec_decode_lp(s@) == Ok::<Seq<u8>, RecordingError>(v@),
        r matches Err(e) ==> spec_decode_lp(s@) == Err::<Seq<u8>, RecordingError>(e),
{
    match split_once_space(s) {
        None => Err(RecordingError::MissingLength),
        Some((lenstr, hexstr)) => {
            match parse_u64_std(lenstr.as_slice()) {
                None => Err(RecordingError::BadNumber),
                Some(declared) => {
                    let stripped = remove_spaces(hexstr.as_slice());
                    match hex_decode(stripped.as_slice()) {
                        None => Err(RecordingError::BadHex),
                        Some(bytes) => {
                            if declared != bytes.len() as u64 {
                                Err(RecordingError::LengthMismatch)
                            } else {
                                Ok(bytes)
                            }
                        },
                    }
                },
            }
        },
    }
}

/// Parses the rest of an `E:` line into one event.
fn parse_event_rest(s: &[u8]) -> (r: Result<HidEvent, RecordingError>)
    ensures
        r matches Ok(ev) ==> spec_parse_event(s@) == Ok::<EventModel, RecordingError>(ev.view()),
        r matches Err(e) ==> spec_parse_event(s@) == Err::<EventModel, RecordingError>(e),
{
    match split_once_space(s) {
        None => Err(RecordingError::BadTimestamp),
        Some((ts, rest)) => {
            match split_once_dot(ts.as_slice()) {
                None => Err(RecordingError::BadTimestamp),
                Some((secs_str, usecs_str)) => {
                    let secs = parse_u64_std(secs_str.as_slice());
                    let usecs = parse_u64_std(usecs_str.as_slice());
                    match (secs, usecs) {
                        (Some(se), Some(us)) => {
                            if se > (u64::MAX - us) / 1_000_000 {
                                proof {
                                    crate::textnum::lemma_step_fits_iff_pub(
                                        se as nat,
                                        us as nat,
                                        1_000_000,
                                        u64::MAX as nat,
                                    );
                                }
                                Err(RecordingError::BadTimestamp)
                            } else {
                                proof {
                                    crate::textnum::lemma_step_fits_iff_pub(
                                        se as nat,
                                        us as nat,
                                        1_000_000,
                                        u64::MAX as nat,
                                    );
                                }
                                let total = se * 1_000_000 + us;
                                match decode_length_prefixed(rest.as_slice()) {
                                    Err(e) => Err(e),
                                    Ok(bytes) => Ok(
                                        HidEvent { timestamp_usecs: total, bytes },
                                    ),
                                }
                            }
                        },
                        _ => Err(RecordingError::BadTimestamp),
                    }
                },
            }
        },
    }
}

/// Parses the rest of an `I:` line into the bus, vendor and product ids.
fn parse_ids_rest(s: &[u8], strict: bool) -> (r: Result<(u16, u16, u16), RecordingError>)
    ensures
        r matches Ok(ids) ==> spec_parse_ids(s@, strict) == Ok::<(u16, u16, u16), RecordingError>(
            ids,
        ),
        r matches Err(e) ==> spec_parse_ids(s@, strict) == Err::<(u16, u16, u16), RecordingError>(
            e,
        ),
{
    let mut vals: Vec<u16> = Vec::new();
    let n0 = s.len();
    let mut rest: Vec<u8> = copy_range(s, 0, n0);
    proof {
        assert(rest@ =~= s@);
        assert(spec_split_spaces(s@).skip(0) =~= spec_split_spaces(s@));
    }
    let ghost toks = spec_split_spaces(s@);
    loop
        invariant_except_break
            toks == spec_split_spaces(s@),
            vals@.len() <= toks.len(),
            spec_split_spaces(rest@) =~= toks.skip(vals@.len() as int),
            toks.len() >= 1,
            forall|i: int|
                0 <= i < vals@.len() ==> spec_hex_u16_ok(#[trigger] toks[i]) && vals@[i] as nat
                    == spec_hex_u16_val(toks[i]),
        ensures
            toks == spec_split_spaces(s@),
            vals@.len() == toks.len(),
            forall|i: int|
                0 <= i < vals@.len() ==> spec_hex_u16_ok(#[trigger] toks[i]) && vals@[i] as nat
                    == spec_hex_u16_val(toks[i]),
        decreases rest@.len() + 1,
    {
        let ghost remaining = toks.skip(vals@.len() as int);
        proof {
            assert(remaining.len() >= 1);
            assert(vals@.len() < toks.len());
        }
        let rlen = rest.len();
        match find_byte(rest.as_slice(), 32) {
            Some(i) => {
                let tok = copy_range(rest.as_slice(), 0, i);
                let newrest = copy_range(rest.as_slice(), i + 1, rlen);
                proof {
                    assert(tok@ =~= rest@.take(i as int));
                    assert(newrest@ =~= rest@.skip(i + 1));
                    assert(remaining[0] == rest@.take(i as int));
                    assert(remaining.skip(1) =~= spec_split_spaces(newrest@));
                    assert(toks.skip(vals@.len() as int + 1) =~= remaining.skip(1));
                }
                match crate::textnum::parse_u16_hex(tok.as_slice()) {
                    None => {
                        proof {
                            assert(toks[vals@.len() as int] == tok@);
                            assert(!spec_hex_u16_ok(toks[vals@.len() as int]));
                        }
                        return Err(RecordingError::BadIds);
                    },
                    Some(v) => {
                        vals.push(v);
                        rest = newrest;
                    },
                }
            },
            None => {
                proof {
                    assert(remaining[0] == rest@);
                    assert(remaining.len() == 1);
                    assert(toks.len() == vals@.len() + 1);
                }
                match crate::textnum::parse_u16_hex(rest.as_slice()) {
                    None => {
                        proof {
                            assert(toks[vals@.len() as int] == rest@);
                        }
                        return Err(RecordingError::BadIds);
                    },
                    Some(v) => {
                        vals.push(v);
                        break ;
                    },
                }
            },
        }
    }
    if (strict && vals.len() != 3) || (!strict && vals.len() < 3) {
        return Err(RecordingError::BadIds);
    }
    Ok((vals[0], vals[1], vals[2]))
}


pub open spec fn spec_view_opt_bytes(o: Option<Vec<u8>>) -> Option<Seq<u8>> {
    match o {
        Some(v) => Some(v@),
        None => None,
    }
}

/// Parses one line against the accumulating state.
fn parse_line(
    name: &mut Option<Vec<u8>>,
    ids: &mut Option<(u16, u16, u16)>,
    rdesc: &mut Option<Vec<u8>>,
    events: &mut Vec<HidEvent>,
    line: &Vec<u8>,
    strict: bool,
) -> (r: Result<(), RecordingError>)
    ensures
        ({
            let st0 = ParseState {
                name: spec_view_opt_bytes(*old(name)),
                ids: *old(ids),
                rdesc: spec_view_opt_bytes(*old(rdesc)),
                events: old(events)@.map_values(|e: HidEvent| e.view()),
            };
            let st1 = ParseState {
                name: spec_view_opt_bytes(*final(name)),
                ids: *final(ids),
                rdesc: spec_view_opt_bytes(*final(rdesc)),
                events: final(events)@.map_values(|e: HidEvent| e.view()),
            };
            &&& (r matches Ok(_) ==> spec_parse_line(st0, line@, strict) == Ok::<
                ParseState,
                RecordingError,
            >(st1))
            &&& (r matches Err(e) ==> spec_parse_line(st0, line@, strict) == Err::<
                ParseState,
                RecordingError,
            >(e))
        }),
{
    let ghost st0 = ParseState {
        name: spec_view_opt_bytes(*old(name)),
        ids: *old(ids),
        rdesc: spec_view_opt_bytes(*old(rdesc)),
        events: old(events)@.map_values(|e: HidEvent| e.view()),
    };
    if line.len() == 0 || line[0] == 35 {
        return Ok(());
    }
    let t = trim_bytes(line.as_slice());
    if t.len() == 0 {
        if strict {
            return Err(RecordingError::UnknownLine);
        } else {
            return Ok(());
        }
    }
    if !strict && t[0] == 35 {
        return Ok(());
    }
    match split_once_space(t.as_slice()) {
        None => {
            if strict {
                Err(RecordingError::UnknownLine)
            } else {
                Ok(())
            }
        },
        Some((pre, rest)) => {
            let is_n = pre.len() == 2 && pre[0] == 78 && pre[1] == 58;
            let is_i = pre.len() == 2 && pre[0] == 73 && pre[1] == 58;
            let is_r = pre.len() == 2 && pre[0] == 82 && pre[1] == 58;
            let is_e = pre.len() == 2 && pre[0] == 69 && pre[1] == 58;
            proof {
                assert(is_n == (pre@ =~= spec_line_prefix_n()));
                assert(is_i == (pre@ =~= spec_line_prefix_i()));
                assert(is_r == (pre@ =~= spec_line_prefix_r()));
                assert(is_e == (pre@ =~= spec_line_prefix_e()));
            }
            if is_n {
                *name = Some(rest);
                Ok(())
            } else if is_i {
                match parse_ids_rest(rest.as_slice(), strict) {
                    Err(e) => Err(e),
                    Ok(v) => {
                        *ids = Some(v);
                        Ok(())
                    },
                }
            } else if is_r {
                match decode_length_prefixed(rest.as_slice()) {
                    Err(e) => Err(e),
                    Ok(bytes) => {
                        *rdesc = Some(bytes);
                        Ok(())
                    },
                }
            } else if is_e {
                match parse_event_rest(rest.as_slice()) {
                    Err(e) => Err(e),
                    Ok(ev) => {
                        let ghost evm = ev.view();
                        events.push(ev);
                        proof {
                            assert(events@.map_values(|e: HidEvent| e.view()) =~= st0.events.push(
                                evm,
                            ));
                        }
                        Ok(())
                    },
                }
            } else {
                if strict {
                    Err(RecordingError::UnknownLine)
                } else {
                    Ok(())
                }
            }
        },
    }
}


/// Parses a whole recording text, line by line. In strict mode an unknown
/// directive is an error; in lenient mode it is skipped. The name, ids and
/// descriptor must all be present.
pub fn parse_recording(text: &[u8], strict: bool) -> (r: Result<Recording, RecordingError>)
    ensures
        r matches Ok(rec) ==> spec_parse_recording(text@, strict) == Ok::<
            RecordingModel,
            RecordingError,
        >(rec.view()),
        r matches Err(e) ==> spec_parse_recording(text@, strict) == Err::<
            RecordingModel,
            RecordingError,
        >(e),
{
    let lines = split_lines(text);
    let ghost slines = spec_lines(text@);
    let mut name: Option<Vec<u8>> = None;
    let mut ids: Option<(u16, u16, u16)> = None;
    let mut rdesc: Option<Vec<u8>> = None;
    let mut events: Vec<HidEvent> = Vec::new();
    let mut i: usize = 0;
    proof {
        let st = ParseState {
            name: None,
            ids: None,
            rdesc: None,
            events: events@.map_values(|e: HidEvent| e.view()),
        };
        assert(st =~= spec_initial_parse_state());
    }
    while i < lines.len()
        invariant
            i <= lines@.len(),
            lines.deep_view() == slines,
            slines == spec_lines(text@),
            spec_parse_lines(spec_initial_parse_state(), slines, 0, strict) == spec_parse_lines(
                ParseState {
                    name: spec_view_opt_bytes(name),
                    ids: ids,
                    rdesc: spec_view_opt_bytes(rdesc),
                    events: events@.map_values(|e: HidEvent| e.view()),
                },
                slines,
                i as int,
                strict,
            ),
        decreases lines@.len() - i,
    {
        let ghost st_before = ParseState {
            name: spec_view_opt_bytes(name),
            ids: ids,
            rdesc: spec_view_opt_bytes(rdesc),
            events: events@.map_values(|e: HidEvent| e.view()),
        };
        let line = &lines[i];
        proof {
            assert(line@ == slines[i as int]);
        }
        match parse_line(&mut name, &mut ids, &mut rdesc, &mut events, line, strict) {
            Err(e) => {
                proof {
                    assert(spec_parse_lines(st_before, slines, i as int, strict) == Err::<
                        ParseState,
                        RecordingError,
                    >(e));
                }
                return Err(e);
            },
            Ok(_) => {
                i = i + 1;
            },
        }
    }
    let name_v = match name {
        None => {
            return Err(RecordingError::MissingName);
        },
        Some(n) => n,
    };
    let ids_v = match ids {
        None => {
            return Err(RecordingError::MissingIds);
        },
        Some(v) => v,
    };
    let rdesc_v = match rdesc {
        None => {
            return Err(RecordingError::MissingDescriptor);
        },
        Some(d) => d,
    };
    let rec = Recording {
        device_name: name_v,
        bustype: ids_v.0,
        vendor: ids_v.1,
        product: ids_v.2,
        rdesc: rdesc_v,
        events,
    };
    proof {
        assert(spec_parse_recording(text@, strict) is Ok);
        assert(rec.view() =~= spec_parse_recording(text@, strict)->Ok_0);
    }
    Ok(rec)
}

// ------------------------------------------------------------------
// The executable writer.
// ------------------------------------------------------------------

/// Appending one byte at the end of a hex data string.
proof fn lemma_hex_bytes_snoc(s: Seq<u8>, x: u8)
    ensures
        spec_hex_bytes(s.push(x)) == if s.len() == 0 {
            spec_hex_byte(x)
        } else {
            spec_hex_bytes(s) + seq![32u8] + spec_hex_byte(x)
        },
    decreases s.len(),
{
    let p = s.push(x);
    if s.len() == 0 {
        assert(p.len() == 1);
        assert(p[0] == x);
        assert(spec_hex_bytes(p) == spec_hex_byte(x));
    } else {
        assert(p.len() >= 2);
        assert(p[0] == s[0]);
        assert(p.skip(1) =~= s.skip(1).push(x));
        lemma_hex_bytes_snoc(s.skip(1), x);
        if s.len() == 1 {
            assert(s.skip(1).len() == 0);
            assert(spec_hex_bytes(p) == spec_hex_byte(s[0]) + seq![32u8] + spec_hex_byte(x));
            assert(spec_hex_bytes(s) == spec_hex_byte(s[0]));
            assert(spec_hex_byte(s[0]) + seq![32u8] + spec_hex_byte(x) =~= spec_hex_bytes(s)
                + seq![32u8] + spec_hex_byte(x));
        } else {
            assert(spec_hex_bytes(p) == spec_hex_byte(p[0]) + seq![32u8] + spec_hex_bytes(
                p.skip(1),
            ));
            assert(spec_hex_bytes(s) == spec_hex_byte(s[0]) + seq![32u8] + spec_hex_bytes(
                s.skip(1),
            ));
            assert(spec_hex_byte(s[0]) + seq![32u8] + (spec_hex_bytes(s.skip(1)) + seq![32u8]
                + spec_hex_byte(x)) =~= (spec_hex_byte(s[0]) + seq![32u8] + spec_hex_bytes(
                s.skip(1),
            )) + seq![32u8] + spec_hex_byte(x));
        }
    }
}

/// Formats bytes as the data lines carry them: two lowercase hex digits per
/// byte, single spaces in between.
fn format_hex_bytes(bytes: &[u8]) -> (r: Vec<u8>)
    ensures
        r@ == spec_hex_bytes(bytes@),
{
    let mut r: Vec<u8> = Vec::new();
    let mut i: usize = 0;
    proof {
        assert(bytes@.take(0) =~= Seq::<u8>::empty());
    }
    while i < bytes.len()
        invariant
            i <= bytes@.len(),
            r@ == spec_hex_bytes(bytes@.take(i as int)),
        decreases bytes@.len() - i,
    {
        let b = bytes[i];
        proof {
            assert(bytes@.take(i + 1) =~= bytes@.take(i as int).push(bytes@[i as int]));
            lemma_hex_bytes_snoc(bytes@.take(i as int), bytes@[i as int]);
        }
        if i > 0 {
            r.push(32);
        }
        let hb = crate::textnum::format_hex_byte(b);
        r.push(hb[0]);
        r.push(hb[1]);
        proof {
            assert(r@ =~= spec_hex_bytes(bytes@.take(i + 1)));
        }
        i = i + 1;
    }
    proof {
        assert(bytes@.take(bytes@.len() as int) =~= bytes@);
    }
    r
}

/// Appending one event at the end of the written event lines.
proof fn lemma_event_lines_snoc(evs: Seq<EventModel>, e: EventModel)
    ensures
        spec_event_lines(evs.push(e)) == spec_event_lines(evs) + spec_event_line(e) + seq![10u8],
    decreases evs.len(),
{
    let p = evs.push(e);
    if evs.len() == 0 {
        assert(p.len() == 1);
        assert(p[0] == e);
        assert(p.skip(1) =~= Seq::<EventModel>::empty());
        assert(spec_event_lines(p) == spec_event_line(e) + seq![10u8] + spec_event_lines(
            p.skip(1),
        ));
        assert(spec_event_line(e) + seq![10u8] + Seq::<u8>::empty() =~= Seq::<u8>::empty()
            + spec_event_line(e) + seq![10u8]);
    } else {
        assert(p[0] == evs[0]);
        assert(p.skip(1) =~= evs.skip(1).push(e));
        lemma_event_lines_snoc(evs.skip(1), e);
        assert(spec_event_line(evs[0]) + seq![10u8] + (spec_event_lines(evs.skip(1))
            + spec_event_line(e) + seq![10u8]) =~= (spec_event_line(evs[0]) + seq![10u8]
            + spec_event_lines(evs.skip(1))) + spec_event_line(e) + seq![10u8]);
    }
}

/// Writes one event line, newline-terminated.
fn write_event_line(out: &mut Vec<u8>, ev: &HidEvent)
    ensures
        final(out)@ == old(out)@ + spec_event_line(ev.view()) + seq![10u8],
{
    let secs = ev.timestamp_usecs / 1_000_000;
    let frac = ev.timestamp_usecs % 1_000_000;
    out.push(69);
    out.push(58);
    out.push(32);
    let secs_str = crate::textnum::pad6(crate::textnum::format_u64_dec(secs));
    out.extend_from_slice(secs_str.as_slice());
    out.push(46);
    let frac_str = crate::textnum::pad6(crate::textnum::format_u64_dec(frac));
    out.extend_from_slice(frac_str.as_slice());
    out.push(32);
    let len_str = crate::textnum::format_u64_dec(ev.bytes.len() as u64);
    out.extend_from_slice(len_str.as_slice());
    out.push(32);
    let hex = format_hex_bytes(ev.bytes.as_slice());
    out.extend_from_slice(hex.as_slice());
    out.push(10);
    proof {
        assert(final(out)@ =~= old(out)@ + spec_event_line(ev.view()) + seq![10u8]);
    }
}

/// One `N:` line with its newline, as the recorder emits it.
pub fn name_line_text(name: &[u8]) -> (r: Vec<u8>)
    ensures
        r@ == spec_name_line(name@) + seq![10u8],
{
    let mut out: Vec<u8> = Vec::new();
    out.push(78);
    out.push(58);
    out.push(32);
    out.extend_from_slice(name);
    out.push(10);
    proof {
        assert(out@ =~= spec_name_line(name@) + seq![10u8]);
    }
    out
}

/// One `I:` line with its newline: the three ids as bare lowercase hex.
pub fn ids_line_text(bustype: u16, vendor: u16, product: u16) -> (r: Vec<u8>)
    ensures
        r@ == spec_ids_line(bustype, vendor, product) + seq![10u8],
{
    let mut out: Vec<u8> = Vec::new();
    out.push(73);
    out.push(58);
    out.push(32);
    let b_str = crate::textnum::format_u16_hex(bustype);
    out.extend_from_slice(b_str.as_slice());
    out.push(32);
    let v_str = crate::textnum::format_u16_hex(vendor);
    out.extend_from_slice(v_str.as_slice());
    out.push(32);
    let p_str = crate::textnum::format_u16_hex(product);
    out.extend_from_slice(p_str.as_slice());
    out.push(10);
    proof {
        assert(out@ =~= spec_ids_line(bustype, vendor, product) + seq![10u8]);
    }
    out
}

/// One `R:` line with its newline: the length-prefixed descriptor bytes.
pub fn rdesc_line_text(rdesc: &[u8]) -> (r: Vec<u8>)
    ensures
        r@ == spec_rdesc_line(rdesc@) + seq![10u8],
{
    let mut out: Vec<u8> = Vec::new();
    out.push(82);
    out.push(58);
    out.push(32);
    let len_str = crate::textnum::format_u64_dec(rdesc.len() as u64);
    out.extend_from_slice(len_str.as_slice());
    out.push(32);
    let hex = format_hex_bytes(rdesc);
    out.extend_from_slice(hex.as_slice());
    out.push(10);
    proof {
        assert(out@ =~= spec_rdesc_line(rdesc@) + seq![10u8]);
    }
    out
}

/// One `E:` line with its newline: the timestamp and the length-prefixed
/// event bytes.
pub fn event_line_text(ev: &HidEvent) -> (r: Vec<u8>)
    ensures
        r@ == spec_event_line(ev.view()) + seq![10u8],
{
    let mut out: Vec<u8> = Vec::new();
    write_event_line(&mut out, ev);
    proof {
        assert(out@ =~= spec_event_line(ev.view()) + seq![10u8]);
    }
    out
}

/// Writes a recording in its canonical text form: the `N:`, `I:` and `R:`
/// lines, then one `E:` line per event, each newline-terminated, hex in
/// lowercase, the timestamp halves zero-padded to six digits.
pub fn write_recording(rec: &Recording) -> (r: Vec<u8>)
    ensures
        r@ == spec_recording_text(rec.view()),
{
    let mut out = name_line_text(rec.device_name.as_slice());
    let ids = ids_line_text(rec.bustype, rec.vendor, rec.product);
    out.extend_from_slice(ids.as_slice());
    let rl = rdesc_line_text(rec.rdesc.as_slice());
    out.extend_from_slice(rl.as_slice());
    let ghost head = out@;
    proof {
        assert(head =~= spec_name_line(rec.view().device_name) + seq![10u8] + spec_ids_line(
            rec.view().bustype,
            rec.view().vendor,
            rec.view().product,
        ) + seq![10u8] + spec_rdesc_line(rec.view().rdesc) + seq![10u8]);
    }
    let mut i: usize = 0;
    proof {
        assert(rec.view().events.take(0) =~= Seq::<EventModel>::empty());
        assert(out@ =~= head + spec_event_lines(rec.view().events.take(0)));
    }
    while i < rec.events.len()
        invariant
            i <= rec.events@.len(),
            rec.view().events.len() == rec.events@.len(),
            out@ == head + spec_event_lines(rec.view().events.take(i as int)),
        decreases rec.events@.len() - i,
    {
        let ev = &rec.events[i];
        proof {
            assert(rec.view().events[i as int] == ev.view());
        }
        write_event_line(&mut out, ev);
        proof {
            let evs = rec.view().events;
            assert(evs.take(i + 1) =~= evs.take(i as int).push(evs[i as int]));
            lemma_event_lines_snoc(evs.take(i as int), evs[i as int]);
            assert(out@ =~= head + spec_event_lines(evs.take(i + 1)));
        }
        i = i + 1;
    }
    proof {
        let evs = rec.view().events;
        assert(evs.take(evs.len() as int) =~= evs);
        assert(out@ =~= spec_recording_text(rec.view()));
    }
    out
}

// ------------------------------------------------------------------
// The round-trip law: parsing what the writer wrote gives the same
// recording back.
// ------------------------------------------------------------------

/// A line the writer may emit: free of line breaks.
pub open spec fn spec_line_clean(s: Seq<u8>) -> bool {
    forall|i: int| 0 <= i < s.len() ==> #[trigger] s[i] != 10 && s[i] != 13
}

/// Splitting off one clean, newline-terminated line.
proof fn lemma_lines_concat(line: Seq<u8>, rest: Seq<u8>)
    requires
        spec_line_clean(line),
    ensures
        spec_lines(line + seq![10u8] + rest) == seq![line] + spec_lines(rest),
{
    let text = line + seq![10u8] + rest;
    assert(text[line.len() as int] == 10);
    assert forall|j: int| 0 <= j < line.len() implies text[j] != 10 by {
        assert(text[j] == line[j]);
    }
    lemma_find_byte_first(text, 10, line.len() as int);
    assert(text.take(line.len() as int) =~= line);
    assert(text.skip(line.len() as int + 1) =~= rest);
    if line.len() > 0 {
        assert(line.last() != 13);
    }
    assert(spec_strip_cr(line) == line);
    assert(text.len() > 0);
}

/// Trimming a string that carries no whitespace at either end is a no-op.
proof fn lemma_trim_noop(s: Seq<u8>)
    requires
        s.len() > 0,
        !is_ascii_ws(s[0]),
        !is_ascii_ws(s[s.len() - 1]),
    ensures
        spec_trim(s) == s,
{
    assert(spec_trim_start(s) == s);
    assert(spec_trim_end(s) == s);
}

/// Splitting at the first space of `a ++ " " ++ b` when `a` has none.
proof fn lemma_split_space_concat(a: Seq<u8>, b: Seq<u8>)
    requires
        forall|i: int| 0 <= i < a.len() ==> #[trigger] a[i] != 32,
    ensures
        spec_split_once_space(a + seq![32u8] + b) == Some((a, b)),
{
    let s = a + seq![32u8] + b;
    assert(s[a.len() as int] == 32);
    assert forall|j: int| 0 <= j < a.len() implies s[j] != 32 by {
        assert(s[j] == a[j]);
    }
    lemma_find_byte_first(s, 32, a.len() as int);
    assert(s.take(a.len() as int) =~= a);
    assert(s.skip(a.len() as int + 1) =~= b);
}

/// Splitting at the first dot, likewise.
proof fn lemma_split_dot_concat(a: Seq<u8>, b: Seq<u8>)
    requires
        forall|i: int| 0 <= i < a.len() ==> #[trigger] a[i] != 46,
    ensures
        spec_split_once_at(a + seq![46u8] + b, 46) == Some((a, b)),
{
    let s = a + seq![46u8] + b;
    assert(s[a.len() as int] == 46);
    assert forall|j: int| 0 <= j < a.len() implies s[j] != 46 by {
        assert(s[j] == a[j]);
    }
    lemma_find_byte_first(s, 46, a.len() as int);
    assert(s.take(a.len() as int) =~= a);
    assert(s.skip(a.len() as int + 1) =~= b);
}

/// Space-splitting `a ++ " " ++ b` peels off the space-free token `a`.
proof fn lemma_split_spaces_concat(a: Seq<u8>, b: Seq<u8>)
    requires
        forall|i: int| 0 <= i < a.len() ==> #[trigger] a[i] != 32,
    ensures
        spec_split_spaces(a + seq![32u8] + b) == seq![a] + spec_split_spaces(b),
{
    let s = a + seq![32u8] + b;
    assert(s[a.len() as int] == 32);
    assert forall|j: int| 0 <= j < a.len() implies s[j] != 32 by {
        assert(s[j] == a[j]);
    }
    lemma_find_byte_first(s, 32, a.len() as int);
    assert(s.take(a.len() as int) =~= a);
    assert(s.skip(a.len() as int + 1) =~= b);
}

proof fn lemma_split_spaces_single(a: Seq<u8>)
    requires
        forall|i: int| 0 <= i < a.len() ==> #[trigger] a[i] != 32,
    ensures
        spec_split_spaces(a) == seq![a],
{
    lemma_find_byte_none(a, 32);
}

/// Removing spaces distributes over concatenation.
proof fn lemma_remove_spaces_concat(a: Seq<u8>, b: Seq<u8>)
    ensures
        spec_remove_spaces(a + b) == spec_remove_spaces(a) + spec_remove_spaces(b),
    decreases b.len(),
{
    if b.len() == 0 {
        assert(a + b =~= a);
        assert(spec_remove_spaces(a) + spec_remove_spaces(b) =~= spec_remove_spaces(a));
    } else {
        assert((a + b).drop_last() =~= a + b.drop_last());
        lemma_remove_spaces_concat(a, b.drop_last());
        assert((a + b).last() == b.last());
        if b.last() == 32 {
        } else {
            assert(spec_remove_spaces(a) + spec_remove_spaces(b.drop_last()).push(b.last())
                =~= (spec_remove_spaces(a) + spec_remove_spaces(b.drop_last())).push(b.last()));
        }
    }
}

/// Removing spaces from a space-free string is a no-op.
proof fn lemma_remove_spaces_noop(s: Seq<u8>)
    requires
        forall|i: int| 0 <= i < s.len() ==> #[trigger] s[i] != 32,
    ensures
        spec_remove_spaces(s) == s,
    decreases s.len(),
{
    if s.len() > 0 {
        lemma_remove_spaces_noop(s.drop_last());
        assert(spec_remove_spaces(s.drop_last()).push(s.last()) =~= s);
    }
}

/// The hex digit pairs of a byte string, with no separators.
pub open spec fn spec_hex_pairs(bytes: Seq<u8>) -> Seq<u8>
    decreases bytes.len(),
{
    if bytes.len() == 0 {
        Seq::empty()
    } else {
        spec_hex_byte(bytes[0]) + spec_hex_pairs(bytes.skip(1))
    }
}

proof fn lemma_hex_byte_clean(b: u8)
    ensures
        spec_hex_byte(b).len() == 2,
        is_hex_digit(spec_hex_byte(b)[0]),
        is_hex_digit(spec_hex_byte(b)[1]),
        hex_digit_val(spec_hex_byte(b)[0]) == b / 16,
        hex_digit_val(spec_hex_byte(b)[1]) == b % 16,
{
    crate::textnum::lemma_hex_char_class((b / 16) as nat);
    crate::textnum::lemma_hex_char_class((b % 16) as nat);
}

proof fn lemma_hex_pairs_props(bytes: Seq<u8>)
    ensures
        spec_hex_pairs(bytes).len() == 2 * bytes.len(),
        all_hex_digits(spec_hex_pairs(bytes)),
        forall|i: int|
            0 <= i < bytes.len() ==> spec_hex_pairs(bytes)[2 * i] == spec_hex_byte(
                #[trigger] bytes[i],
            )[0] && spec_hex_pairs(bytes)[2 * i + 1] == spec_hex_byte(bytes[i])[1],
    decreases bytes.len(),
{
    if bytes.len() > 0 {
        lemma_hex_pairs_props(bytes.skip(1));
        lemma_hex_byte_clean(bytes[0]);
        let p = spec_hex_pairs(bytes);
        let rest = spec_hex_pairs(bytes.skip(1));
        assert forall|i: int| 0 <= i < p.len() implies is_hex_digit(#[trigger] p[i]) by {
            if i >= 2 {
                assert(p[i] == rest[i - 2]);
            }
        }
        assert forall|i: int|
            0 <= i < bytes.len() implies p[2 * i] == spec_hex_byte(#[trigger] bytes[i])[0] && p[2
            * i + 1] == spec_hex_byte(bytes[i])[1] by {
            if i > 0 {
                assert(p[2 * i] == rest[2 * (i - 1)]);
                assert(p[2 * i + 1] == rest[2 * (i - 1) + 1]);
                assert(bytes[i] == bytes.skip(1)[i - 1]);
            }
        }
    }
}

/// The written hex of a byte string, its spaces removed, decodes back to
/// the same bytes.
proof fn lemma_hex_round_trip(bytes: Seq<u8>)
    ensures
        spec_remove_spaces(spec_hex_bytes(bytes)) == spec_hex_pairs(bytes),
        spec_hex_decode(spec_hex_pairs(bytes)) == Some(bytes),
    decreases bytes.len(),
{
    lemma_hex_pairs_props(bytes);
    if bytes.len() == 0 {
        assert(spec_remove_spaces(spec_hex_bytes(bytes)) =~= spec_hex_pairs(bytes));
    } else if bytes.len() == 1 {
        lemma_hex_byte_clean(bytes[0]);
        assert forall|i: int|
            0 <= i < spec_hex_byte(bytes[0]).len() implies #[trigger] spec_hex_byte(
            bytes[0],
        )[i] != 32 by {
            lemma_hex_byte_clean(bytes[0]);
        }
        lemma_remove_spaces_noop(spec_hex_byte(bytes[0]));
        assert(spec_hex_pairs(bytes) =~= spec_hex_byte(bytes[0]));
    } else {
        lemma_hex_round_trip(bytes.skip(1));
        lemma_hex_byte_clean(bytes[0]);
        let hb = spec_hex_byte(bytes[0]);
        assert(spec_hex_bytes(bytes) == hb + seq![32u8] + spec_hex_bytes(bytes.skip(1)));
        lemma_remove_spaces_concat(hb + seq![32u8], spec_hex_bytes(bytes.skip(1)));
        lemma_remove_spaces_concat(hb, seq![32u8]);
        assert(seq![32u8].drop_last() =~= Seq::<u8>::empty());
        assert(spec_remove_spaces(Seq::<u8>::empty()) =~= Seq::<u8>::empty());
        assert(seq![32u8].last() == 32);
        assert(spec_remove_spaces(seq![32u8]) =~= Seq::<u8>::empty());
        assert forall|i: int| 0 <= i < hb.len() implies #[trigger] hb[i] != 32 by {
            lemma_hex_byte_clean(bytes[0]);
        }
        lemma_remove_spaces_noop(hb);
        assert(spec_remove_spaces(hb + seq![32u8]) =~= hb);
        assert(spec_remove_spaces(spec_hex_bytes(bytes)) =~= hb + spec_hex_pairs(bytes.skip(1)));
        assert(hb + spec_hex_pairs(bytes.skip(1)) =~= spec_hex_pairs(bytes));
    }
    // the decode gives the bytes back
    let p = spec_hex_pairs(bytes);
    assert(p.len() % 2 == 0);
    assert(spec_hex_decode(p) is Some);
    let decoded = spec_hex_decode(p)->Some_0;
    assert forall|i: int| 0 <= i < bytes.len() implies decoded[i] == bytes[i] by {
        lemma_hex_byte_clean(bytes[i]);
        assert(p[2 * i] == spec_hex_byte(bytes[i])[0]);
        assert(p[2 * i + 1] == spec_hex_byte(bytes[i])[1]);
        vstd::arithmetic::div_mod::lemma_fundamental_div_mod(bytes[i] as int, 16);
    }
    assert(decoded =~= bytes);
}

/// The decimal digits the writer emits contain no separators.
proof fn lemma_dec_digits_clean(v: nat)
    ensures
        forall|i: int|
            0 <= i < spec_dec_digits(v).len() ==> 48 <= #[trigger] spec_dec_digits(v)[i] <= 57,
{
    crate::textnum::lemma_spec_dec_digits_ok(v);
}

/// A written length-prefixed data field reads back as the same bytes.
proof fn lemma_decode_lp_round_trip(bytes: Seq<u8>)
    requires
        bytes.len() <= u64::MAX,
    ensures
        spec_decode_lp(spec_dec_digits(bytes.len()) + seq![32u8] + spec_hex_bytes(bytes))
            == Ok::<Seq<u8>, RecordingError>(bytes),
{
    let lenstr = spec_dec_digits(bytes.len());
    let hexstr = spec_hex_bytes(bytes);
    crate::textnum::lemma_spec_dec_digits_ok(bytes.len());
    lemma_dec_digits_clean(bytes.len());
    lemma_split_space_concat(lenstr, hexstr);
    assert(lenstr[0] != 43);
    assert(spec_dec_u64_ok(lenstr));
    assert(spec_dec_u64_val(lenstr) == bytes.len());
    lemma_hex_round_trip(bytes);
}

/// The name line reads back as the name.
proof fn lemma_parse_name_line(st: ParseState, name: Seq<u8>)
    requires
        name.len() > 0,
        forall|i: int| 0 <= i < name.len() ==> #[trigger] name[i] != 10 && name[i] != 13,
        !is_ascii_ws(name[0]),
        !is_ascii_ws(name[name.len() - 1]),
    ensures
        spec_parse_line(st, spec_name_line(name), true) == Ok::<ParseState, RecordingError>(
            ParseState { name: Some(name), ..st },
        ),
{
    let line = spec_name_line(name);
    assert(line[0] == 78);
    assert(line.len() == 3 + name.len());
    assert(line[line.len() - 1] == name[name.len() - 1]);
    lemma_trim_noop(line);
    lemma_split_space_concat(spec_line_prefix_n(), name);
    assert(spec_split_once_space(line) == Some((spec_line_prefix_n(), name)));
}

/// The id line reads back as the three ids.
proof fn lemma_parse_ids_line(st: ParseState, b: u16, v: u16, p: u16)
    ensures
        spec_parse_line(st, spec_ids_line(b, v, p), true) == Ok::<ParseState, RecordingError>(
            ParseState { ids: Some((b, v, p)), ..st },
        ),
{
    let bs = spec_hex_digits(b as nat);
    let vs = spec_hex_digits(v as nat);
    let ps = spec_hex_digits(p as nat);
    crate::textnum::lemma_spec_hex_digits_ok(b as nat);
    crate::textnum::lemma_spec_hex_digits_ok(v as nat);
    crate::textnum::lemma_spec_hex_digits_ok(p as nat);
    let line = spec_ids_line(b, v, p);
    let rest = bs + seq![32u8] + vs + seq![32u8] + ps;
    assert(line[0] == 73);
    assert(line[line.len() - 1] == ps[ps.len() - 1]);
    assert(is_hex_digit(ps[ps.len() - 1]));
    lemma_trim_noop(line);
    assert(line =~= spec_line_prefix_i() + seq![32u8] + rest);
    lemma_split_space_concat(spec_line_prefix_i(), rest);
    assert(rest =~= bs + seq![32u8] + (vs + seq![32u8] + ps));
    lemma_split_spaces_concat(bs, vs + seq![32u8] + ps);
    lemma_split_spaces_concat(vs, ps);
    lemma_split_spaces_single(ps);
    let toks = spec_split_spaces(rest);
    assert(toks =~= seq![bs, vs, ps]);
    assert(toks[0] == bs && toks[1] == vs && toks[2] == ps);
    assert(bs[0] != 43 && vs[0] != 43 && ps[0] != 43);
    assert(spec_hex_u16_ok(bs) && spec_hex_u16_ok(vs) && spec_hex_u16_ok(ps));
    assert forall|i: int| 0 <= i < toks.len() implies spec_hex_u16_ok(#[trigger] toks[i]) by {
        if i == 0 {
            assert(toks[i] == bs);
        } else if i == 1 {
            assert(toks[i] == vs);
        } else {
            assert(toks[i] == ps);
        }
    }
    assert(spec_hex_u16_val(bs) == b && spec_hex_u16_val(vs) == v && spec_hex_u16_val(ps) == p);
    assert(spec_parse_ids(rest, true) == Ok::<(u16, u16, u16), RecordingError>((b, v, p)));
}

/// The descriptor line reads back as the descriptor bytes.
proof fn lemma_parse_rdesc_line(st: ParseState, rdesc: Seq<u8>)
    requires
        rdesc.len() > 0,
        rdesc.len() <= u64::MAX,
    ensures
        spec_parse_line(st, spec_rdesc_line(rdesc), true) == Ok::<ParseState, RecordingError>(
            ParseState { rdesc: Some(rdesc), ..st },
        ),
{
    let lenstr = spec_dec_digits(rdesc.len());
    let hexstr = spec_hex_bytes(rdesc);
    crate::textnum::lemma_spec_dec_digits_ok(rdesc.len());
    lemma_dec_digits_clean(rdesc.len());
    let line = spec_rdesc_line(rdesc);
    let rest = lenstr + seq![32u8] + hexstr;
    assert(line[0] == 82);
    lemma_hex_bytes_last_is_hex(rdesc);
    assert(line[line.len() - 1] == hexstr[hexstr.len() - 1]);
    lemma_trim_noop(line);
    assert(line =~= spec_line_prefix_r() + seq![32u8] + rest);
    lemma_split_space_concat(spec_line_prefix_r(), rest);
    lemma_decode_lp_round_trip(rdesc);
}

/// A written hex data string ends with a hex digit.
proof fn lemma_hex_bytes_last_is_hex(bytes: Seq<u8>)
    requires
        bytes.len() > 0,
    ensures
        spec_hex_bytes(bytes).len() > 0,
        is_hex_digit(spec_hex_bytes(bytes)[spec_hex_bytes(bytes).len() - 1]),
    decreases bytes.len(),
{
    lemma_hex_byte_clean(bytes[0]);
    if bytes.len() == 1 {
    } else {
        lemma_hex_bytes_last_is_hex(bytes.skip(1));
        let s = spec_hex_bytes(bytes);
        let rest = spec_hex_bytes(bytes.skip(1));
        assert(s[s.len() - 1] == rest[rest.len() - 1]);
    }
}

/// The event line reads back as the same event.
proof fn lemma_parse_event_line(st: ParseState, ev: EventModel)
    requires
        ev.bytes.len() > 0,
        ev.bytes.len() <= u64::MAX,
    ensures
        spec_parse_line(st, spec_event_line(ev), true) == Ok::<ParseState, RecordingError>(
            ParseState { events: st.events.push(ev), ..st },
        ),
{
    let secs = ev.timestamp_usecs as nat / 1_000_000;
    let frac = ev.timestamp_usecs as nat % 1_000_000;
    let secs_str = spec_pad6(spec_dec_digits(secs));
    let frac_str = spec_pad6(spec_dec_digits(frac));
    crate::textnum::lemma_spec_dec_digits_ok(secs);
    crate::textnum::lemma_spec_dec_digits_ok(frac);
    crate::textnum::lemma_pad6_value(spec_dec_digits(secs));
    crate::textnum::lemma_pad6_value(spec_dec_digits(frac));
    crate::textnum::lemma_spec_dec_digits_ok(ev.bytes.len());
    lemma_dec_digits_clean(ev.bytes.len());
    let lenstr = spec_dec_digits(ev.bytes.len());
    let hexstr = spec_hex_bytes(ev.bytes);
    let ts = secs_str + seq![46u8] + frac_str;
    let lp = lenstr + seq![32u8] + hexstr;
    let rest = ts + seq![32u8] + lp;
    let line = spec_event_line(ev);
    assert(line =~= spec_line_prefix_e() + seq![32u8] + rest);
    assert(line[0] == 69);
    lemma_hex_bytes_last_is_hex(ev.bytes);
    assert(line[line.len() - 1] == hexstr[hexstr.len() - 1]);
    lemma_trim_noop(line);
    lemma_split_space_concat(spec_line_prefix_e(), rest);
    // the timestamp token has no space; the first space of `rest` follows it
    assert forall|i: int| 0 <= i < ts.len() implies #[trigger] ts[i] != 32 by {
        if i < secs_str.len() {
            assert(ts[i] == secs_str[i]);
            assert(is_dec_digit(secs_str[i]));
        } else if i == secs_str.len() {
            assert(ts[i] == 46);
        } else {
            assert(ts[i] == frac_str[i - secs_str.len() - 1]);
            assert(is_dec_digit(frac_str[i - secs_str.len() - 1]));
        }
    }
    lemma_split_space_concat(ts, lp);
    // the dot splits the timestamp into its two digit halves
    assert forall|i: int| 0 <= i < secs_str.len() implies #[trigger] secs_str[i] != 46 by {
        assert(is_dec_digit(secs_str[i]));
    }
    lemma_split_dot_concat(secs_str, frac_str);
    assert(secs_str[0] != 43 && frac_str[0] != 43);
    assert(spec_dec_u64_ok(secs_str) && spec_dec_u64_ok(frac_str));
    assert(spec_dec_u64_val(secs_str) == secs && spec_dec_u64_val(frac_str) == frac);
    vstd::arithmetic::div_mod::lemma_fundamental_div_mod(ev.timestamp_usecs as int, 1_000_000);
    assert(secs * 1_000_000 + frac == ev.timestamp_usecs);
    lemma_decode_lp_round_trip(ev.bytes);
    assert(spec_parse_event(rest) == Ok::<EventModel, RecordingError>(
        EventModel { timestamp_usecs: ev.timestamp_usecs, bytes: ev.bytes },
    ));
    assert(EventModel { timestamp_usecs: ev.timestamp_usecs, bytes: ev.bytes } =~= ev);
}

/// Each written line is free of line breaks.
proof fn lemma_written_lines_clean(rec: RecordingModel)
    requires
        spec_recording_wf(rec),
    ensures
        spec_line_clean(spec_name_line(rec.device_name)),
        spec_line_clean(spec_ids_line(rec.bustype, rec.vendor, rec.product)),
        spec_line_clean(spec_rdesc_line(rec.rdesc)),
        forall|k: int|
            0 <= k < rec.events.len() ==> spec_line_clean(
                spec_event_line(#[trigger] rec.events[k]),
            ),
{
    crate::textnum::lemma_spec_hex_digits_ok(rec.bustype as nat);
    crate::textnum::lemma_spec_hex_digits_ok(rec.vendor as nat);
    crate::textnum::lemma_spec_hex_digits_ok(rec.product as nat);
    assert forall|i: int|
        0 <= i < spec_name_line(rec.device_name).len() implies #[trigger] spec_name_line(
        rec.device_name,
    )[i] != 10 && spec_name_line(rec.device_name)[i] != 13 by {
        if i >= 3 {
            assert(spec_name_line(rec.device_name)[i] == rec.device_name[i - 3]);
        }
    }
    lemma_ids_line_clean(rec.bustype, rec.vendor, rec.product);
    lemma_rdesc_line_clean(rec.rdesc);
    assert forall|k: int|
        0 <= k < rec.events.len() implies spec_line_clean(
        spec_event_line(#[trigger] rec.events[k]),
    ) by {
        lemma_event_line_clean(rec.events[k]);
    }
}

proof fn lemma_hex_bytes_clean(bytes: Seq<u8>)
    ensures
        forall|i: int|
            0 <= i < spec_hex_bytes(bytes).len() ==> 32 <= #[trigger] spec_hex_bytes(bytes)[i]
                <= 102,
    decreases bytes.len(),
{
    if bytes.len() > 0 {
        lemma_hex_byte_clean(bytes[0]);
        lemma_hex_bytes_clean(bytes.skip(1));
        let s = spec_hex_bytes(bytes);
        let hb = spec_hex_byte(bytes[0]);
        assert forall|i: int| 0 <= i < s.len() implies 32 <= #[trigger] s[i] <= 102 by {
            assert(48 <= hb[0] <= 102 && 48 <= hb[1] <= 102);
            if bytes.len() > 1 && i >= 3 {
                assert(s[i] == spec_hex_bytes(bytes.skip(1))[i - 3]);
            }
        }
    }
}

proof fn lemma_ids_line_clean(b: u16, v: u16, p: u16)
    ensures
        spec_line_clean(spec_ids_line(b, v, p)),
{
    crate::textnum::lemma_spec_hex_digits_ok(b as nat);
    crate::textnum::lemma_spec_hex_digits_ok(v as nat);
    crate::textnum::lemma_spec_hex_digits_ok(p as nat);
    let bs = spec_hex_digits(b as nat);
    let vs = spec_hex_digits(v as nat);
    let ps = spec_hex_digits(p as nat);
    let line = spec_ids_line(b, v, p);
    assert forall|i: int| 0 <= i < line.len() implies #[trigger] line[i] != 10 && line[i]
        != 13 by {
        if i >= 3 {
            let rest = bs + seq![32u8] + vs + seq![32u8] + ps;
            assert(line[i] == rest[i - 3]);
            let j = i - 3;
            if j < bs.len() {
                assert(rest[j] == bs[j]);
                assert(is_hex_digit(bs[j]));
            } else if j == bs.len() {
                assert(rest[j] == 32);
            } else if j < bs.len() + 1 + vs.len() {
                assert(rest[j] == vs[j - bs.len() - 1]);
                assert(is_hex_digit(vs[j - bs.len() - 1]));
            } else if j == bs.len() + 1 + vs.len() {
                assert(rest[j] == 32);
            } else {
                assert(rest[j] == ps[j - bs.len() - vs.len() - 2]);
                assert(is_hex_digit(ps[j - bs.len() - vs.len() - 2]));
            }
        }
    }
}

proof fn lemma_rdesc_line_clean(rdesc: Seq<u8>)
    ensures
        spec_line_clean(spec_rdesc_line(rdesc)),
{
    crate::textnum::lemma_spec_dec_digits_ok(rdesc.len());
    lemma_dec_digits_clean(rdesc.len());
    lemma_hex_bytes_clean(rdesc);
    let lenstr = spec_dec_digits(rdesc.len());
    let hexstr = spec_hex_bytes(rdesc);
    let line = spec_rdesc_line(rdesc);
    assert forall|i: int| 0 <= i < line.len() implies #[trigger] line[i] != 10 && line[i]
        != 13 by {
        if i >= 3 {
            let rest = lenstr + seq![32u8] + hexstr;
            assert(line[i] == rest[i - 3]);
            let j = i - 3;
            if j < lenstr.len() {
                assert(rest[j] == lenstr[j]);
            } else if j == lenstr.len() {
                assert(rest[j] == 32);
            } else {
                assert(rest[j] == hexstr[j - lenstr.len() - 1]);
            }
        }
    }
}

proof fn lemma_event_line_clean(ev: EventModel)
    ensures
        spec_line_clean(spec_event_line(ev)),
{
    let secs = ev.timestamp_usecs as nat / 1_000_000;
    let frac = ev.timestamp_usecs as nat % 1_000_000;
    crate::textnum::lemma_spec_dec_digits_ok(secs);
    crate::textnum::lemma_spec_dec_digits_ok(frac);
    crate::textnum::lemma_pad6_value(spec_dec_digits(secs));
    crate::textnum::lemma_pad6_value(spec_dec_digits(frac));
    crate::textnum::lemma_spec_dec_digits_ok(ev.bytes.len());
    lemma_dec_digits_clean(ev.bytes.len());
    lemma_hex_bytes_clean(ev.bytes);
    let secs_str = spec_pad6(spec_dec_digits(secs));
    let frac_str = spec_pad6(spec_dec_digits(frac));
    let lenstr = spec_dec_digits(ev.bytes.len());
    let hexstr = spec_hex_bytes(ev.bytes);
    let line = spec_event_line(ev);
    let a = secs_str.len();
    let c = frac_str.len();
    let d = lenstr.len();
    assert forall|i: int| 0 <= i < line.len() implies #[trigger] line[i] != 10 && line[i]
        != 13 by {
        if i >= 3 {
            let j = i - 3;
            if j < a {
                assert(line[i] == secs_str[j]);
                assert(is_dec_digit(secs_str[j]));
            } else if j == a {
                assert(line[i] == 46);
            } else if j < a + 1 + c {
                assert(line[i] == frac_str[j - a - 1]);
                assert(is_dec_digit(frac_str[j - a - 1]));
            } else if j == a + 1 + c {
                assert(line[i] == 32);
            } else if j < a + c + 2 + d {
                assert(line[i] == lenstr[j - a - c - 2]);
                assert(is_dec_digit(lenstr[j - a - c - 2]));
            } else if j == a + c + 2 + d {
                assert(line[i] == 32);
            } else {
                assert(line[i] == hexstr[j - a - c - d - 3]);
            }
        }
    }
}

/// The lines of the written text are exactly the written lines.
proof fn lemma_written_event_lines(events: Seq<EventModel>)
    requires
        forall|k: int|
            0 <= k < events.len() ==> spec_line_clean(spec_event_line(#[trigger] events[k])),
    ensures
        spec_lines(spec_event_lines(events)) == events.map_values(
            |e: EventModel| spec_event_line(e),
        ),
    decreases events.len(),
{
    if events.len() == 0 {
        assert(spec_event_lines(events) =~= Seq::<u8>::empty());
        assert(events.map_values(|e: EventModel| spec_event_line(e)) =~= Seq::<Seq<u8>>::empty());
    } else {
        assert(forall|k: int|
            0 <= k < events.skip(1).len() ==> spec_line_clean(
                spec_event_line(#[trigger] events.skip(1)[k]),
            ));
        lemma_written_event_lines(events.skip(1));
        lemma_lines_concat(spec_event_line(events[0]), spec_event_lines(events.skip(1)));
        assert(spec_event_lines(events) =~= spec_event_line(events[0]) + seq![10u8]
            + spec_event_lines(events.skip(1)));
        assert(events.skip(1).map_values(|e: EventModel| spec_event_line(e)) =~= events.map_values(
            |e: EventModel| spec_event_line(e),
        ).skip(1));
        assert(spec_lines(spec_event_lines(events)) =~= events.map_values(
            |e: EventModel| spec_event_line(e),
        ));
    }
}

/// Folding the parse over the written event lines appends exactly the
/// written events.
proof fn lemma_parse_event_lines(st: ParseState, events: Seq<EventModel>)
    requires
        forall|k: int|
            0 <= k < events.len() ==> (#[trigger] events[k]).bytes.len() > 0 && events[k].bytes.len()
                <= u64::MAX,
    ensures
        spec_parse_lines(
            st,
            events.map_values(|e: EventModel| spec_event_line(e)),
            0,
            true,
        ) == Ok::<ParseState, RecordingError>(
            ParseState { events: st.events + events, ..st },
        ),
    decreases events.len(),
{
    let lines = events.map_values(|e: EventModel| spec_event_line(e));
    if events.len() == 0 {
        assert(st.events + events =~= st.events);
        assert(ParseState { events: st.events + events, ..st } =~= st);
    } else {
        lemma_parse_event_line(st, events[0]);
        let st2 = ParseState { events: st.events.push(events[0]), ..st };
        lemma_parse_event_lines(st2, events.skip(1));
        let lines2 = events.skip(1).map_values(|e: EventModel| spec_event_line(e));
        assert(lines2 =~= lines.skip(1));
        lemma_parse_lines_shift(st2, lines, 1, true);
        assert(st.events.push(events[0]) + events.skip(1) =~= st.events + events);
        assert(ParseState { events: st2.events + events.skip(1), ..st2 } =~= ParseState {
            events: st.events + events,
            ..st
        });
    }
}

/// Parsing from position `i` equals parsing the tail from position 0.
proof fn lemma_parse_lines_shift(st: ParseState, lines: Seq<Seq<u8>>, i: int, strict: bool)
    requires
        0 <= i <= lines.len(),
    ensures
        spec_parse_lines(st, lines, i, strict) == spec_parse_lines(
            st,
            lines.skip(i),
            0,
            strict,
        ),
    decreases lines.len() - i,
{
    if i < lines.len() {
        assert(lines.skip(i)[0] == lines[i]);
        match spec_parse_line(st, lines[i], strict) {
            Err(_) => {
                assert(lines.skip(i).len() > 0);
            },
            Ok(st2) => {
                lemma_parse_lines_shift(st2, lines, i + 1, strict);
                if i + 1 < lines.len() || i + 1 == lines.len() {
                    lemma_parse_lines_shift(st2, lines.skip(i), 1, strict);
                }
                assert(lines.skip(i + 1) =~= lines.skip(i).skip(1));
            },
        }
    } else {
        assert(lines.skip(i).len() == 0);
    }
}

/// Round trip of the recording codec: parsing the canonical text of any
/// well-formed recording gives back an equal recording — the same name, the
/// same ids, the same descriptor bytes, and the same events with identical
/// timestamps and bytes.
/// The canonical text splits back into exactly the written lines.
#[verifier::rlimit(50)]
proof fn lemma_written_text_lines(rec: RecordingModel)
    requires
        spec_recording_wf(rec),
    ensures
        spec_lines(spec_recording_text(rec)) == seq![
            spec_name_line(rec.device_name),
            spec_ids_line(rec.bustype, rec.vendor, rec.product),
            spec_rdesc_line(rec.rdesc),
        ] + rec.events.map_values(|e: EventModel| spec_event_line(e)),
{
    let text = spec_recording_text(rec);
    let n_line = spec_name_line(rec.device_name);
    let i_line = spec_ids_line(rec.bustype, rec.vendor, rec.product);
    let r_line = spec_rdesc_line(rec.rdesc);
    let ev_lines = rec.events.map_values(|e: EventModel| spec_event_line(e));
    lemma_written_lines_clean(rec);
    assert(text =~= n_line + seq![10u8] + (i_line + seq![10u8] + (r_line + seq![10u8]
        + spec_event_lines(rec.events))));
    lemma_lines_concat(n_line, i_line + seq![10u8] + (r_line + seq![10u8] + spec_event_lines(
        rec.events,
    )));
    lemma_lines_concat(i_line, r_line + seq![10u8] + spec_event_lines(rec.events));
    lemma_lines_concat(r_line, spec_event_lines(rec.events));
    lemma_written_event_lines(rec.events);
    assert(spec_lines(text) =~= seq![n_line, i_line, r_line] + ev_lines);
}

/// Round trip of the recording codec: parsing the canonical text of any
/// well-formed recording gives back an equal recording — the same name, the
/// same ids, the same descriptor bytes, and the same events with identical
/// timestamps and bytes.
#[verifier::rlimit(50)]
pub proof fn lemma_recording_round_trip(rec: RecordingModel)
    requires
        spec_recording_wf(rec),
        rec.rdesc.len() <= u64::MAX,
        forall|k: int|
            0 <= k < rec.events.len() ==> (#[trigger] rec.events[k]).bytes.len() <= u64::MAX,
    ensures
        spec_parse_recording(spec_recording_text(rec), true) == Ok::<
            RecordingModel,
            RecordingError,
        >(rec),
{
    let text = spec_recording_text(rec);
    let n_line = spec_name_line(rec.device_name);
    let i_line = spec_ids_line(rec.bustype, rec.vendor, rec.product);
    let r_line = spec_rdesc_line(rec.rdesc);
    let ev_lines = rec.events.map_values(|e: EventModel| spec_event_line(e));
    lemma_written_text_lines(rec);
    let lines = spec_lines(text);
    assert(lines.len() == 3 + rec.events.len());
    assert(lines[0] == n_line && lines[1] == i_line && lines[2] == r_line);
    let st0 = spec_initial_parse_state();
    lemma_parse_name_line(st0, rec.device_name);
    let st1 = ParseState { name: Some(rec.device_name), ..st0 };
    lemma_parse_ids_line(st1, rec.bustype, rec.vendor, rec.product);
    let st2 = ParseState { ids: Some((rec.bustype, rec.vendor, rec.product)), ..st1 };
    lemma_parse_rdesc_line(st2, rec.rdesc);
    let st3 = ParseState { rdesc: Some(rec.rdesc), ..st2 };
    assert(spec_parse_lines(st0, lines, 0, true) == spec_parse_lines(st1, lines, 1, true));
    assert(spec_parse_lines(st1, lines, 1, true) == spec_parse_lines(st2, lines, 2, true));
    assert(spec_parse_lines(st2, lines, 2, true) == spec_parse_lines(st3, lines, 3, true));
    lemma_parse_lines_shift(st3, lines, 3, true);
    assert(lines.skip(3) =~= ev_lines);
    lemma_parse_event_lines(st3, rec.events);
    assert(st3.events + rec.events =~= rec.events);
    let st4 = ParseState { events: rec.events, ..st3 };
    assert(ParseState { events: st3.events + rec.events, ..st3 } =~= st4);
    assert(spec_parse_lines(st0, lines, 0, true) == Ok::<ParseState, RecordingError>(st4));
    assert(spec_parse_recording(text, true) is Ok);
    assert(spec_parse_recording(text, true)->Ok_0 =~= rec);
}

} // verus!
