//! The input backends: the closed set of sources a device model can come
//! from — a hidraw device node, a raw binary descriptor file, a recording in
//! this tool's own format, and a third-party recording. Each backend holds
//! the device's name, its bus, vendor and product ids, the raw report
//! descriptor, and whatever events the source carries; the surrounding
//! program does the file and device reading and hands the bytes in.

use vstd::prelude::*;

verus! {

use crate::recording::HidEvent;
use crate::recording::Recording;
use crate::recording::RecordingError;
use crate::recording::spec_parse_recording;

/// One input event device node belonging to a hidraw device.
#[derive(Clone, Debug, PartialEq, Eq)]
pub struct EventNode {
    pub name: Vec<u8>,
    pub path: Vec<u8>,
}

/// How assembling a backend from its source fails.
#[derive(Clone, Copy, Debug, PartialEq, Eq, Structural)]
pub enum BackendError {
    /// The source carries no report descriptor bytes.
    EmptyDescriptor,
    /// The source names fewer than the three bus, vendor and product ids.
    MissingIds,
    /// An event timestamp does not fit the microsecond clock.
    BadTimestamp,
}

/// A report descriptor read raw from a binary file, with placeholder
/// identity.
#[derive(Clone, Debug, PartialEq, Eq)]
pub struct BinaryBackend {
    pub name: Vec<u8>,
    pub bustype: u32,
    pub vid: u32,
    pub pid: u32,
    pub rdesc: Vec<u8>,
}

impl BinaryBackend {
    /// Wraps raw descriptor bytes under the placeholder identity.
    pub fn from_bytes(rdesc: Vec<u8>) -> (r: BinaryBackend)
        ensures
            r.rdesc@ == rdesc@,
            r.name@ == crate::numberarray::spec_no_name(),
            r.bustype == 0 && r.vid == 0 && r.pid == 0,
    {
        let mut name: Vec<u8> = Vec::new();
        name.push(78);
        name.push(111);
        name.push(32);
        name.push(78);
        name.push(97);
        name.push(109);
        name.push(101);
        proof {
            assert(name@ =~= crate::numberarray::spec_no_name());
        }
        BinaryBackend { name, bustype: 0, vid: 0, pid: 0, rdesc }
    }

    pub fn name(&self) -> (r: &Vec<u8>)
        ensures
            r@ == self.name@,
    {
        &self.name
    }

    pub fn bustype(&self) -> (r: u32)
        ensures
            r == self.bustype,
    {
        self.bustype
    }

    pub fn vid(&self) -> (r: u32)
        ensures
            r == self.vid,
    {
        self.vid
    }

    pub fn pid(&self) -> (r: u32)
        ensures
            r == self.pid,
    {
        self.pid
    }

    pub fn rdesc(&self) -> (r: &Vec<u8>)
        ensures
            r@ == self.rdesc@,
    {
        &self.rdesc
    }

    pub fn event_nodes(&self) -> (r: &[EventNode])
        ensures
            r@.len() == 0,
    {
        &[]
    }
}

// ------------------------------------------------------------------
// The uevent identity file.
// ------------------------------------------------------------------

use crate::recording::spec_lines;
use crate::recording::spec_find_byte;
use crate::recording::spec_split_once_at;
use crate::recording::find_byte;
use crate::recording::copy_range;
use crate::recording::split_lines;
use crate::textnum::spec_hex_u32_ok;
use crate::textnum::spec_hex_u32_val;

/// How reading a uevent identity file fails.
#[derive(Clone, Copy, Debug, PartialEq, Eq, Structural)]
pub enum UeventError {
    /// No HID_NAME line.
    MissingName,
    /// A HID_NAME line without an equals sign.
    BadName,
    /// No HID_ID line.
    MissingId,
    /// A HID_ID line whose value is not three or more hex ids.
    BadId,
}

pub open spec fn spec_starts_with(s: Seq<u8>, p: Seq<u8>) -> bool {
    p.len() <= s.len() && s.take(p.len() as int) == p
}

/// The index of the first line starting with the prefix, or -1.
pub open spec fn spec_find_line(lines: Seq<Seq<u8>>, p: Seq<u8>) -> int
    decreases lines.len(),
{
    if lines.len() == 0 {
        -1
    } else if spec_starts_with(lines[0], p) {
        0
    } else {
        let r = spec_find_line(lines.skip(1), p);
        if r < 0 {
            -1
        } else {
            r + 1
        }
    }
}

proof fn lemma_find_line_first(lines: Seq<Seq<u8>>, p: Seq<u8>, i: int)
    requires
        0 <= i < lines.len(),
        spec_starts_with(lines[i], p),
        forall|j: int| 0 <= j < i ==> !spec_starts_with(#[trigger] lines[j], p),
    ensures
        spec_find_line(lines, p) == i,
    decreases i,
{
    if i > 0 {
        lemma_find_line_first(lines.skip(1), p, i - 1);
        assert forall|j: int| 0 <= j < i - 1 implies !spec_starts_with(
            #[trigger] lines.skip(1)[j],
            p,
        ) by {
            assert(lines.skip(1)[j] == lines[j + 1]);
        }
    }
}

proof fn lemma_find_line_none(lines: Seq<Seq<u8>>, p: Seq<u8>)
    requires
        forall|j: int| 0 <= j < lines.len() ==> !spec_starts_with(#[trigger] lines[j], p),
    ensures
        spec_find_line(lines, p) < 0,
    decreases lines.len(),
{
    if lines.len() > 0 {
        lemma_find_line_none(lines.skip(1), p);
        assert(forall|j: int|
            0 <= j < lines.skip(1).len() ==> !spec_starts_with(#[trigger] lines.skip(1)[j], p));
    }
}

fn starts_with(s: &[u8], p: &[u8]) -> (r: bool)
    ensures
        r == spec_starts_with(s@, p@),
{
    if p.len() > s.len() {
        return false;
    }
    let mut i: usize = 0;
    while i < p.len()
        invariant
            i <= p@.len() <= s@.len(),
            forall|j: int| 0 <= j < i ==> s@[j] == p@[j],
        decreases p@.len() - i,
    {
        if s[i] != p[i] {
            proof {
                assert(s@.take(p@.len() as int)[i as int] != p@[i as int]);
            }
            return false;
        }
        i = i + 1;
    }
    proof {
        assert(s@.take(p@.len() as int) =~= p@);
    }
    true
}

fn find_line_with_prefix<'a>(lines: &'a Vec<Vec<u8>>, p: &[u8]) -> (r: Option<&'a Vec<u8>>)
    ensures
        r matches Some(line) ==> spec_find_line(lines.deep_view(), p@) >= 0 && line@
            == lines.deep_view()[spec_find_line(lines.deep_view(), p@)],
        r is None ==> spec_find_line(lines.deep_view(), p@) < 0,
{
    let mut i: usize = 0;
    while i < lines.len()
        invariant
            i <= lines@.len(),
            forall|j: int|
                0 <= j < i ==> !spec_starts_with(#[trigger] lines.deep_view()[j], p@),
        decreases lines@.len() - i,
    {
        let line = &lines[i];
        if starts_with(line.as_slice(), p) {
            proof {
                assert(lines.deep_view()[i as int] == line@);
                lemma_find_line_first(lines.deep_view(), p@, i as int);
            }
            return Some(line);
        }
        proof {
            assert(lines.deep_view()[i as int] == line@);
        }
        i = i + 1;
    }
    proof {
        lemma_find_line_none(lines.deep_view(), p@);
    }
    None
}

/// Splits at every occurrence of a byte, keeping empty tokens.
pub open spec fn spec_split_all(s: Seq<u8>, b: u8) -> Seq<Seq<u8>>
    decreases s.len(),
    via spec_split_all_decreases
{
    let i = spec_find_byte(s, b);
    if i < 0 {
        seq![s]
    } else {
        seq![s.take(i)] + spec_split_all(s.skip(i + 1), b)
    }
}

#[via_fn]
proof fn spec_split_all_decreases(s: Seq<u8>, b: u8) {
    crate::recording::lemma_find_byte(s, b);
}

/// The `HID_NAME` prefix.
pub open spec fn spec_hid_name_prefix() -> Seq<u8> {
    seq![72u8, 73u8, 68u8, 95u8, 78u8, 65u8, 77u8, 69u8]
}

/// The `HID_ID` prefix.
pub open spec fn spec_hid_id_prefix() -> Seq<u8> {
    seq![72u8, 73u8, 68u8, 95u8, 73u8, 68u8]
}

/// The `DEVNAME` prefix.
pub open spec fn spec_devname_prefix() -> Seq<u8> {
    seq![68u8, 69u8, 86u8, 78u8, 65u8, 77u8, 69u8]
}

/// The parse of a uevent identity file: the value after `=` on the first
/// `HID_NAME` line, and the first three colon-separated hex ids after `=`
/// on the first `HID_ID` line (every id token must read as hex).
pub open spec fn spec_parse_uevent(text: Seq<u8>) -> Result<
    (Seq<u8>, (u32, u32, u32)),
    UeventError,
> {
    let lines = spec_lines(text);
    let ni = spec_find_line(lines, spec_hid_name_prefix());
    if ni < 0 {
        Err(UeventError::MissingName)
    } else {
        match spec_split_once_at(lines[ni], 61) {
            None => Err(UeventError::BadName),
            Some((pre_n, name)) => {
                let ii = spec_find_line(lines, spec_hid_id_prefix());
                if ii < 0 {
                    Err(UeventError::MissingId)
                } else {
                    match spec_split_once_at(lines[ii], 61) {
                        None => Err(UeventError::BadId),
                        Some((pre_i, idstr)) => {
                            let toks = spec_split_all(idstr, 58);
                            if !(forall|k: int|
                                0 <= k < toks.len() ==> spec_hex_u32_ok(#[trigger] toks[k])) {
                                Err(UeventError::BadId)
                            } else if toks.len() < 3 {
                                Err(UeventError::BadId)
                            } else {
                                Ok(
                                    (
                                        name,
                                        (
                                            spec_hex_u32_val(toks[0]) as u32,
                                            spec_hex_u32_val(toks[1]) as u32,
                                            spec_hex_u32_val(toks[2]) as u32,
                                        ),
                                    ),
                                )
                            }
                        },
                    }
                }
            },
        }
    }
}

fn split_once_eq(s: &[u8]) -> (r: Option<(Vec<u8>, Vec<u8>)>)
    ensures
        r matches Some(p) ==> spec_split_once_at(s@, 61) == Some((p.0@, p.1@)),
        r is None ==> spec_split_once_at(s@, 61) is None,
{
    let n = s.len();
    match find_byte(s, 61) {
        None => None,
        Some(i) => {
            let a = copy_range(s, 0, i);
            let b = copy_range(s, i + 1, n);
            proof {
                crate::recording::lemma_find_byte(s@, 61);
                assert(a@ =~= s@.take(i as int));
                assert(b@ =~= s@.skip(i + 1));
            }
            Some((a, b))
        },
    }
}

/// Reads the device name and the bus, vendor and product ids out of a
/// sysfs uevent identity file.
pub fn parse_uevent(text: &[u8]) -> (r: Result<(Vec<u8>, (u32, u32, u32)), UeventError>)
    ensures
        r matches Ok(p) ==> spec_parse_uevent(text@) == Ok::<
            (Seq<u8>, (u32, u32, u32)),
            UeventError,
        >((p.0@, p.1)),
        r matches Err(e) ==> spec_parse_uevent(text@) == Err::<
            (Seq<u8>, (u32, u32, u32)),
            UeventError,
        >(e),
{
    let lines = split_lines(text);
    let mut name_prefix: Vec<u8> = Vec::new();
    name_prefix.push(72);
    name_prefix.push(73);
    name_prefix.push(68);
    name_prefix.push(95);
    name_prefix.push(78);
    name_prefix.push(65);
    name_prefix.push(77);
    name_prefix.push(69);
    proof {
        assert(name_prefix@ =~= spec_hid_name_prefix());
    }
    let name_line = match find_line_with_prefix(&lines, name_prefix.as_slice()) {
        None => {
            return Err(UeventError::MissingName);
        },
        Some(l) => l,
    };
    let name = match split_once_eq(name_line.as_slice()) {
        None => {
            return Err(UeventError::BadName);
        },
        Some((_, v)) => v,
    };
    let mut id_prefix: Vec<u8> = Vec::new();
    id_prefix.push(72);
    id_prefix.push(73);
    id_prefix.push(68);
    id_prefix.push(95);
    id_prefix.push(73);
    id_prefix.push(68);
    proof {
        assert(id_prefix@ =~= spec_hid_id_prefix());
    }
    let id_line = match find_line_with_prefix(&lines, id_prefix.as_slice()) {
        None => {
            return Err(UeventError::MissingId);
        },
        Some(l) => l,
    };
    let idstr = match split_once_eq(id_line.as_slice()) {
        None => {
            return Err(UeventError::BadId);
        },
        Some((_, v)) => v,
    };
    match parse_u32_list(idstr.as_slice()) {
        Err(e) => Err(e),
        Ok(ids) => Ok((name, ids)),
    }
}

/// Parses a colon-separated list of hex ids; every token must read as one,
/// and there must be at least three.
fn parse_u32_list(s: &[u8]) -> (r: Result<(u32, u32, u32), UeventError>)
    ensures
        ({
            let toks = spec_split_all(s@, 58);
            let all_ok = forall|k: int| 0 <= k < toks.len() ==> spec_hex_u32_ok(#[trigger] toks[k]);
            &&& (r matches Ok(ids) ==> all_ok && toks.len() >= 3 && ids == (
                spec_hex_u32_val(toks[0]) as u32,
                spec_hex_u32_val(toks[1]) as u32,
                spec_hex_u32_val(toks[2]) as u32,
            ))
            &&& (r matches Err(e) ==> e == UeventError::BadId && (!all_ok || toks.len() < 3))
        }),
{
    let ghost toks = spec_split_all(s@, 58);
    let mut vals: Vec<u32> = Vec::new();
    let n1 = s.len();
    let mut rest: Vec<u8> = copy_range(s, 0, n1);
    proof {
        assert(rest@ =~= s@);
        assert(toks.skip(0) =~= toks);
    }
    loop
        invariant_except_break
            toks == spec_split_all(s@, 58),
            vals@.len() <= toks.len(),
            spec_split_all(rest@, 58) =~= toks.skip(vals@.len() as int),
            forall|k: int|
                0 <= k < vals@.len() ==> spec_hex_u32_ok(#[trigger] toks[k]) && vals@[k] as nat
                    == spec_hex_u32_val(toks[k]),
        ensures
            toks == spec_split_all(s@, 58),
            vals@.len() == toks.len(),
            forall|k: int|
                0 <= k < vals@.len() ==> spec_hex_u32_ok(#[trigger] toks[k]) && vals@[k] as nat
                    == spec_hex_u32_val(toks[k]),
        decreases rest@.len() + 1,
    {
        let ghost remaining = toks.skip(vals@.len() as int);
        proof {
            assert(remaining.len() >= 1);
            assert(vals@.len() < toks.len());
        }
        let rlen = rest.len();
        match find_byte(rest.as_slice(), 58) {
            Some(i) => {
                let tok = copy_range(rest.as_slice(), 0, i);
                let newrest = copy_range(rest.as_slice(), i + 1, rlen);
                proof {
                    crate::recording::lemma_find_byte(rest@, 58);
                    assert(tok@ =~= rest@.take(i as int));
                    assert(newrest@ =~= rest@.skip(i + 1));
                    assert(remaining[0] == rest@.take(i as int));
                    assert(toks.skip(vals@.len() as int + 1) =~= remaining.skip(1));
                }
                match crate::textnum::parse_u32_hex(tok.as_slice()) {
                    None => {
                        proof {
                            assert(toks[vals@.len() as int] == tok@);
                        }
                        return Err(UeventError::BadId);
                    },
                    Some(v) => {
                        vals.push(v);
                        rest = newrest;
                    },
                }
            },
            None => {
                proof {
                    assert(remaining[0] == rest@);
                    assert(remaining.len() == 1);
                    assert(toks.len() == vals@.len() + 1);
                }
                match crate::textnum::parse_u32_hex(rest.as_slice()) {
                    None => {
                        proof {
                            assert(toks[vals@.len() as int] == rest@);
                        }
                        return Err(UeventError::BadId);
                    },
                    Some(v) => {
                        vals.push(v);
                        break ;
                    },
                }
            },
        }
    }
    if vals.len() < 3 {
        return Err(UeventError::BadId);
    }
    Ok((vals[0], vals[1], vals[2]))
}

/// The parse of the `DEVNAME` line of a uevent file: the value after `=`,
/// if the line and the sign are there.
pub open spec fn spec_parse_devname(text: Seq<u8>) -> Option<Seq<u8>> {
    let lines = spec_lines(text);
    let di = spec_find_line(lines, spec_devname_prefix());
    if di < 0 {
        None
    } else {
        match spec_split_once_at(lines[di], 61) {
            None => None,
            Some((pre, value)) => Some(value),
        }
    }
}

/// Reads the `DEVNAME` value out of a uevent file, to find the device node
/// under `/dev` that belongs to a sysfs entry.
pub fn parse_devname(text: &[u8]) -> (r: Option<Vec<u8>>)
    ensures
        r matches Some(v) ==> spec_parse_devname(text@) == Some(v@),
        r is None ==> spec_parse_devname(text@) is None,
{
    let lines = split_lines(text);
    let mut prefix: Vec<u8> = Vec::new();
    prefix.push(68);
    prefix.push(69);
    prefix.push(86);
    prefix.push(78);
    prefix.push(65);
    prefix.push(77);
    prefix.push(69);
    proof {
        assert(prefix@ =~= spec_devname_prefix());
    }
    let line = match find_line_with_prefix(&lines, prefix.as_slice()) {
        None => {
            return None;
        },
        Some(l) => l,
    };
    match split_once_eq(line.as_slice()) {
        None => None,
        Some((_, v)) => Some(v),
    }
}

// ------------------------------------------------------------------
// The hidraw backend.
// ------------------------------------------------------------------

/// A live hidraw device: its identity and descriptor from sysfs, the device
/// node to read events from, and the input event nodes belonging to it.
#[derive(Clone, Debug, PartialEq, Eq)]
pub struct HidrawBackend {
    pub name: Vec<u8>,
    pub bustype: u32,
    pub vid: u32,
    pub pid: u32,
    pub rdesc: Vec<u8>,
    pub device_path: Option<Vec<u8>>,
    pub event_nodes: Vec<EventNode>,
}

impl HidrawBackend {
    /// Assembles the backend from what the device tree gave: the uevent
    /// identity, the raw descriptor bytes, the optional device node path
    /// and the discovered event nodes. An empty descriptor is rejected.
    pub fn assemble(
        name: Vec<u8>,
        bustype: u32,
        vid: u32,
        pid: u32,
        rdesc: Vec<u8>,
        device_path: Option<Vec<u8>>,
        event_nodes: Vec<EventNode>,
    ) -> (r: Result<HidrawBackend, BackendError>)
        ensures
            r is Ok <==> rdesc@.len() > 0,
            r matches Ok(b) ==> {
                &&& b.name@ == name@
                &&& b.bustype == bustype && b.vid == vid && b.pid == pid
                &&& b.rdesc@ == rdesc@
                &&& b.device_path == device_path
                &&& b.event_nodes@ == event_nodes@
            },
            r matches Err(e) ==> e == BackendError::EmptyDescriptor,
    {
        if rdesc.len() == 0 {
            return Err(BackendError::EmptyDescriptor);
        }
        Ok(HidrawBackend { name, bustype, vid, pid, rdesc, device_path, event_nodes })
    }

    pub fn name(&self) -> (r: &Vec<u8>)
        ensures
            r@ == self.name@,
    {
        &self.name
    }

    pub fn bustype(&self) -> (r: u32)
        ensures
            r == self.bustype,
    {
        self.bustype
    }

    pub fn vid(&self) -> (r: u32)
        ensures
            r == self.vid,
    {
        self.vid
    }

    pub fn pid(&self) -> (r: u32)
        ensures
            r == self.pid,
    {
        self.pid
    }

    pub fn rdesc(&self) -> (r: &Vec<u8>)
        ensures
            r@ == self.rdesc@,
    {
        &self.rdesc
    }

    pub fn event_nodes(&self) -> (r: &Vec<EventNode>)
        ensures
            r@ == self.event_nodes@,
    {
        &self.event_nodes
    }
}

// ------------------------------------------------------------------
// The third-party recording backend.
// ------------------------------------------------------------------

/// A device replayed from a third-party recording: identity and descriptor
/// from the recording's device section, events with their second and
/// microsecond stamps combined onto the microsecond clock.
#[derive(Clone, Debug, PartialEq, Eq)]
pub struct LibinputRecordingBackend {
    pub name: Vec<u8>,
    pub bustype: u32,
    pub vid: u32,
    pub pid: u32,
    pub rdesc: Vec<u8>,
    pub events: Vec<HidEvent>,
}

impl LibinputRecordingBackend {
    /// Assembles the backend from the plain values read out of the
    /// recording: the device name, the id list (bus, vendor, product, in
    /// that order), the descriptor bytes, and the raw events as seconds,
    /// microseconds and payload. Fewer than three ids, or a timestamp past
    /// the microsecond clock, is rejected.
    pub fn assemble(
        name: Vec<u8>,
        ids: Vec<u32>,
        rdesc: Vec<u8>,
        raw_events: Vec<(u64, u64, Vec<u8>)>,
    ) -> (r: Result<LibinputRecordingBackend, BackendError>)
        ensures
            r is Ok <==> ids@.len() >= 3 && (forall|i: int|
                0 <= i < raw_events@.len() ==> (#[trigger] raw_events@[i]).0 * 1_000_000
                    + raw_events@[i].1 <= u64::MAX),
            r matches Ok(b) ==> {
                &&& b.name@ == name@
                &&& b.bustype == ids@[0] && b.vid == ids@[1] && b.pid == ids@[2]
                &&& b.rdesc@ == rdesc@
                &&& b.events@.len() == raw_events@.len()
                &&& forall|i: int|
                    0 <= i < raw_events@.len() ==> (#[trigger] b.events@[i]).timestamp_usecs
                        == (raw_events@[i].0 * 1_000_000 + raw_events@[i].1) as u64
                        && b.events@[i].bytes@ == raw_events@[i].2@
            },
            r matches Err(e) ==> e == BackendError::MissingIds || e == BackendError::BadTimestamp,
    {
        if ids.len() < 3 {
            return Err(BackendError::MissingIds);
        }
        let mut events: Vec<HidEvent> = Vec::new();
        let mut raw = raw_events;
        let mut i: usize = 0;
        let total = raw.len();
        let ghost raw0 = raw@;
        while raw.len() > 0
            invariant
                raw0 == raw_events@,
                raw@ =~= raw0.skip(i as int),
                i + raw@.len() == total,
                total == raw0.len(),
                i == events@.len(),
                forall|k: int|
                    0 <= k < i ==> (#[trigger] raw0[k]).0 * 1_000_000 + raw0[k].1 <= u64::MAX,
                forall|k: int|
                    0 <= k < i ==> (#[trigger] events@[k]).timestamp_usecs == (raw0[k].0
                        * 1_000_000 + raw0[k].1) as u64 && events@[k].bytes@ == raw0[k].2@,
            decreases raw@.len(),
        {
            let ghost cur = raw0[i as int];
            proof {
                assert(raw@[0] == raw0.skip(i as int)[0]);
            }
            let (secs, usecs, bytes) = raw.remove(0);
            proof {
                assert(cur.0 == secs && cur.1 == usecs && cur.2@ == bytes@);
                crate::textnum::lemma_step_fits_iff_pub(
                    secs as nat,
                    usecs as nat,
                    1_000_000,
                    u64::MAX as nat,
                );
                assert(raw@ =~= raw0.skip(i + 1));
            }
            if secs > (u64::MAX - usecs) / 1_000_000 {
                proof {
                    assert(raw0[i as int].0 * 1_000_000 + raw0[i as int].1 > u64::MAX);
                }
                return Err(BackendError::BadTimestamp);
            }
            let ts = secs * 1_000_000 + usecs;
            events.push(HidEvent { timestamp_usecs: ts, bytes });
            i = i + 1;
        }
        Ok(
            LibinputRecordingBackend {
                name,
                bustype: ids[0],
                vid: ids[1],
                pid: ids[2],
                rdesc,
                events,
            },
        )
    }

    pub fn name(&self) -> (r: &Vec<u8>)
        ensures
            r@ == self.name@,
    {
        &self.name
    }

    pub fn bustype(&self) -> (r: u32)
        ensures
            r == self.bustype,
    {
        self.bustype
    }

    pub fn vid(&self) -> (r: u32)
        ensures
            r == self.vid,
    {
        self.vid
    }

    pub fn pid(&self) -> (r: u32)
        ensures
            r == self.pid,
    {
        self.pid
    }

    pub fn rdesc(&self) -> (r: &Vec<u8>)
        ensures
            r@ == self.rdesc@,
    {
        &self.rdesc
    }

    pub fn events(&self) -> (r: &Vec<HidEvent>)
        ensures
            r@ == self.events@,
    {
        &self.events
    }

    pub fn event_nodes(&self) -> (r: &[EventNode])
        ensures
            r@.len() == 0,
    {
        &[]
    }
}


// ------------------------------------------------------------------
// The own-format recording backend.
// ------------------------------------------------------------------

/// A device replayed from a recording in this tool's own text format, read
/// leniently: unknown lines are skipped.
#[derive(Clone, Debug, PartialEq, Eq)]
pub struct HidRecorderBackend {
    pub name: Vec<u8>,
    pub bustype: u16,
    pub vid: u16,
    pub pid: u16,
    pub rdesc: Vec<u8>,
    pub events: Vec<HidEvent>,
}

impl HidRecorderBackend {
    /// Reads the backend from the recording text.
    pub fn parse(text: &[u8]) -> (r: Result<HidRecorderBackend, RecordingError>)
        ensures
            r is Ok <==> spec_parse_recording(text@, false) is Ok,
            r matches Ok(b) ==> {
                let m = spec_parse_recording(text@, false)->Ok_0;
                &&& b.name@ == m.device_name
                &&& b.bustype == m.bustype && b.vid == m.vendor && b.pid == m.product
                &&& b.rdesc@ == m.rdesc
                &&& b.events@.map_values(|e: HidEvent| e.view()) == m.events
            },
            r matches Err(e) ==> spec_parse_recording(text@, false) == Err::<
                crate::recording::RecordingModel,
                RecordingError,
            >(e),
    {
        match crate::recording::parse_recording(text, false) {
            Err(e) => Err(e),
            Ok(rec) => {
                let Recording { device_name, bustype, vendor, product, rdesc, events } = rec;
                Ok(
                    HidRecorderBackend {
                        name: device_name,
                        bustype,
                        vid: vendor,
                        pid: product,
                        rdesc,
                        events,
                    },
                )
            },
        }
    }

    pub fn name(&self) -> (r: &Vec<u8>)
        ensures
            r@ == self.name@,
    {
        &self.name
    }

    pub fn bustype(&self) -> (r: u32)
        ensures
            r == self.bustype,
    {
        self.bustype as u32
    }

    pub fn vid(&self) -> (r: u32)
        ensures
            r == self.vid,
    {
        self.vid as u32
    }

    pub fn pid(&self) -> (r: u32)
        ensures
            r == self.pid,
    {
        self.pid as u32
    }

    pub fn rdesc(&self) -> (r: &Vec<u8>)
        ensures
            r@ == self.rdesc@,
    {
        &self.rdesc
    }

    pub fn events(&self) -> (r: &Vec<HidEvent>)
        ensures
            r@ == self.events@,
    {
        &self.events
    }

    pub fn event_nodes(&self) -> (r: &[EventNode])
        ensures
            r@.len() == 0,
    {
        &[]
    }
}

} // verus!
