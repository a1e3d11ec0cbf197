//! Reassembly of multi-packet events from the kernel-tracing event source,
//! and the shared capture clock.
//!
//! The tracing ring buffer hands over fixed-layout packets of one byte each
//! for the packet count, the packet number and the total event length,
//! followed by a 64-byte payload. An event of `length` bytes arrives as
//! `packet_count` packets; every packet but the last carries 64 payload
//! bytes, the last carries the remainder. A new first packet always starts a
//! fresh assembly, so a dropped final packet cannot poison the next event.

use vstd::prelude::*;

verus! {

/// The fixed payload size of one tracing packet.
pub const PACKET_SIZE: usize = 64;

/// The fixed on-wire size of one tracing packet: three header bytes and the
/// payload.
pub const PACKET_WIRE_SIZE: usize = 67;

#[derive(Clone, Copy, Debug, PartialEq, Eq, Structural)]
pub enum PacketError {
    /// The raw bytes do not have the fixed on-wire packet size.
    WrongSize,
}

/// One decoded tracing packet.
#[derive(Clone, Debug, PartialEq, Eq)]
pub struct Packet {
    pub packet_count: u8,
    pub packet_number: u8,
    pub length: u8,
    pub payload: Vec<u8>,
}

/// Decodes one raw ring-buffer record by its fixed layout: byte 0 is the
/// packet count, byte 1 the packet number, byte 2 the total event length,
/// bytes 3..67 the payload. Anything but exactly 67 bytes is a hard decode
/// error.
pub fn parse_packet(data: &[u8]) -> (r: Result<Packet, PacketError>)
    ensures
        r is Ok <==> data@.len() == PACKET_WIRE_SIZE,
        r matches Ok(p) ==> {
            &&& p.packet_count == data@[0]
            &&& p.packet_number == data@[1]
            &&& p.length == data@[2]
            &&& p.payload@ == data@.subrange(3, PACKET_WIRE_SIZE as int)
        },
{
    if data.len() != PACKET_WIRE_SIZE {
        return Err(PacketError::WrongSize);
    }
    let mut payload: Vec<u8> = Vec::new();
    let mut i: usize = 3;
    while i < PACKET_WIRE_SIZE
        invariant
            3 <= i <= PACKET_WIRE_SIZE,
            data@.len() == PACKET_WIRE_SIZE,
            payload@ == data@.subrange(3, i as int),
        decreases PACKET_WIRE_SIZE - i,
    {
        let c = data[i];
        payload.push(c);
        proof {
            assert(payload@ =~= data@.subrange(3, i + 1));
        }
        i = i + 1;
    }
    Ok(Packet { packet_count: data[0], packet_number: data[1], length: data[2], payload })
}

/// The reassembly state: idle, or assembling with the bytes gathered so far.
pub struct Reassembler {
    pub assembling: bool,
    pub buffer: Vec<u8>,
}

/// What one packet does to the reassembly state.
#[verifier::ext_equal]
pub ghost struct ReassemblyOutcome {
    pub assembling: bool,
    pub buffer: Seq<u8>,
    pub emitted: Option<Seq<u8>>,
}

/// The payload bytes one packet contributes: a full 64 bytes, or for the
/// final packet of an event the remainder of the declared length.
pub open spec fn spec_packet_take(count: u8, number: u8, length: u8) -> int {
    if number == count - 1 {
        length - 64 * (number as int)
    } else {
        64
    }
}

/// Whether a packet is consistent with its own header: it belongs to a
/// non-empty event, its number is within the count, and the final packet's
/// remainder fits its payload.
pub open spec fn spec_packet_consistent(count: u8, number: u8, length: u8) -> bool {
    &&& count >= 1
    &&& number < count
    &&& 0 <= spec_packet_take(count, number, length) <= 64
}

/// One step of the reassembly state machine:
/// - a zero-length or inconsistent packet is dropped, the state unchanged;
/// - packet number 0 starts a fresh assembly, discarding any partial one;
/// - a continuation packet while idle is dropped;
/// - each accepted packet appends its contribution, and the final packet of
///   an event emits the assembled buffer and returns the state to idle.
pub open spec fn spec_reassembly_step(
    assembling: bool,
    buffer: Seq<u8>,
    count: u8,
    number: u8,
    length: u8,
    payload: Seq<u8>,
) -> ReassemblyOutcome {
    if length == 0 || !spec_packet_consistent(count, number, length) {
        ReassemblyOutcome { assembling, buffer, emitted: None }
    } else if number != 0 && !assembling {
        ReassemblyOutcome { assembling, buffer, emitted: None }
    } else {
        let base = if number == 0 {
            Seq::<u8>::empty()
        } else {
            buffer
        };
        let grown = base + payload.take(spec_packet_take(count, number, length));
        if number == count - 1 {
            ReassemblyOutcome { assembling: false, buffer: Seq::empty(), emitted: Some(grown) }
        } else {
            ReassemblyOutcome { assembling: true, buffer: grown, emitted: None }
        }
    }
}

impl Reassembler {
    pub fn new() -> (r: Reassembler)
        ensures
            !r.assembling,
            r.buffer@ == Seq::<u8>::empty(),
    {
        let r = Reassembler { assembling: false, buffer: Vec::new() };
        proof {
            assert(r.buffer@ =~= Seq::<u8>::empty());
        }
        r
    }

    /// Feeds one packet to the state machine; returns the completed event
    /// buffer when this packet finished one.
    pub fn push_packet(&mut self, p: &Packet) -> (r: Option<Vec<u8>>)
        requires
            p.payload@.len() == 64,
        ensures
            ({
                let outcome = spec_reassembly_step(
                    old(self).assembling,
                    old(self).buffer@,
                    p.packet_count,
                    p.packet_number,
                    p.length,
                    p.payload@,
                );
                &&& final(self).assembling == outcome.assembling
                &&& final(self).buffer@ == outcome.buffer
                &&& (match r {
                    Some(v) => outcome.emitted == Some(v@),
                    None => outcome.emitted is None,
                })
            }),
    {
        if p.length == 0 {
            return None;
        }
        if p.packet_count < 1 || p.packet_number >= p.packet_count {
            return None;
        }
        let is_last = p.packet_number == p.packet_count - 1;
        let take: usize = if is_last {
            let base = (p.packet_number as usize) * 64;
            if (p.length as usize) < base || (p.length as usize) - base > 64 {
                return None;
            }
            (p.length as usize) - base
        } else {
            64
        };
        if p.packet_number == 0 {
            self.buffer = Vec::new();
            proof {
                assert(self.buffer@ =~= Seq::<u8>::empty());
            }
        } else if !self.assembling {
            return None;
        }
        let ghost base_buf = self.buffer@;
        let mut i: usize = 0;
        while i < take
            invariant
                i <= take,
                take <= 64,
                p.payload@.len() == 64,
                self.buffer@ == base_buf + p.payload@.take(i as int),
                self.assembling == old(self).assembling || p.packet_number == 0,
                self.assembling == old(self).assembling,
            decreases take - i,
        {
            let c = p.payload[i];
            self.buffer.push(c);
            proof {
                assert(self.buffer@ =~= base_buf + p.payload@.take(i + 1));
            }
            i = i + 1;
        }
        if is_last {
            let mut done = Vec::new();
            core::mem::swap(&mut done, &mut self.buffer);
            self.assembling = false;
            proof {
                assert(self.buffer@ =~= Seq::<u8>::empty());
            }
            Some(done)
        } else {
            self.assembling = true;
            None
        }
    }
}

/// The shared capture clock: every event's timestamp is the time elapsed
/// since the first event seen on any source, so that both sources report on
/// one clock.
pub struct Timestamper {
    pub start_usecs: Option<u64>,
}

impl Timestamper {
    pub fn new() -> (r: Timestamper)
        ensures
            r.start_usecs is None,
    {
        Timestamper { start_usecs: None }
    }

    /// Observes an event at the given monotonic time and returns its
    /// timestamp relative to the first observed event: the first event sets
    /// the capture start and gets timestamp 0. A clock that stepped
    /// backwards is clamped to 0.
    pub fn observe(&mut self, now_usecs: u64) -> (r: u64)
        ensures
            old(self).start_usecs is None ==> final(self).start_usecs == Some(now_usecs) && r
                == 0,
            old(self).start_usecs matches Some(s) ==> final(self).start_usecs == Some(s) && r
                == (if now_usecs >= s {
                now_usecs - s
            } else {
                0
            }),
    {
        match self.start_usecs {
            None => {
                self.start_usecs = Some(now_usecs);
                0
            },
            Some(s) => {
                if now_usecs >= s {
                    now_usecs - s
                } else {
                    0
                }
            },
        }
    }
}

} // verus!
