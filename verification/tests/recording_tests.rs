use hid_recorder::backends::BackendError;
use hid_recorder::backends::HidRecorderBackend;
use hid_recorder::backends::HidrawBackend;
use hid_recorder::backends::LibinputRecordingBackend;
use hid_recorder::backends::parse_devname;
use hid_recorder::backends::parse_uevent;
use hid_recorder::reassembly::Packet;
use hid_recorder::reassembly::PacketError;
use hid_recorder::reassembly::Reassembler;
use hid_recorder::reassembly::Timestamper;
use hid_recorder::reassembly::parse_packet;
use hid_recorder::recording::HidEvent;
use hid_recorder::recording::Recording;
use hid_recorder::recording::RecordingError;
use hid_recorder::recording::parse_recording;
use hid_recorder::recording::write_recording;
use hid_recorder::replay::compute_wait;
use hid_recorder::replay::known_bus;
use hid_recorder::replay::replay_offset;
use hid_recorder::replay::replay_target;
use hid_recorder::replay::window_events;

fn sample_recording() -> Recording {
    Recording {
        device_name: b"Test Device".to_vec(),
        bustype: 0x3,
        vendor: 0x4B4,
        product: 0x1F,
        rdesc: vec![0x01, 0x02, 0x03],
        events: vec![
            HidEvent { timestamp_usecs: 0, bytes: vec![0x01, 0x02] },
            HidEvent { timestamp_usecs: 2_000_000, bytes: vec![0x03, 0x04] },
        ],
    }
}

#[test]
fn writer_produces_canonical_text() {
    let text = write_recording(&sample_recording());
    let expected = "N: Test Device\n\
                    I: 3 4b4 1f\n\
                    R: 3 01 02 03\n\
                    E: 000000.000000 2 01 02\n\
                    E: 000002.000000 2 03 04\n";
    assert_eq!(text, expected.as_bytes());
}

// Round trip: parsing what the writer wrote gives an equal recording back.
#[test]
fn recording_round_trips() {
    let rec = sample_recording();
    let text = write_recording(&rec);
    let parsed = parse_recording(&text, true).unwrap();
    assert_eq!(parsed, rec);
}

#[test]
fn parse_accepts_comments_and_uppercase_hex() {
    let text = "# a comment line\n\
                N: Dev\n\
                I: 3 46D C52B\n\
                R: 2 AB cd\n\
                E: 1.000005 1 FF\n";
    let rec = parse_recording(text.as_bytes(), true).unwrap();
    assert_eq!(rec.device_name, b"Dev".to_vec());
    assert_eq!(rec.bustype, 3);
    assert_eq!(rec.vendor, 0x46D);
    assert_eq!(rec.product, 0xC52B);
    assert_eq!(rec.rdesc, vec![0xAB, 0xCD]);
    assert_eq!(rec.events.len(), 1);
    assert_eq!(rec.events[0].timestamp_usecs, 1_000_005);
    assert_eq!(rec.events[0].bytes, vec![0xFF]);
}

#[test]
fn strict_parse_rejects_unknown_lines() {
    let text = "N: Dev\nI: 3 1 2\nR: 1 aa\nB: 0.000001 1 bb\n";
    assert_eq!(
        parse_recording(text.as_bytes(), true).unwrap_err(),
        RecordingError::UnknownLine
    );
}

#[test]
fn lenient_parse_skips_unknown_lines() {
    let text = "N: Dev\nI: 3 1 2\nR: 1 aa\nB: 0.000001 1 bb\nE: 0.000001 1 cc\n";
    let backend = HidRecorderBackend::parse(text.as_bytes()).unwrap();
    assert_eq!(backend.name().as_slice(), b"Dev");
    assert_eq!(backend.bustype(), 3);
    assert_eq!(backend.vid(), 1);
    assert_eq!(backend.pid(), 2);
    assert_eq!(backend.rdesc().as_slice(), &[0xAA]);
    assert_eq!(backend.events().len(), 1);
    assert_eq!(backend.events()[0].bytes, vec![0xCC]);
}

#[test]
fn parse_rejects_length_mismatch() {
    let text = "N: Dev\nI: 3 1 2\nR: 2 aa\n";
    assert_eq!(
        parse_recording(text.as_bytes(), true).unwrap_err(),
        RecordingError::LengthMismatch
    );
}

#[test]
fn parse_rejects_bad_hex() {
    let text = "N: Dev\nI: 3 1 2\nR: 1 g0\n";
    assert_eq!(
        parse_recording(text.as_bytes(), true).unwrap_err(),
        RecordingError::BadHex
    );
}

#[test]
fn parse_rejects_bad_timestamp() {
    let text = "N: Dev\nI: 3 1 2\nR: 1 aa\nE: zero.000001 1 bb\n";
    assert_eq!(
        parse_recording(text.as_bytes(), true).unwrap_err(),
        RecordingError::BadTimestamp
    );
}

#[test]
fn parse_rejects_bad_ids() {
    let text = "N: Dev\nI: 3 1\nR: 1 aa\n";
    assert_eq!(
        parse_recording(text.as_bytes(), true).unwrap_err(),
        RecordingError::BadIds
    );
}

#[test]
fn parse_requires_name_ids_descriptor() {
    assert_eq!(
        parse_recording(b"I: 3 1 2\nR: 1 aa\n", true).unwrap_err(),
        RecordingError::MissingName
    );
    assert_eq!(
        parse_recording(b"N: Dev\nR: 1 aa\n", true).unwrap_err(),
        RecordingError::MissingIds
    );
    assert_eq!(
        parse_recording(b"N: Dev\nI: 3 1 2\n", true).unwrap_err(),
        RecordingError::MissingDescriptor
    );
}

#[test]
fn last_name_line_wins() {
    let text = "N: First\nN: Second\nI: 3 1 2\nR: 1 aa\n";
    let rec = parse_recording(text.as_bytes(), true).unwrap();
    assert_eq!(rec.device_name, b"Second".to_vec());
}

// Packet reassembly: three packets of one 130-byte event; the reassembled
// buffer equals the concatenation of the first 64, the next 64 and the
// final 2 payload bytes.
#[test]
fn three_packet_event_reassembles() {
    let mut expected: Vec<u8> = Vec::new();
    let mut reasm = Reassembler::new();

    let mut payload0 = vec![0u8; 64];
    for (i, b) in payload0.iter_mut().enumerate() {
        *b = i as u8;
    }
    expected.extend_from_slice(&payload0);
    let p0 = Packet { packet_count: 3, packet_number: 0, length: 130, payload: payload0 };
    assert_eq!(reasm.push_packet(&p0), None);

    let mut payload1 = vec![0u8; 64];
    for (i, b) in payload1.iter_mut().enumerate() {
        *b = (64 + i) as u8;
    }
    expected.extend_from_slice(&payload1);
    let p1 = Packet { packet_count: 3, packet_number: 1, length: 130, payload: payload1 };
    assert_eq!(reasm.push_packet(&p1), None);

    let mut payload2 = vec![0xEEu8; 64];
    payload2[0] = 128;
    payload2[1] = 129;
    expected.push(128);
    expected.push(129);
    let p2 = Packet { packet_count: 3, packet_number: 2, length: 130, payload: payload2 };
    let done = reasm.push_packet(&p2).unwrap();
    assert_eq!(done.len(), 130);
    assert_eq!(done, expected);
}

#[test]
fn new_first_packet_discards_partial_assembly() {
    let mut reasm = Reassembler::new();
    let p0 = Packet { packet_count: 2, packet_number: 0, length: 70, payload: vec![1u8; 64] };
    assert_eq!(reasm.push_packet(&p0), None);
    // the final packet of the first event never arrives; a fresh first
    // packet of a one-packet event wins
    let p = Packet { packet_count: 1, packet_number: 0, length: 3, payload: vec![7u8; 64] };
    let done = reasm.push_packet(&p).unwrap();
    assert_eq!(done, vec![7, 7, 7]);
}

#[test]
fn zero_length_and_stray_packets_are_dropped() {
    let mut reasm = Reassembler::new();
    let zero = Packet { packet_count: 1, packet_number: 0, length: 0, payload: vec![0u8; 64] };
    assert_eq!(reasm.push_packet(&zero), None);
    // a continuation packet while idle is dropped
    let stray = Packet { packet_count: 3, packet_number: 1, length: 130, payload: vec![0u8; 64] };
    assert_eq!(reasm.push_packet(&stray), None);
    // a packet number outside its count is dropped
    let bad = Packet { packet_count: 2, packet_number: 2, length: 70, payload: vec![0u8; 64] };
    assert_eq!(reasm.push_packet(&bad), None);
}

#[test]
fn packet_layout_decodes() {
    let mut raw = vec![3u8, 1, 130];
    raw.extend_from_slice(&[0xABu8; 64]);
    let p = parse_packet(&raw).unwrap();
    assert_eq!(p.packet_count, 3);
    assert_eq!(p.packet_number, 1);
    assert_eq!(p.length, 130);
    assert_eq!(p.payload, vec![0xAB; 64]);
    assert_eq!(parse_packet(&raw[..66]).unwrap_err(), PacketError::WrongSize);
}

#[test]
fn timestamps_share_one_clock() {
    let mut clock = Timestamper::new();
    assert_eq!(clock.observe(5_000), 0);
    assert_eq!(clock.observe(5_400), 400);
    assert_eq!(clock.observe(9_000), 4_000);
    // a clock that stepped backwards clamps to zero
    assert_eq!(clock.observe(4_000), 0);
}

// Replay timing: with events at 0 and 2_000_000 microseconds the second
// write waits until at least 2 seconds after loop start, however late the
// loop already is.
#[test]
fn replay_paces_second_event_two_seconds_after_start() {
    let rec = sample_recording();
    let offset = replay_offset(0, 0, rec.events[0].timestamp_usecs);
    assert_eq!(offset, 0);
    let target1 = replay_target(rec.events[0].timestamp_usecs, offset);
    let target2 = replay_target(rec.events[1].timestamp_usecs, offset);
    assert_eq!(target1, 0);
    assert_eq!(target2, 2_000_000);
    // whatever time already passed, after the computed wait at least the
    // target has elapsed since loop start
    for elapsed in [0u64, 1, 500_000, 1_999_999, 2_000_000, 9_999_999] {
        let wait = compute_wait(target2, elapsed);
        assert!(elapsed + wait >= 2_000_000);
        if elapsed < 2_000_000 {
            assert_eq!(wait, 2_000_000 - elapsed);
        } else {
            assert_eq!(wait, 0);
        }
    }
}

#[test]
fn window_selects_requested_span() {
    let events = vec![
        HidEvent { timestamp_usecs: 0, bytes: vec![0] },
        HidEvent { timestamp_usecs: 1_000_000, bytes: vec![1] },
        HidEvent { timestamp_usecs: 2_000_000, bytes: vec![2] },
        HidEvent { timestamp_usecs: 3_000_000, bytes: vec![3] },
    ];
    let windowed = window_events(events.clone(), 1000, 3000);
    assert_eq!(windowed.len(), 2);
    assert_eq!(windowed[0].bytes, vec![1]);
    assert_eq!(windowed[1].bytes, vec![2]);
    // no offsets: everything stays
    let all = window_events(events.clone(), 0, 0);
    assert_eq!(all.len(), 4);
    // a zero stop offset means no stop
    let tail = window_events(events, 2000, 0);
    assert_eq!(tail.len(), 2);
    assert_eq!(tail[0].bytes, vec![2]);
}

#[test]
fn known_bus_covers_both_ranges() {
    assert!(known_bus(3)); // USB
    assert!(known_bus(1));
    assert!(known_bus(6));
    assert!(known_bus(16));
    assert!(known_bus(31));
    assert!(!known_bus(0));
    assert!(!known_bus(7));
    assert!(!known_bus(15));
    assert!(!known_bus(32));
}

#[test]
fn uevent_identity_parses() {
    let text = b"DRIVER=hid-generic\nHID_NAME=foo bar\nHID_ID=0003:0000046D:0000C52B\n";
    let (name, (bustype, vid, pid)) = parse_uevent(text).unwrap();
    assert_eq!(name, b"foo bar".to_vec());
    assert_eq!(bustype, 3);
    assert_eq!(vid, 0x46D);
    assert_eq!(pid, 0xC52B);
}

#[test]
fn uevent_without_name_fails() {
    assert!(parse_uevent(b"HID_ID=0003:1:2\n").is_err());
    assert!(parse_uevent(b"HID_NAME=x\n").is_err());
    assert!(parse_uevent(b"HID_NAME=x\nHID_ID=0003:1\n").is_err());
}

#[test]
fn devname_parses() {
    let text = b"MAJOR=241\nMINOR=3\nDEVNAME=hidraw3\n";
    assert_eq!(parse_devname(text), Some(b"hidraw3".to_vec()));
    assert_eq!(parse_devname(b"MAJOR=241\n"), None);
}

#[test]
fn hidraw_backend_rejects_empty_descriptor() {
    let r = HidrawBackend::assemble(
        b"Dev".to_vec(),
        3,
        1,
        2,
        Vec::new(),
        None,
        Vec::new(),
    );
    assert_eq!(r.unwrap_err(), BackendError::EmptyDescriptor);
}

#[test]
fn libinput_backend_combines_timestamps() {
    let backend = LibinputRecordingBackend::assemble(
        b"Mouse".to_vec(),
        vec![3, 0x46D, 0xC52B],
        vec![0x05, 0x01],
        vec![(1, 500, vec![0xAA]), (2, 0, vec![0xBB])],
    )
    .unwrap();
    assert_eq!(backend.name().as_slice(), b"Mouse");
    assert_eq!(backend.bustype(), 3);
    assert_eq!(backend.vid(), 0x46D);
    assert_eq!(backend.pid(), 0xC52B);
    assert_eq!(backend.events().len(), 2);
    assert_eq!(backend.events()[0].timestamp_usecs, 1_000_500);
    assert_eq!(backend.events()[1].timestamp_usecs, 2_000_000);
}

#[test]
fn libinput_backend_needs_three_ids() {
    let r = LibinputRecordingBackend::assemble(
        b"Mouse".to_vec(),
        vec![3, 2],
        vec![0x05],
        Vec::new(),
    );
    assert_eq!(r.unwrap_err(), BackendError::MissingIds);
}
