use hid_recorder::codec::CodecError;
use hid_recorder::codec::extract_array;
use hid_recorder::codec::extract_long;
use hid_recorder::codec::extract_variable;
use hid_recorder::codec::pack_variable;
use hid_recorder::descriptor::CollectionType;
use hid_recorder::descriptor::Field;
use hid_recorder::descriptor::decode;
use hid_recorder::descriptor::deepest_logical_collection;
use hid_recorder::items::FormatError;
use hid_recorder::items::parse_items;

// A minimal 8-bit modifier-key input report: one Input report, id-less,
// eight one-bit variable fields on usage page 0x0007, ids 0xE0..0xE7,
// logical range 0..1.
const KEYBOARD_MODIFIERS: [u8; 23] = [
    0x05, 0x01, 0x09, 0x06, 0xA1, 0x01, 0x05, 0x07, 0x19, 0xE0, 0x29, 0xE7, 0x15, 0x00, 0x25,
    0x01, 0x75, 0x01, 0x95, 0x08, 0x81, 0x02, 0xC0,
];

#[test]
fn keyboard_modifier_descriptor_end_to_end() {
    let rd = decode(&KEYBOARD_MODIFIERS).unwrap();
    assert_eq!(rd.input_reports.len(), 1);
    assert_eq!(rd.output_reports.len(), 0);
    assert_eq!(rd.feature_reports.len(), 0);
    let report = &rd.input_reports[0];
    assert_eq!(report.report_id, None);
    assert_eq!(report.size_in_bits, 8);
    assert_eq!(report.size_in_bytes(), 1);
    assert_eq!(report.fields.len(), 8);
    for (i, field) in report.fields.iter().enumerate() {
        match field {
            Field::Variable(v) => {
                assert_eq!(v.usage >> 16, 0x0007);
                assert_eq!(v.usage & 0xFFFF, 0xE0 + i as u32);
                assert_eq!(v.bits.start, i as u64);
                assert_eq!(v.bits.end, i as u64 + 1);
                assert_eq!(v.logical_minimum, 0);
                assert_eq!(v.logical_maximum, 1);
                assert!(!v.is_signed());
            }
            _ => panic!("expected a variable field"),
        }
    }
    // one application collection was opened and closed
    assert_eq!(rd.collections.len(), 1);
    assert_eq!(rd.collections[0].collection_type, CollectionType::Application);
    assert_eq!(rd.collections[0].parent, None);
}

#[test]
fn item_parser_splits_descriptor() {
    let items = parse_items(&KEYBOARD_MODIFIERS).unwrap();
    assert_eq!(items.len(), 12);
    assert_eq!(items[0].header, 0x05);
    assert_eq!(items[0].data, 0x01);
    assert_eq!(items[0].nbytes, 1);
    assert_eq!(items[0].offset, 0);
    assert_eq!(items[11].header, 0xC0);
    assert_eq!(items[11].offset, 22);
}

#[test]
fn item_parser_reads_little_endian_data() {
    // Logical Maximum with 2 data bytes: 0x26 0x34 0x12 reads 0x1234
    let items = parse_items(&[0x26, 0x34, 0x12]).unwrap();
    assert_eq!(items.len(), 1);
    assert_eq!(items[0].data, 0x1234);
    assert_eq!(items[0].nbytes, 2);
}

#[test]
fn truncated_item_fails() {
    // Usage Page declares one data byte but none remains
    assert_eq!(decode(&[0x05]).unwrap_err(), FormatError::TruncatedItem);
}

#[test]
fn empty_descriptor_fails() {
    assert_eq!(decode(&[]).unwrap_err(), FormatError::EmptyDescriptor);
}

#[test]
fn unbalanced_end_collection_fails() {
    // a lone EndCollection has no matching open Collection
    assert_eq!(decode(&[0xC0]).unwrap_err(), FormatError::UnbalancedCollection);
}

#[test]
fn pop_with_empty_stack_fails() {
    // a lone Pop has no saved global state to restore
    assert_eq!(decode(&[0xB4]).unwrap_err(), FormatError::StackUnderflow);
}

#[test]
fn balanced_push_pop_and_collections_succeed() {
    // Push/Pop and Collection/EndCollection pairs balance: decode succeeds
    let bytes = [
        0x05, 0x01, // Usage Page (Generic Desktop)
        0x09, 0x06, // Usage
        0xA1, 0x01, // Collection (Application)
        0xA4, // Push
        0x05, 0x07, // Usage Page
        0xB4, // Pop
        0xC0, // End Collection
    ];
    let rd = decode(&bytes).unwrap();
    assert_eq!(rd.collections.len(), 1);
}

#[test]
fn missing_usage_fails() {
    // a variable Input item with no pending usages
    let bytes = [
        0x05, 0x01, 0x15, 0x00, 0x25, 0x01, 0x75, 0x01, 0x95, 0x08, 0x81, 0x02,
    ];
    assert_eq!(decode(&bytes).unwrap_err(), FormatError::MissingUsage);
}

#[test]
fn usage_minimum_without_maximum_fails() {
    let bytes = [
        0x05, 0x01, 0x19, 0xE0, 0x15, 0x00, 0x25, 0x01, 0x75, 0x01, 0x95, 0x08, 0x81, 0x02,
    ];
    assert_eq!(decode(&bytes).unwrap_err(), FormatError::MissingUsageMaximum);
}

#[test]
fn zero_report_size_yields_no_fields() {
    // report size 0: the Main item is accepted and emits nothing
    let bytes = [
        0x05, 0x01, 0x09, 0x06, 0x75, 0x00, 0x95, 0x08, 0x81, 0x02,
    ];
    let rd = decode(&bytes).unwrap();
    assert_eq!(rd.input_reports.len(), 0);
}

// A 3-bit unsigned field at bit offset 0 and a 5-bit padding field at
// offset 3; extracting from 0b00000101 yields 5.
#[test]
fn three_bit_field_extracts_five() {
    let bytes = [
        0x05, 0x01, // Usage Page
        0x09, 0x01, // Usage
        0x15, 0x00, // Logical Minimum 0
        0x25, 0x07, // Logical Maximum 7
        0x75, 0x03, // Report Size 3
        0x95, 0x01, // Report Count 1
        0x81, 0x02, // Input (Data, Var, Abs)
        0x75, 0x05, // Report Size 5
        0x81, 0x01, // Input (Const): padding
    ];
    let rd = decode(&bytes).unwrap();
    let report = &rd.input_reports[0];
    assert_eq!(report.size_in_bits, 8);
    assert_eq!(report.fields.len(), 2);
    let field = match &report.fields[0] {
        Field::Variable(v) => v,
        _ => panic!("expected a variable field"),
    };
    assert_eq!(field.bits.start, 0);
    assert_eq!(field.bits.end, 3);
    let padding = report.fields[1].bits();
    assert_eq!(padding.start, 3);
    assert_eq!(padding.end, 8);
    let buf = [0b0000_0101u8];
    let value = extract_variable(field, &buf).unwrap();
    assert_eq!(value.as_u32(), 5);
    assert!(!value.signed);
}

#[test]
fn report_id_shifts_field_offsets() {
    let bytes = [
        0x05, 0x01, 0x09, 0x01, 0x85, 0x07, // Report ID 7
        0x15, 0x00, 0x25, 0x07, 0x75, 0x08, 0x95, 0x01, 0x81, 0x02,
    ];
    let rd = decode(&bytes).unwrap();
    let report = &rd.input_reports[0];
    assert_eq!(report.report_id, Some(7));
    // the id prefix byte occupies the first 8 bits
    assert_eq!(report.size_in_bits, 16);
    assert_eq!(report.fields[0].bits().start, 8);
    assert_eq!(report.fields[0].bits().end, 16);
}

#[test]
fn find_input_report_by_id() {
    let bytes = [
        0x05, 0x01, 0x09, 0x01, 0x85, 0x07, // Report ID 7
        0x15, 0x00, 0x25, 0x07, 0x75, 0x08, 0x95, 0x01, 0x81, 0x02,
        0x85, 0x09, // Report ID 9
        0x09, 0x02, // Usage
        0x75, 0x08, 0x95, 0x02, 0x81, 0x02,
    ];
    let rd = decode(&bytes).unwrap();
    assert_eq!(rd.input_reports.len(), 2);
    let report = rd.find_input_report(&[0x09, 0x00, 0x00]).unwrap();
    assert_eq!(report.report_id, Some(9));
    assert_eq!(report.size_in_bits, 24);
    assert!(rd.find_input_report(&[0x08]).is_none());
    assert!(rd.find_input_report(&[]).is_none());
}

#[test]
fn find_input_report_without_ids() {
    let rd = decode(&KEYBOARD_MODIFIERS).unwrap();
    let report = rd.find_input_report(&[0xFF]).unwrap();
    assert_eq!(report.report_id, None);
}

#[test]
fn signed_field_sign_extends() {
    // an 8-bit field with logical range -127..127 holds signed values
    let bytes = [
        0x05, 0x01, 0x09, 0x30, 0x15, 0x81, // Logical Minimum -127
        0x25, 0x7F, // Logical Maximum 127
        0x75, 0x08, 0x95, 0x01, 0x81, 0x02,
    ];
    let rd = decode(&bytes).unwrap();
    let field = match &rd.input_reports[0].fields[0] {
        Field::Variable(v) => v,
        _ => panic!("expected a variable field"),
    };
    assert_eq!(field.logical_minimum, -127);
    assert!(field.is_signed());
    let value = extract_variable(field, &[0xFE]).unwrap();
    assert!(value.signed);
    assert_eq!(value.as_i32(), -2);
    let positive = extract_variable(field, &[0x05]).unwrap();
    assert_eq!(positive.as_i32(), 5);
}

// Packing an extracted value into a buffer that agrees outside the field's
// bit range reproduces the source buffer exactly.
#[test]
fn pack_extract_round_trip_preserves_foreign_bits() {
    let bytes = [
        0x05, 0x01, 0x09, 0x30, 0x15, 0x00, 0x25, 0x1F, 0x75, 0x05, // 5-bit field
        0x95, 0x01, 0x81, 0x02,
        0x75, 0x0B, 0x81, 0x01, // 11 bits padding
    ];
    let rd = decode(&bytes).unwrap();
    let field = match &rd.input_reports[0].fields[0] {
        Field::Variable(v) => v,
        _ => panic!("expected a variable field"),
    };
    let buf = vec![0b1011_0101u8, 0xC3];
    let value = extract_variable(field, &buf).unwrap();
    assert_eq!(value.as_u32(), 0b1_0101);
    // a scratch buffer equal to the source outside bits 0..5
    let mut scratch = vec![0b1010_1010u8 ^ 0b0001_1111, 0xC3];
    scratch[0] = buf[0] & !0b0001_1111;
    pack_variable(field, value.as_u32(), &mut scratch).unwrap();
    assert_eq!(scratch, buf);
}

#[test]
fn pack_rejects_short_buffer() {
    let bytes = [
        0x05, 0x01, 0x09, 0x30, 0x15, 0x00, 0x25, 0x1F, 0x75, 0x10, 0x95, 0x01, 0x81, 0x02,
    ];
    let rd = decode(&bytes).unwrap();
    let field = match &rd.input_reports[0].fields[0] {
        Field::Variable(v) => v,
        _ => panic!("expected a variable field"),
    };
    let mut buf = vec![0u8];
    assert_eq!(
        pack_variable(field, 1, &mut buf).unwrap_err(),
        CodecError::BufferTooShort
    );
}

#[test]
fn array_field_extracts_slots() {
    // a keyboard-style array: 2 slots of 8 bits, usages 0xE0..0xE7
    let bytes = [
        0x05, 0x07, 0x19, 0xE0, 0x29, 0xE7, 0x15, 0x00, 0x25, 0xE7, 0x75, 0x08, 0x95, 0x02,
        0x81, 0x00, // Input (Data, Array)
    ];
    let rd = decode(&bytes).unwrap();
    let field = match &rd.input_reports[0].fields[0] {
        Field::Array(a) => a,
        _ => panic!("expected an array field"),
    };
    assert_eq!(field.report_count, 2);
    assert!(field.is_usage_range);
    assert_eq!(field.usage_range(), Some((0x0007_00E0, 0x0007_00E7)));
    let values = extract_array(field, &[0xE1, 0xE4]).unwrap();
    assert_eq!(values, vec![0xE1, 0xE4]);
    // in-range values resolve to usages on the range's page
    assert_eq!(
        hid_recorder::codec::array_slot_usage(field, 0xE1),
        Some(0x0007_00E1)
    );
    // out-of-range values resolve to nothing and the slot is ignored
    assert_eq!(hid_recorder::codec::array_slot_usage(field, 0x05), None);
}

#[test]
fn extract_long_reads_byte_span() {
    let buf = [0x10, 0x20, 0x30, 0x40, 0x50];
    let bytes = extract_long(8, 40, &buf).unwrap();
    assert_eq!(bytes, vec![0x20, 0x30, 0x40, 0x50]);
    assert!(extract_long(8, 48, &buf).is_none());
}

#[test]
fn deepest_logical_collection_groups_fields() {
    let bytes = [
        0x05, 0x01, 0x09, 0x02, 0xA1, 0x01, // Collection (Application)
        0xA1, 0x02, // Collection (Logical)
        0x09, 0x30, 0x15, 0x00, 0x25, 0x01, 0x75, 0x08, 0x95, 0x01, 0x81, 0x02,
        0xC0, 0xC0,
    ];
    let rd = decode(&bytes).unwrap();
    assert_eq!(rd.collections.len(), 2);
    assert_eq!(rd.collections[1].collection_type, CollectionType::Logical);
    assert_eq!(rd.collections[1].parent, Some(0));
    let field = &rd.input_reports[0].fields[0];
    assert_eq!(field.collections(), &[0, 1]);
    assert_eq!(deepest_logical_collection(field, &rd.collections), Some(1));

    let flat = decode(&KEYBOARD_MODIFIERS).unwrap();
    let flat_field = &flat.input_reports[0].fields[0];
    assert_eq!(
        deepest_logical_collection(flat_field, &flat.collections),
        None
    );
}

#[test]
fn variable_item_with_fewer_usages_reuses_last() {
    // two explicit usages for three repetitions: the last usage repeats
    let bytes = [
        0x05, 0x01, 0x09, 0x30, 0x09, 0x31, 0x15, 0x00, 0x25, 0x01, 0x75, 0x08, 0x95, 0x03,
        0x81, 0x02,
    ];
    let rd = decode(&bytes).unwrap();
    let fields = &rd.input_reports[0].fields;
    assert_eq!(fields.len(), 3);
    let usages: Vec<u32> = fields
        .iter()
        .map(|f| match f {
            Field::Variable(v) => v.usage,
            _ => panic!("expected variable fields"),
        })
        .collect();
    assert_eq!(usages, vec![0x0001_0030, 0x0001_0031, 0x0001_0031]);
}
