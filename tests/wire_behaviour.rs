use rustwire::{
    create_header, encode_varint, extract_field_by_tag, extract_multiple_fields_by_tag, replace_field_with,
    Variant,
};

#[test]
fn single_field_extraction_of_a_string() {
    let enc = vec![0x0A, 0x02, b'M', b'e'];
    assert_eq!(extract_field_by_tag(&enc, 1), Some(&b"Me"[..]));
}

#[test]
fn skip_then_match_ignores_the_length_of_the_skipped_field() {
    for n in [0usize, 1, 2, 127, 128, 300] {
        let mut enc = vec![0x0A];
        enc.extend_from_slice(&encode_varint(n as u64));
        enc.extend(std::iter::repeat(b'x').take(n));
        enc.extend_from_slice(&[0x10, 0x2A]);
        assert_eq!(extract_field_by_tag(&enc, 2), Some(&[0x2A][..]));
    }
}

#[test]
fn multi_field_results_follow_encounter_order() {
    let enc = vec![0x0A, 0x02, b'M', b'e', 0x10, 0x2A];
    let fields = extract_multiple_fields_by_tag(&enc, &[2, 1]);
    assert_eq!(fields, vec![(1, &b"Me"[..]), (2, &[0x2A][..])]);
}

#[test]
fn repeated_unpacked_fields_give_one_entry_each() {
    let enc = vec![0x10, 0x2A, 0x0A, 0x01, b'a', 0x10, 0x2B, 0x10, 0x2C];
    let fields = extract_multiple_fields_by_tag(&enc, &[2]);
    assert_eq!(fields, vec![(2, &[0x2A][..]), (2, &[0x2B][..]), (2, &[0x2C][..])]);
    assert_eq!(extract_field_by_tag(&enc, 2), Some(&[0x2A][..]));
}

#[test]
fn absent_field_gives_nothing() {
    let enc = vec![0x0A, 0x02, b'M', b'e', 0x10, 0x2A];
    assert_eq!(extract_field_by_tag(&enc, 3), None);
    assert!(extract_multiple_fields_by_tag(&enc, &[3, 4]).is_empty());
    assert!(extract_multiple_fields_by_tag(&enc, &[]).is_empty());
}

#[test]
fn empty_buffer_gives_nothing() {
    assert_eq!(extract_field_by_tag(&[], 1), None);
    assert!(extract_multiple_fields_by_tag(&[], &[1]).is_empty());
    let mut empty: Vec<u8> = Vec::new();
    assert_eq!(replace_field_with(&mut empty, 1, &[0x08, 0x01]), None);
    assert!(empty.is_empty());
}

#[test]
fn unsupported_wire_types_are_malformed() {
    for wire_type in [3u8, 4, 6, 7] {
        let enc = vec![0x08 | wire_type, 0x00, 0x10, 0x2A];
        assert_eq!(extract_field_by_tag(&enc, 1), None);
        assert_eq!(extract_field_by_tag(&enc, 2), None);
        assert!(extract_multiple_fields_by_tag(&enc, &[1, 2]).is_empty());
    }
}

#[test]
fn length_past_the_end_is_malformed() {
    let enc = vec![0x0A, 0x05, b'a', b'b'];
    assert_eq!(extract_field_by_tag(&enc, 1), None);
    let enc = vec![0x0A, 0x05, b'a', b'b', 0x10, 0x2A];
    assert_eq!(extract_field_by_tag(&enc, 2), None);
}

#[test]
fn fixed_width_past_the_end_is_malformed() {
    let enc = vec![0x0D, 0x00, 0x00, 0x00];
    assert_eq!(extract_field_by_tag(&enc, 1), None);
    let enc = vec![0x09, 0x00, 0x00, 0x00, 0x00, 0x10, 0x2A];
    assert_eq!(extract_field_by_tag(&enc, 2), None);
    let enc = vec![0x0D, 0x01, 0x02, 0x03, 0x04, 0x10, 0x2A];
    assert_eq!(extract_field_by_tag(&enc, 1), Some(&[1, 2, 3, 4][..]));
    assert_eq!(extract_field_by_tag(&enc, 2), Some(&[0x2A][..]));
}

#[test]
fn truncated_varint_value_is_malformed() {
    let enc = vec![0x08, 0x96];
    assert_eq!(extract_field_by_tag(&enc, 1), None);
    let enc = vec![0x96];
    assert_eq!(extract_field_by_tag(&enc, 18), None);
}

#[test]
fn multi_extraction_stops_at_a_malformed_frame() {
    let enc = vec![0x08, 0x01, 0x10, 0x02, 0x1B, 0x00, 0x08, 0x03];
    let fields = extract_multiple_fields_by_tag(&enc, &[1, 2]);
    assert_eq!(fields, vec![(1, &[0x01][..]), (2, &[0x02][..])]);
    let enc = vec![0x08, 0x01, 0x12, 0x09, 0x00, 0x08, 0x03];
    let fields = extract_multiple_fields_by_tag(&enc, &[1, 2]);
    assert_eq!(fields, vec![(1, &[0x01][..])]);
}

#[test]
fn multi_byte_tags_are_decoded() {
    // field 16, varint 7; field 300, string "hi"
    let enc = vec![0x80, 0x01, 0x07, 0xE2, 0x12, 0x02, b'h', b'i'];
    assert_eq!(extract_field_by_tag(&enc, 16), Some(&[0x07][..]));
    assert_eq!(extract_field_by_tag(&enc, 300), Some(&b"hi"[..]));
    let fields = extract_multiple_fields_by_tag(&enc, &[300, 16]);
    assert_eq!(fields, vec![(16, &[0x07][..]), (300, &b"hi"[..])]);
}

#[test]
fn large_length_delimited_field() {
    let value: Vec<u8> = (0..300u32).map(|i| (i % 251) as u8).collect();
    let mut enc = vec![0x08, 0x01, 0x12, 0xAC, 0x02];
    enc.extend_from_slice(&value);
    enc.extend_from_slice(&[0x18, 0x05]);
    assert_eq!(extract_field_by_tag(&enc, 2).unwrap(), &value[..]);
    assert_eq!(extract_field_by_tag(&enc, 3), Some(&[0x05][..]));
    let fields = extract_multiple_fields_by_tag(&enc, &[2, 3]);
    assert_eq!(fields.len(), 2);
    assert_eq!(fields[0].1.len(), 300);
    assert_eq!(fields[1], (3, &[0x05][..]));
}

#[test]
fn replacement_changes_only_the_target_frame() {
    // a (1) = 1, b (2) = "xyz", c (3) = 3
    let mut enc = vec![0x08, 0x01, 0x12, 0x03, b'x', b'y', b'z', 0x18, 0x03];
    let old = replace_field_with(&mut enc, 2, &[0x10, 0x96, 0x01]);
    assert_eq!(old, Some(b"xyz".to_vec()));
    assert_eq!(enc, vec![0x08, 0x01, 0x10, 0x96, 0x01, 0x18, 0x03]);
    assert_eq!(extract_field_by_tag(&enc, 1), Some(&[0x01][..]));
    assert_eq!(extract_field_by_tag(&enc, 2), Some(&[0x96, 0x01][..]));
    assert_eq!(extract_field_by_tag(&enc, 3), Some(&[0x03][..]));
}

#[test]
fn replacement_acts_on_the_first_occurrence_only() {
    let mut enc = vec![0x08, 0x01, 0x08, 0x02];
    let old = replace_field_with(&mut enc, 1, &[0x08, 0x07]);
    assert_eq!(old, Some(vec![0x01]));
    assert_eq!(enc, vec![0x08, 0x07, 0x08, 0x02]);
}

#[test]
fn replacement_of_a_long_string_uses_its_whole_frame() {
    let mut enc = vec![0x0A, 0x80, 0x01];
    enc.extend(std::iter::repeat(b'z').take(128));
    enc.extend_from_slice(&[0x10, 0x2A]);
    let old = replace_field_with(&mut enc, 1, &[0x08, 0x05]).unwrap();
    assert_eq!(old.len(), 128);
    assert_eq!(enc, vec![0x08, 0x05, 0x10, 0x2A]);
}

#[test]
fn replacement_when_absent_or_malformed_leaves_the_message() {
    let original = vec![0x08, 0x01, 0x10, 0x02];
    let mut enc = original.clone();
    assert_eq!(replace_field_with(&mut enc, 3, &[0x18, 0x01]), None);
    assert_eq!(enc, original);

    let original = vec![0x08, 0x01, 0x13, 0x00];
    let mut enc = original.clone();
    assert_eq!(replace_field_with(&mut enc, 2, &[0x10, 0x01]), None);
    assert_eq!(enc, original);

    let original = vec![0x08, 0x01, 0x12, 0x05, 0x00];
    let mut enc = original.clone();
    assert_eq!(replace_field_with(&mut enc, 2, &[0x10, 0x01]), None);
    assert_eq!(enc, original);
}

#[test]
fn collapse_then_restore_recovers_the_encoding() {
    // id (1) = 7, inner (2) = { x (1) = "ab", y (2) = 9 }, tail (3) = 1
    let inner = vec![0x0A, 0x02, b'a', b'b', 0x10, 0x09];
    let mut enc = vec![0x08, 0x07];
    enc.extend_from_slice(&create_header(2, 2, &inner));
    enc.extend_from_slice(&inner);
    enc.extend_from_slice(&[0x18, 0x01]);
    let original = enc.clone();

    let y = extract_field_by_tag(&inner, 2).unwrap().to_vec();
    let mut scalar = create_header(2, 0, &y);
    scalar.extend_from_slice(&y);
    let old = replace_field_with(&mut enc, 2, &scalar).unwrap();
    assert_eq!(old, inner);
    assert_eq!(enc, vec![0x08, 0x07, 0x10, 0x09, 0x18, 0x01]);

    let mut frame = create_header(2, Variant::LengthDelimited.into(), &old);
    frame.extend_from_slice(&old);
    replace_field_with(&mut enc, 2, &frame).unwrap();
    assert_eq!(enc, original);
}

#[test]
fn headers_for_each_wire_type() {
    assert_eq!(u64::from(Variant::Varint), 0);
    assert_eq!(u64::from(Variant::SixtyFourBit), 1);
    assert_eq!(u64::from(Variant::LengthDelimited), 2);
    assert_eq!(u64::from(Variant::ThirtyTwoBit), 5);
    assert_eq!(create_header(1, Variant::Varint.into(), b"ignored"), vec![0x08]);
    assert_eq!(create_header(3, Variant::SixtyFourBit.into(), &[0; 8]), vec![0x19]);
    assert_eq!(create_header(4, Variant::ThirtyTwoBit.into(), &[0; 4]), vec![0x25]);
    assert_eq!(create_header(16, 0, &[]), vec![0x80, 0x01]);
    assert_eq!(create_header(1, 2, &[]), vec![0x0A, 0x00]);
    let long = vec![0u8; 300];
    assert_eq!(create_header(2, 2, &long), vec![0x12, 0xAC, 0x02]);
}
