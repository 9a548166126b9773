use rustwire::decoders::{decode_double, decode_float, decode_varint};
use rustwire::encoders::{encode_varint, get_varint_length};

#[test]
fn test_decode_varint() {
    let bytes = [0x96, 0x01];
    let (result, new_offset) = decode_varint(&bytes, 0).unwrap();
    assert_eq!(result, 150);
    assert_eq!(new_offset, 2);
}

#[test]
fn test_decode_float() {
    let bytes = [0x00, 0x00, 0x48, 0x40];
    let new_offset = decode_float(&bytes, 0).unwrap();
    assert_eq!(new_offset, 4);
}

#[test]
fn test_decode_double() {
    let bytes = [0x00, 0x00, 0x00, 0x00, 0x00, 0x00, 0x24, 0x40];
    let new_offset = decode_double(&bytes, 0).unwrap();
    assert_eq!(new_offset, 8);
}

#[test]
fn test_encode_varint() {
    let value = 150;
    let bytes = encode_varint(value);
    assert_eq!(bytes, [0x96, 0x01]);
}

#[test]
fn test_encode_varint_large() {
    let value = 624485;
    let bytes = encode_varint(value);
    assert_eq!(bytes, [0xE5, 0x8E, 0x26]);
}

#[test]
fn encode_varint_zero_is_one_zero_byte() {
    assert_eq!(encode_varint(0), vec![0x00]);
}

#[test]
fn encode_varint_single_byte_boundary() {
    assert_eq!(encode_varint(127), vec![0x7F]);
    assert_eq!(encode_varint(128), vec![0x80, 0x01]);
    assert_eq!(encode_varint(42), vec![0x2A]);
}

#[test]
fn encode_varint_u64_max_takes_ten_bytes() {
    assert_eq!(
        encode_varint(u64::MAX),
        vec![0xFF, 0xFF, 0xFF, 0xFF, 0xFF, 0xFF, 0xFF, 0xFF, 0xFF, 0x01]
    );
}

#[test]
fn decode_varint_u64_max() {
    let bytes = [0xFF, 0xFF, 0xFF, 0xFF, 0xFF, 0xFF, 0xFF, 0xFF, 0xFF, 0x01];
    assert_eq!(decode_varint(&bytes, 0), Some((u64::MAX, 10)));
}

#[test]
fn varint_round_trip_on_samples() {
    let samples: [u64; 9] = [0, 1, 127, 128, 150, 16383, 16384, 624485, u64::MAX];
    for v in samples {
        let enc = encode_varint(v);
        assert_eq!(decode_varint(&enc, 0), Some((v, enc.len())));
    }
}

#[test]
fn varint_encoding_is_minimal_on_samples() {
    let samples: [u64; 6] = [0, 127, 128, 16384, 1 << 35, u64::MAX];
    for v in samples {
        let enc = encode_varint(v);
        let last = enc.len() - 1;
        assert!(enc[last] < 0x80);
        assert!(enc[..last].iter().all(|b| *b >= 0x80));
        assert!(enc.len() == 1 || enc[last] != 0);
    }
}

#[test]
fn decode_varint_at_offset() {
    let bytes = [0x00, 0x96, 0x01, 0x05];
    assert_eq!(decode_varint(&bytes, 1), Some((150, 3)));
    assert_eq!(decode_varint(&bytes, 3), Some((5, 4)));
}

#[test]
fn decode_varint_truncated_is_none() {
    assert_eq!(decode_varint(&[0x96], 0), None);
    assert_eq!(decode_varint(&[], 0), None);
    assert_eq!(decode_varint(&[0x01], 1), None);
    assert_eq!(decode_varint(&[0x01], 5), None);
}

#[test]
fn decode_varint_longer_than_ten_bytes_is_none() {
    let bytes = [0xFF, 0xFF, 0xFF, 0xFF, 0xFF, 0xFF, 0xFF, 0xFF, 0xFF, 0xFF, 0x01];
    assert_eq!(decode_varint(&bytes, 0), None);
}

#[test]
fn decode_varint_drops_bits_past_the_sixty_fourth() {
    let bytes = [0x80, 0x80, 0x80, 0x80, 0x80, 0x80, 0x80, 0x80, 0x80, 0x7F];
    assert_eq!(decode_varint(&bytes, 0), Some((1u64 << 63, 10)));
}

#[test]
fn fixed_width_out_of_bounds_is_none() {
    assert_eq!(decode_float(&[0, 0, 0], 0), None);
    assert_eq!(decode_float(&[0, 0, 0, 0, 0], 1), Some(5));
    assert_eq!(decode_float(&[0, 0, 0, 0], 2), None);
    assert_eq!(decode_double(&[0; 7], 0), None);
    assert_eq!(decode_double(&[0; 9], 1), Some(9));
    assert_eq!(decode_double(&[0; 8], usize::MAX), None);
}

#[test]
fn varint_length_matches_encoding() {
    let samples: [u32; 10] = [0, 0x7f, 0x80, 0x3fff, 0x4000, 0x1fffff, 0x200000, 0xfffffff, 0x10000000, u32::MAX];
    let expected: [usize; 10] = [1, 1, 2, 2, 3, 3, 4, 4, 5, 5];
    for (v, n) in samples.iter().zip(expected.iter()) {
        assert_eq!(get_varint_length(*v), *n);
        assert_eq!(encode_varint(*v as u64).len(), *n);
    }
}
