use kobold_simd::{
    decode_packed_batch, decode_packed_scalar, decode_zoned_ascii_batch, decode_zoned_ascii_scalar,
    packed_lane, zoned_lane, LANES,
};

#[test]
fn packed_sign_nibble_only_decides_sign() {
    for sign in 0u8..16 {
        let field = [0x12, 0x34, 0x50 | sign];
        let expected = if sign == 0x0D { -12345 } else { 12345 };
        assert_eq!(decode_packed_scalar(&field, 5, 0), Some(expected), "sign nibble {sign:x}");
    }
}

#[test]
fn packed_nonzero_leading_nibble_counts() {
    // even digit count: the unused high nibble is still read as a digit
    assert_eq!(decode_packed_scalar(&[0x10, 0x12, 0x3C], 4, 0), Some(10123));
}

#[test]
fn packed_single_byte_field() {
    assert_eq!(decode_packed_scalar(&[0x7D], 1, 0), Some(-7));
    assert_eq!(decode_packed_scalar(&[0x7D], 0, 0), Some(-7));
    assert_eq!(decode_packed_scalar(&[0xAC], 1, 0), None);
}

#[test]
fn packed_sign_nibble_is_not_a_digit() {
    // 0xA..0xF in the sign position is no error
    assert_eq!(decode_packed_scalar(&[0x12, 0x3A], 3, 0), Some(123));
}

#[test]
fn packed_thirty_seven_nines() {
    let mut field = vec![0x99u8; 19];
    field[18] = 0x9D;
    let expected: i128 = -(10i128.pow(37) - 1);
    assert_eq!(decode_packed_scalar(&field, 37, 0), Some(expected));
}

#[test]
fn zoned_overpunch_digits() {
    for d in 0u8..10 {
        let neg = [0x31, 0x70 + d];
        let pos = [0x31, 0x30 + d];
        let v = 10 + d as i128;
        assert_eq!(decode_zoned_ascii_scalar(&neg, true), Some(-v));
        assert_eq!(decode_zoned_ascii_scalar(&pos, true), Some(v));
        assert_eq!(decode_zoned_ascii_scalar(&pos, false), Some(v));
        assert_eq!(decode_zoned_ascii_scalar(&neg, false), None);
    }
    assert_eq!(decode_zoned_ascii_scalar(&[0x79], true), Some(-9));
}

#[test]
fn zoned_rejects_neighbouring_bytes() {
    assert_eq!(decode_zoned_ascii_scalar(b"12/", false), None);
    assert_eq!(decode_zoned_ascii_scalar(b"12:", false), None);
    assert_eq!(decode_zoned_ascii_scalar(b"12\x6f", true), None);
    assert_eq!(decode_zoned_ascii_scalar(b"12\x7a", true), None);
    // a byte whose low nibble is a digit but that is no digit
    assert_eq!(decode_zoned_ascii_scalar(b"1E3", false), None);
}

#[test]
fn lanes_report_zero_when_corrupt() {
    assert_eq!(packed_lane(&[0x1A, 0x34, 0x5C], 3), (0, false));
    assert_eq!(packed_lane(&[0x1A, 0x34, 0x5D], 3), (0, false));
    assert_eq!(packed_lane(&[0x12, 0x34, 0x5C], 2), (0, false));
    assert_eq!(packed_lane(&[], 0), (0, false));
    assert_eq!(packed_lane(&[0x12, 0x34, 0x5D], 3), (-12345, true));
    assert_eq!(zoned_lane(b"12\x0d45", false), (0, false));
    assert_eq!(zoned_lane(b"", true), (0, false));
    assert_eq!(zoned_lane(b"1234\x75", true), (-12345, true));
}

#[test]
fn batch_long_corrupt_packed_field_is_none() {
    // 20 bytes, 39 digit nibbles; the first nibble is no digit
    let mut buf = vec![0xA0u8];
    buf.extend(vec![0x00u8; 18]);
    buf.push(0x0C);
    assert_eq!(decode_packed_scalar(&buf, 38, 0), None);
    let mut out = Vec::new();
    decode_packed_batch(&buf, 20, 0, 20, 38, 0, &mut out);
    assert_eq!(out, vec![None]);
}

#[test]
fn batch_long_corrupt_zoned_field_is_none() {
    let mut buf = vec![0xFFu8];
    buf.extend(vec![0x30u8; 38]);
    assert_eq!(decode_zoned_ascii_scalar(&buf, false), None);
    let mut out = Vec::new();
    decode_zoned_ascii_batch(&buf, 39, 0, 39, false, &mut out);
    assert_eq!(out, vec![None]);
}

#[test]
fn zoned_thirty_eight_nines() {
    let buf = vec![0x39u8; 38];
    let expected: i128 = 10i128.pow(38) - 1;
    assert_eq!(decode_zoned_ascii_scalar(&buf, false), Some(expected));
    let mut out = Vec::new();
    decode_zoned_ascii_batch(&buf, 38, 0, 38, false, &mut out);
    assert_eq!(out, vec![Some(expected)]);
}

#[test]
fn batch_drops_trailing_partial_record() {
    // 20 bytes, stride 8 -> 2 whole records, the last 4 bytes are no record
    let mut buf = vec![0u8; 20];
    buf[0..3].copy_from_slice(&[0x00, 0x01, 0x2C]);
    buf[8..11].copy_from_slice(&[0x00, 0x03, 0x4D]);
    buf[16..19].copy_from_slice(&[0x00, 0x05, 0x6C]);
    let mut out = Vec::new();
    decode_packed_batch(&buf, 8, 0, 3, 5, 0, &mut out);
    assert_eq!(out, vec![Some(12), Some(-34)]);
}

#[test]
fn batch_corrupt_record_is_isolated() {
    let mut buf = b"01x02x03x".to_vec();
    buf[3] = 0xFF;
    let mut out = Vec::new();
    decode_zoned_ascii_batch(&buf, 3, 0, 2, false, &mut out);
    assert_eq!(out, vec![Some(1), None, Some(3)]);
}

#[test]
fn batch_length_mismatch_gives_none_lanes() {
    let buf = [0x12u8, 0x3C, 0x45, 0x6D];
    let mut out = Vec::new();
    // two-byte fields, but 5 digits need three bytes
    decode_packed_batch(&buf, 2, 0, 2, 5, 0, &mut out);
    assert_eq!(out, vec![None, None]);
    decode_packed_batch(&buf, 2, 0, 2, 3, 0, &mut out);
    assert_eq!(out, vec![Some(123), Some(-456)]);
}

#[test]
fn batch_exact_lane_multiple_and_short() {
    for n in [LANES - 1, LANES, 2 * LANES] {
        let mut buf = Vec::new();
        for r in 0..n {
            buf.push(b'0' + (r % 10) as u8);
            buf.push(0x70 + (r % 10) as u8);
        }
        let mut out = Vec::new();
        decode_zoned_ascii_batch(&buf, 2, 0, 2, true, &mut out);
        assert_eq!(out.len(), n);
        for r in 0..n {
            let d = (r % 10) as i128;
            assert_eq!(out[r], Some(-(d * 10 + d)));
        }
    }
}

#[test]
fn batch_field_at_record_end() {
    // field ends exactly at the record boundary
    let buf = [0xEEu8, 0x1C, 0xEE, 0x2D];
    let mut out = Vec::new();
    decode_packed_batch(&buf, 2, 1, 1, 1, 0, &mut out);
    assert_eq!(out, vec![Some(1), Some(-2)]);
    // offset past the record end
    decode_packed_batch(&buf, 2, 2, 1, 1, 0, &mut out);
    assert!(out.is_empty());
    // offset + length overflowing usize
    decode_packed_batch(&buf, 2, usize::MAX, 2, 1, 0, &mut out);
    assert!(out.is_empty());
}
