use kobold_simd::{decode_packed_scalar, decode_zoned_ascii_scalar, packed_lane, zoned_lane};

// ---- scalar packed reference ----

#[test]
fn packed_positive() {
    // 12345 positive, PIC S9(5) COMP-3 -> 3 bytes 0x12 0x34 0x5C
    assert_eq!(decode_packed_scalar(&[0x12, 0x34, 0x5C], 5, 0), Some(12345));
}

#[test]
fn packed_negative() {
    assert_eq!(decode_packed_scalar(&[0x12, 0x34, 0x5D], 5, 0), Some(-12345));
}

#[test]
fn packed_sign_variants_are_positive() {
    assert_eq!(decode_packed_scalar(&[0x12, 0x34, 0x5C], 5, 0), Some(12345));
    assert_eq!(decode_packed_scalar(&[0x12, 0x34, 0x5F], 5, 0), Some(12345));
}

#[test]
fn packed_even_digits_leading_nibble() {
    // PIC S9(4): 3 bytes, leading high nibble unused (0). 0x00 0x12 0x3C = +123
    assert_eq!(decode_packed_scalar(&[0x00, 0x12, 0x3C], 4, 0), Some(123));
}

#[test]
fn packed_scale_does_not_change_mantissa() {
    assert_eq!(decode_packed_scalar(&[0x12, 0x34, 0x5C], 5, 2), Some(12345));
}

#[test]
fn packed_zero() {
    assert_eq!(decode_packed_scalar(&[0x00, 0x00, 0x0C], 5, 0), Some(0));
}

#[test]
fn packed_fail_closed() {
    // bad length
    assert_eq!(decode_packed_scalar(&[0x12, 0x3C], 5, 0), None);
    // empty
    assert_eq!(decode_packed_scalar(&[], 5, 0), None);
    // non-BCD digit nibble (0xA in a digit position)
    assert_eq!(decode_packed_scalar(&[0x1A, 0x34, 0x5C], 5, 0), None);
    assert_eq!(decode_packed_scalar(&[0xA2, 0x34, 0x5C], 5, 0), None);
}

// ---- scalar zoned reference ----

#[test]
fn zoned_unsigned() {
    assert_eq!(decode_zoned_ascii_scalar(b"12345", false), Some(12345));
}

#[test]
fn zoned_signed_positive_plain_trailing() {
    assert_eq!(decode_zoned_ascii_scalar(b"12345", true), Some(12345));
}

#[test]
fn zoned_signed_negative_overpunch() {
    // "1234" + 0x75 (overpunch digit 5, negative) -> -12345
    assert_eq!(decode_zoned_ascii_scalar(b"1234\x75", true), Some(-12345));
    // overpunch 0x70 = negative 0 digit -> -12340
    assert_eq!(decode_zoned_ascii_scalar(b"1234\x70", true), Some(-12340));
}

#[test]
fn zoned_overpunch_ignored_when_unsigned() {
    assert_eq!(decode_zoned_ascii_scalar(b"1234\x75", false), None);
}

#[test]
fn zoned_fail_closed() {
    assert_eq!(decode_zoned_ascii_scalar(b"", false), None);
    // interior non-digit
    assert_eq!(decode_zoned_ascii_scalar(b"12\x0d45", false), None);
    // overpunch in a non-trailing position is invalid even when signed
    assert_eq!(decode_zoned_ascii_scalar(b"\x751234", true), None);
    // trailing byte outside digit and overpunch ranges
    assert_eq!(decode_zoned_ascii_scalar(b"1234\xFF", true), None);
}

// ---- lane helpers equal their scalar references ----

#[test]
fn packed_lane_matches_scalar() {
    let cases: &[&[u8]] = &[
        &[0x12, 0x34, 0x5C],
        &[0x12, 0x34, 0x5D],
        &[0x00, 0x00, 0x0C],
        &[0x1A, 0x34, 0x5C], // corrupt
        &[0x99, 0x99, 0x9D],
    ];
    for f in cases {
        let (v, ok) = packed_lane(f, 3);
        let lane = if ok { Some(v) } else { None };
        assert_eq!(lane, decode_packed_scalar(f, 5, 0), "field {f:02x?}");
    }
}

#[test]
fn zoned_lane_matches_scalar() {
    let cases: &[(&[u8], bool)] = &[
        (b"12345", false),
        (b"12345", true),
        (b"1234\x75", true),
        (b"1234\x70", true),
        (b"1234\x75", false), // corrupt (unsigned)
        (b"12\x0d45", false),  // corrupt
    ];
    for &(f, signed) in cases {
        let (v, ok) = zoned_lane(f, signed);
        let lane = if ok { Some(v) } else { None };
        assert_eq!(lane, decode_zoned_ascii_scalar(f, signed), "field {f:02x?} signed={signed}");
    }
}
