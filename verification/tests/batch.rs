use kobold_simd::{
    decode_packed_batch, decode_packed_scalar, decode_zoned_ascii_batch, decode_zoned_ascii_scalar,
    LANES,
};

#[test]
fn batch_empty_and_partial() {
    let mut out = Vec::new();
    // empty buffer -> no records
    decode_packed_batch(&[], 8, 0, 3, 5, 0, &mut out);
    assert!(out.is_empty());
    // field declared past the record stride -> decode nothing (no cross-record reads)
    decode_packed_batch(&[0u8; 16], 8, 6, 3, 5, 0, &mut out);
    assert!(out.is_empty());
    // 21 bytes, stride 3 -> 7 whole records
    decode_packed_batch(&[0x00, 0x00, 0x0C].repeat(7), 3, 0, 3, 5, 0, &mut out);
    assert_eq!(out.len(), 7);
    // zero stride / zero field len -> nothing, no panic
    decode_packed_batch(&[0u8; 16], 0, 0, 3, 5, 0, &mut out);
    assert!(out.is_empty());
    decode_zoned_ascii_batch(&[0u8; 16], 8, 0, 0, false, &mut out);
    assert!(out.is_empty());
}

#[test]
fn batch_out_is_cleared() {
    let mut out = vec![Some(999i128), None];
    decode_packed_batch(&[], 8, 0, 3, 5, 0, &mut out);
    assert!(out.is_empty());
}

/// Build a buffer of packed records and cross-check the batch kernel against per-record scalar
/// decode, with mixed signs and corruption at a known stride, over full lanes and the tail.
#[test]
#[allow(clippy::needless_range_loop)]
fn packed_batch_cross_check() {
    let digits: u32 = 7; // PIC S9(7) COMP-3 -> 4 bytes
    let field_len: usize = (digits as usize) / 2 + 1;
    let stride: usize = field_len + 5;
    let field_offset: usize = 2;
    // Deliberately not a multiple of LANES, so the remainder tail is also covered.
    let n: usize = LANES * 5 + 3;

    let mut buf = vec![0u8; n * stride];
    for r in 0..n {
        let base = r * stride + field_offset;
        let mag = (r as i128 * 37 + 1) % 9_999_999;
        let negative = r % 3 == 0;
        let mut digs = vec![0u8; 2 * field_len];
        let mut v = mag;
        for d in digs.iter_mut().rev() {
            *d = (v % 10) as u8;
            v /= 10;
        }
        for i in 0..field_len {
            let hi = digs[2 * i];
            let lo = if i == field_len - 1 {
                if negative { 0x0D } else { 0x0C }
            } else {
                digs[2 * i + 1]
            };
            buf[base + i] = (hi << 4) | lo;
        }
        // corrupt every 11th record: stamp a non-BCD nibble into the field
        if r % 11 == 5 {
            buf[base] = 0xAB;
        }
    }

    let mut batch = Vec::new();
    decode_packed_batch(&buf, stride, field_offset, field_len, digits, 2, &mut batch);
    assert_eq!(batch.len(), n);

    let mut corrupt_seen = 0usize;
    for r in 0..n {
        let base = r * stride + field_offset;
        let field = &buf[base..base + field_len];
        let reference = decode_packed_scalar(field, digits, 2);
        assert_eq!(batch[r], reference, "lane {r} diverged from scalar reference");
        if reference.is_none() {
            corrupt_seen += 1;
        }
    }
    assert!(corrupt_seen > 0, "test should exercise the fail-closed path");
}

/// Cross-check the zoned batch kernel against per-record scalar decode, same discipline.
#[test]
#[allow(clippy::needless_range_loop)]
fn zoned_batch_cross_check() {
    let field_len: usize = 6;
    let stride: usize = field_len + 4;
    let field_offset: usize = 1;
    let n: usize = LANES * 4 + 5;
    let signed: bool = true;

    let mut buf = vec![b'_'; n * stride];
    for r in 0..n {
        let base = r * stride + field_offset;
        let mag = (r as i128 * 53 + 7) % 1_000_000;
        let negative = r % 4 == 0;
        let mut v = mag;
        let mut digs = vec![0u8; field_len];
        for d in digs.iter_mut().rev() {
            *d = (v % 10) as u8;
            v /= 10;
        }
        for i in 0..field_len - 1 {
            buf[base + i] = 0x30 + digs[i];
        }
        let last = digs[field_len - 1];
        buf[base + field_len - 1] = if negative { 0x70 + last } else { 0x30 + last };
        // corrupt every 13th record: drop a bad byte into the interior
        if r % 13 == 4 {
            buf[base + 2] = 0xFF;
        }
    }

    let mut batch = Vec::new();
    decode_zoned_ascii_batch(&buf, stride, field_offset, field_len, signed, &mut batch);
    assert_eq!(batch.len(), n);

    let mut corrupt_seen = 0usize;
    let mut negatives_seen = 0usize;
    for r in 0..n {
        let base = r * stride + field_offset;
        let field = &buf[base..base + field_len];
        let reference = decode_zoned_ascii_scalar(field, signed);
        assert_eq!(batch[r], reference, "lane {r} diverged from scalar reference");
        match reference {
            None => corrupt_seen += 1,
            Some(v) if v < 0 => negatives_seen += 1,
            _ => {}
        }
    }
    assert!(corrupt_seen > 0, "test should exercise the fail-closed path");
    assert!(negatives_seen > 0, "test should exercise the negative-overpunch path");
}
