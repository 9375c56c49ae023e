//! COMP-3 packed decimal: two BCD digits per byte, most significant first, with the low nibble
//! of the final byte holding the sign.
use vstd::prelude::*;
use crate::decimal::{
    all_decimal, decimal_value, i128_max, lane_option, lemma_decimal_value_take_step,
    lemma_decimal_value_update,
    lemma_decimal_value_zeros, lemma_short_decimal_fits, negated, pow10, widen,
};
use crate::records::{
    lemma_record_field_within_buffer, record_count, record_field, whole_records, LANES,
};

verus! {

/// The high (first) nibble of a byte.
pub open spec fn high_nibble(b: u8) -> int {
    (b / 16) as int
}

/// The low (second) nibble of a byte.
pub open spec fn low_nibble(b: u8) -> int {
    (b % 16) as int
}

/// The digit nibbles of a packed field, most significant first: both nibbles of every byte but
/// the last, then the high nibble of the last byte. The low nibble of the last byte is the sign
/// and is not among them. A field of `n` bytes has `2n - 1` digit nibbles.
pub open spec fn packed_nibbles(s: Seq<u8>) -> Seq<int> {
    if s.len() == 0 {
        Seq::empty()
    } else {
        Seq::new(
            (2 * s.len() - 1) as nat,
            |j: int| if j % 2 == 0 { high_nibble(s[j / 2]) } else { low_nibble(s[j / 2]) },
        )
    }
}

/// The sign nibble `0xD` marks a negative field; every other sign nibble is positive.
pub open spec fn packed_is_negative(s: Seq<u8>) -> bool {
    s.len() > 0 && low_nibble(s.last()) == 0xD
}

/// The signed value of a packed field, reading every digit nibble at face value.
pub open spec fn packed_value(s: Seq<u8>) -> int {
    if packed_is_negative(s) {
        -decimal_value(packed_nibbles(s))
    } else {
        decimal_value(packed_nibbles(s))
    }
}

/// The byte length of a packed field declared with `digits` digits.
pub open spec fn packed_field_len(digits: u32) -> int {
    digits / 2 + 1
}

/// What a packed field decodes to: its signed mantissa, or `None` when its length disagrees with
/// `digits` or one of its digit nibbles is above nine.
pub open spec fn decode_packed(s: Seq<u8>, digits: u32) -> Option<int> {
    if s.len() != packed_field_len(digits) || !all_decimal(packed_nibbles(s)) {
        None
    } else {
        Some(packed_value(s))
    }
}

/// A packed field is rejected exactly when its length disagrees with `digits` or one of its
/// digit nibbles, read straight off the bytes, is above nine: the high nibble of any byte, or
/// the low nibble of any byte but the last.
pub proof fn lemma_packed_rejects_exactly_bad_nibbles(s: Seq<u8>, digits: u32)
    ensures
        s.len() != digits / 2 + 1 ==> decode_packed(s, digits) is None,
        s.len() == digits / 2 + 1 ==> (decode_packed(s, digits) is None <==> exists|i: int|
            0 <= i < s.len() && (s[i] >= 0xA0 || (i + 1 < s.len() && s[i] % 16 >= 10))),
{
    if s.len() == digits / 2 + 1 {
        let nib = packed_nibbles(s);
        if !all_decimal(nib) {
            let j = choose|j: int| 0 <= j < nib.len() && !(0 <= #[trigger] nib[j] <= 9);
            let i = j / 2;
            assert(0 <= i < s.len() && (s[i] >= 0xA0 || (i + 1 < s.len() && s[i] % 16 >= 10)));
        } else {
            assert forall|i: int| 0 <= i < s.len() implies !(s[i] >= 0xA0 || (i + 1 < s.len() && s[i]
                % 16 >= 10)) by {
                assert(0 <= nib[2 * i] <= 9);
                if i + 1 < s.len() {
                    assert(0 <= nib[2 * i + 1] <= 9);
                }
            }
        }
    }
}

/// A field of the right length whose digit nibbles are all zero decodes to zero, whatever its
/// sign nibble.
pub proof fn lemma_packed_zero_digits(s: Seq<u8>, digits: u32)
    requires
        s.len() == digits / 2 + 1,
        forall|i: int| 0 <= i < s.len() - 1 ==> s[i] == 0,
        s[s.len() - 1] < 16,
    ensures
        decode_packed(s, digits) == Some(0int),
{
    let nib = packed_nibbles(s);
    assert forall|j: int| 0 <= j < nib.len() implies nib[j] == 0 by {}
    lemma_decimal_value_zeros(nib);
}

/// Replacing one byte of a valid field by a byte with decimal digit nibbles (keeping the sign
/// nibble in the last byte) changes the decoded mantissa by each changed digit's difference
/// times its place value: the high nibble of byte `i` of an `n`-byte field has place value
/// `10^(2(n-1-i))`, its low nibble `10^(2(n-1-i)-1)`; the change is negated in a negative field.
pub proof fn lemma_packed_byte_substitution(s: Seq<u8>, digits: u32, i: int, b: u8, v: int)
    requires
        decode_packed(s, digits) == Some(v),
        0 <= i < s.len(),
        b / 16 <= 9,
        i + 1 < s.len() ==> b % 16 <= 9,
        i + 1 == s.len() ==> b % 16 == s[i] % 16,
    ensures
        decode_packed(s.update(i, b), digits) == Some(
            v + (if s[s.len() - 1] % 16 == 13 {
                -1int
            } else {
                1int
            }) * ((b / 16 - s[i] / 16) * pow10((2 * (s.len() - 1 - i)) as nat) + (if i + 1
                < s.len() {
                (b % 16 - s[i] % 16) * pow10((2 * (s.len() - 1 - i) - 1) as nat)
            } else {
                0
            })),
        ),
{
    let n = s.len();
    let t = s.update(i, b);
    let nib = packed_nibbles(s);
    let ph = pow10((2 * (n - 1 - i)) as nat);
    let pl = pow10((2 * (n - 1 - i) - 1) as nat);
    let dh = b / 16 - s[i] / 16;
    let dl = b % 16 - s[i] % 16;
    let sgn: int = if s[n - 1] % 16 == 13 {
        -1
    } else {
        1
    };
    let hi_changed = nib.update(2 * i, high_nibble(b));
    lemma_decimal_value_update(nib, 2 * i, high_nibble(b));
    assert((nib.len() - 1 - 2 * i) as nat == (2 * (n - 1 - i)) as nat);
    assert(decimal_value(hi_changed) == decimal_value(nib) + dh * ph);
    if i + 1 < n {
        let both = hi_changed.update(2 * i + 1, low_nibble(b));
        lemma_decimal_value_update(hi_changed, 2 * i + 1, low_nibble(b));
        assert((hi_changed.len() - 1 - (2 * i + 1)) as nat == (2 * (n - 1 - i) - 1) as nat);
        assert(decimal_value(both) == decimal_value(nib) + dh * ph + dl * pl);
        assert(packed_nibbles(t) =~= both);
        assert(t[n - 1] == s[n - 1]);
        assert(all_decimal(packed_nibbles(t)));
        assert(packed_value(t) == v + sgn * (dh * ph + dl * pl));
    } else {
        assert(packed_nibbles(t) =~= hi_changed);
        assert(all_decimal(packed_nibbles(t)));
        assert(packed_value(t) == v + sgn * (dh * ph + 0));
    }
}

/// The field with the low nibble of its last byte, the sign nibble, replaced by `n`.
pub open spec fn with_sign_nibble(s: Seq<u8>, n: u8) -> Seq<u8> {
    s.update(s.len() - 1, ((s.last() / 16) * 16 + n) as u8)
}

/// The sign nibble decides the sign and nothing else: `0xD` gives the negation of what `0xC`
/// gives for the same digits, and every other sign nibble gives the same as `0xC`.
pub proof fn lemma_packed_sign_nibble(s: Seq<u8>, digits: u32, n: u8)
    requires
        s.len() > 0,
        n < 16,
    ensures
        packed_nibbles(with_sign_nibble(s, n)) == packed_nibbles(s),
        decode_packed(with_sign_nibble(s, n), digits) == if n == 0xD {
            negated(decode_packed(with_sign_nibble(s, 0xC), digits))
        } else {
            decode_packed(with_sign_nibble(s, 0xC), digits)
        },
{
    let h = s.last() / 16;
    assert(((h * 16 + n) as u8) / 16 == h && ((h * 16 + n) as u8) % 16 == n) by (nonlinear_arith)
        requires
            h < 16,
            n < 16,
    ;
    assert(((h * 16 + 0xC) as u8) / 16 == h && ((h * 16 + 0xC) as u8) % 16 == 0xC) by (nonlinear_arith)
        requires
            h < 16,
    ;
    assert(packed_nibbles(with_sign_nibble(s, n)) =~= packed_nibbles(s));
    assert(packed_nibbles(with_sign_nibble(s, 0xC)) =~= packed_nibbles(s));
}

/// Every prefix of the field's digit nibbles that is made of decimal digits has a value that fits
/// in an `i128`. The decoders accumulate digit after digit and stop accumulating at the first
/// nibble above nine, so these are the values they build on the way.
pub open spec fn packed_prefixes_in_range(s: Seq<u8>) -> bool {
    forall|k: int|
        0 <= k <= packed_nibbles(s).len() && all_decimal(#[trigger] packed_nibbles(s).take(k))
            ==> decimal_value(packed_nibbles(s).take(k)) <= i128_max()
}

/// The scalar decoder accumulates only for a field of the right length; then every value it
/// builds fits in an `i128`.
pub open spec fn packed_scalar_in_range(s: Seq<u8>, digits: u32) -> bool {
    s.len() == packed_field_len(digits) ==> packed_prefixes_in_range(s)
}

/// A packed field of at most 19 bytes (37 digit nibbles) is always in range for the decoders.
pub proof fn lemma_short_packed_field_in_range(s: Seq<u8>, digits: u32)
    requires
        s.len() <= 19,
    ensures
        packed_prefixes_in_range(s),
        packed_scalar_in_range(s, digits),
        packed_lane_in_range(s, (digits / 2 + 1) as usize),
{
    let nib = packed_nibbles(s);
    assert forall|k: int|
        0 <= k <= nib.len() && all_decimal(#[trigger] nib.take(k)) implies decimal_value(
        nib.take(k),
    ) <= i128_max() by {
        lemma_short_decimal_fits(nib.take(k));
    }
}

proof fn lemma_nibbles_of_byte(b: u8)
    ensures
        b >> 4u8 == b / 16,
        b & 0x0Fu8 == b % 16,
{
    assert(b >> 4u8 == b / 16) by (bit_vector);
    assert(b & 0x0Fu8 == b % 16) by (bit_vector);
}

/// Decodes one COMP-3 packed-decimal field to its unscaled mantissa (the scalar reference).
///
/// `scale` does not take part: the field's logical value is `mantissa * 10^-scale`, and the
/// mantissa is what is returned.
pub fn decode_packed_scalar(bytes: &[u8], digits: u32, scale: i32) -> (r: Option<i128>)
    requires
        packed_scalar_in_range(bytes@, digits),
    ensures
        widen(r) == decode_packed(bytes@, digits),
{
    let _ = scale;
    if bytes.len() == 0 {
        return None;
    }
    let expected: usize = (digits as usize) / 2 + 1;
    if bytes.len() != expected {
        return None;
    }
    let ghost nib = packed_nibbles(bytes@);
    let last: usize = bytes.len() - 1;
    let mut acc: i128 = 0;
    let mut i: usize = 0;
    while i < bytes.len()
        invariant
            bytes.len() == packed_field_len(digits),
            last + 1 == bytes.len(),
            nib == packed_nibbles(bytes@),
            nib.len() == 2 * last + 1,
            packed_scalar_in_range(bytes@, digits),
            i <= bytes.len(),
            0 <= acc,
            i <= last ==> all_decimal(nib.take(2 * i)) && acc == decimal_value(nib.take(2 * i)),
            i == bytes.len() ==> all_decimal(nib.take(nib.len() as int)) && acc == decimal_value(
                nib.take(nib.len() as int),
            ),
        decreases bytes.len() - i,
    {
        let b = bytes[i];
        proof {
            lemma_nibbles_of_byte(b);
        }
        let hi = (b >> 4) as i128;
        let lo = (b & 0x0F) as i128;
        let ghost k: int = 2 * i;
        assert(nib[k] == hi);
        if hi > 9 {
            assert(!all_decimal(nib));
            return None;
        }
        proof {
            lemma_decimal_value_take_step(nib, k);
            assert(all_decimal(nib.take(k + 1)));
        }
        acc = acc * 10 + hi;
        if i != last {
            assert(nib[k + 1] == lo);
            if lo > 9 {
                assert(!all_decimal(nib));
                return None;
            }
            proof {
                lemma_decimal_value_take_step(nib, k + 1);
                assert(all_decimal(nib.take(k + 2)));
            }
            acc = acc * 10 + lo;
        }
        i = i + 1;
    }
    assert(nib.take(nib.len() as int) =~= nib);
    let sign = bytes[last] & 0x0F;
    proof {
        lemma_nibbles_of_byte(bytes[last as int]);
    }
    if sign == 0x0D {
        acc = -acc;
    }
    Some(acc)
}

/// What the lane decoder returns for a field: `(mantissa, true)` when the length is right and
/// every digit nibble is decimal, otherwise `(0, false)`.
pub open spec fn packed_lane_result(s: Seq<u8>, expected_len: usize) -> (int, bool) {
    if s.len() == expected_len && expected_len > 0 && all_decimal(packed_nibbles(s)) {
        (packed_value(s), true)
    } else {
        (0, false)
    }
}

/// The lane decoder accumulates only for a field of the right length; then every value it
/// builds fits in an `i128`.
pub open spec fn packed_lane_in_range(s: Seq<u8>, expected_len: usize) -> bool {
    s.len() == expected_len && expected_len > 0 ==> packed_prefixes_in_range(s)
}

/// Branch-light COMP-3 decode of one field, for a fixed-count lane loop: it never leaves the
/// loop early and reports validity as a flag instead. Once a nibble above nine is seen the
/// accumulator is held at zero, so a corrupt field cannot overflow it.
pub fn packed_lane(field: &[u8], expected_len: usize) -> (r: (i128, bool))
    requires
        packed_lane_in_range(field@, expected_len),
    ensures
        (r.0 as int, r.1) == packed_lane_result(field@, expected_len),
{
    if field.len() != expected_len || expected_len == 0 {
        return (0, false);
    }
    let ghost nib = packed_nibbles(field@);
    let last: usize = field.len() - 1;
    let mut acc: i128 = 0;
    let mut ok: bool = true;
    let mut i: usize = 0;
    while i < field.len()
        invariant
            field.len() == expected_len,
            last + 1 == field.len(),
            nib == packed_nibbles(field@),
            nib.len() == 2 * last + 1,
            packed_prefixes_in_range(field@),
            i <= field.len(),
            0 <= acc,
            i <= last ==> ok == all_decimal(nib.take(2 * i)) && acc == (if ok {
                decimal_value(nib.take(2 * i))
            } else {
                0
            }),
            i == field.len() ==> ok == all_decimal(nib.take(nib.len() as int)) && acc == (if ok {
                decimal_value(nib.take(nib.len() as int))
            } else {
                0
            }),
        decreases field.len() - i,
    {
        let b = field[i];
        proof {
            lemma_nibbles_of_byte(b);
        }
        let hi = (b >> 4) as i128;
        let lo = (b & 0x0F) as i128;
        let ghost k: int = 2 * i;
        assert(nib[k] == hi);
        proof {
            lemma_decimal_value_take_step(nib, k);
            assert(all_decimal(nib.take(k + 1)) == (all_decimal(nib.take(k)) && hi <= 9));
        }
        let hi_ok = hi <= 9;
        ok = ok && hi_ok;
        acc = if ok { acc * 10 + hi } else { 0 };
        if i != last {
            assert(nib[k + 1] == lo);
            proof {
                lemma_decimal_value_take_step(nib, k + 1);
                assert(all_decimal(nib.take(k + 2)) == (all_decimal(nib.take(k + 1)) && lo <= 9));
            }
            let lo_ok = lo <= 9;
            ok = ok && lo_ok;
            acc = if ok { acc * 10 + lo } else { 0 };
        }
        i = i + 1;
    }
    assert(nib.take(nib.len() as int) =~= nib);
    proof {
        lemma_nibbles_of_byte(field[last as int]);
    }
    if (field[last] & 0x0F) == 0x0D {
        acc = -acc;
    }
    (acc, ok)
}

/// Every decoded record's field is in range for the scalar decoder.
pub open spec fn packed_batch_in_range(
    buf: Seq<u8>,
    stride: usize,
    field_offset: usize,
    field_len: usize,
    digits: u32,
) -> bool {
    forall|r: int|
        0 <= r < record_count(buf.len() as int, stride as int, field_offset as int, field_len as int)
            ==> packed_scalar_in_range(
            #[trigger] record_field(buf, stride as int, field_offset as int, field_len as int, r),
            digits,
        )
}

/// When every field is at most 19 bytes long, every buffer is in range for the packed batch kernel.
pub proof fn lemma_short_packed_fields_in_range(
    buf: Seq<u8>,
    stride: usize,
    field_offset: usize,
    field_len: usize,
    digits: u32,
)
    requires
        field_len <= 19,
    ensures
        packed_batch_in_range(buf, stride, field_offset, field_len, digits),
{
    assert forall|r: int|
        0 <= r < record_count(
            buf.len() as int,
            stride as int,
            field_offset as int,
            field_len as int,
        ) implies packed_scalar_in_range(
        #[trigger] record_field(buf, stride as int, field_offset as int, field_len as int, r),
        digits,
    ) by {
        lemma_record_field_within_buffer(
            buf.len() as int,
            stride as int,
            field_offset as int,
            field_len as int,
            r,
        );
        lemma_short_packed_field_in_range(
            record_field(buf, stride as int, field_offset as int, field_len as int, r),
            digits,
        );
    }
}

/// The lane decoder, read through its `ok` flag, decodes a packed field exactly as the scalar
/// reference does.
pub proof fn lemma_packed_lane_agrees_with_scalar(s: Seq<u8>, digits: u32)
    ensures
        lane_option(packed_lane_result(s, (digits / 2 + 1) as usize)) == decode_packed(s, digits),
{
}

/// Decodes the `field_len` bytes at `field_offset` of every `record_stride`-byte record in `buf`
/// as a COMP-3 packed field. `out` is cleared first and then holds one result per whole record,
/// in record order, each equal to what the scalar reference gives for that record's field.
pub fn decode_packed_batch(
    buf: &[u8],
    record_stride: usize,
    field_offset: usize,
    field_len: usize,
    digits: u32,
    scale: i32,
    out: &mut Vec<Option<i128>>,
)
    requires
        packed_batch_in_range(buf@, record_stride, field_offset, field_len, digits),
    ensures
        final(out)@.len() == record_count(
            buf@.len() as int,
            record_stride as int,
            field_offset as int,
            field_len as int,
        ),
        record_stride > 0 && field_len > 0 && field_offset + field_len <= record_stride
            ==> final(out)@.len() == buf.len() / record_stride,
        !(record_stride > 0 && field_len > 0 && field_offset + field_len <= record_stride)
            ==> final(out)@.len() == 0,
        forall|r: int|
            0 <= r < final(out)@.len() ==> widen(#[trigger] final(out)@[r]) == decode_packed(
                record_field(buf@, record_stride as int, field_offset as int, field_len as int, r),
                digits,
            ),
{
    out.clear();
    if record_stride == 0 || field_len == 0 {
        return;
    }
    let records = whole_records(buf.len(), record_stride, field_offset, field_len);
    out.reserve(records);

    let expected: usize = (digits as usize) / 2 + 1;
    let chunks = records / LANES;
    let ghost n = records as int;

    let mut c: usize = 0;
    while c < chunks
        invariant
            n == record_count(buf@.len() as int, record_stride as int, field_offset as int, field_len as int),
            records == n,
            chunks == records / LANES,
            c <= chunks,
            expected == digits / 2 + 1,
            packed_batch_in_range(buf@, record_stride, field_offset, field_len, digits),
            out@.len() == c * LANES,
            forall|r: int|
                0 <= r < out@.len() ==> widen(#[trigger] out@[r]) == decode_packed(
                    record_field(buf@, record_stride as int, field_offset as int, field_len as int, r),
                    digits,
                ),
        decreases chunks - c,
    {
        let mut lane_vals = [0i128; LANES];
        let mut lane_ok = [false; LANES];
        let mut l: usize = 0;
        while l < LANES
            invariant
                n == record_count(buf@.len() as int, record_stride as int, field_offset as int, field_len as int),
                records == n,
                chunks == records / LANES,
                c < chunks,
                l <= LANES,
                expected == digits / 2 + 1,
                packed_batch_in_range(buf@, record_stride, field_offset, field_len, digits),
                forall|m: int|
                    0 <= m < l ==> (lane_vals@[m] as int, lane_ok@[m]) == packed_lane_result(
                        record_field(buf@, record_stride as int, field_offset as int, field_len as int, c * LANES + m),
                        expected,
                    ),
            decreases LANES - l,
        {
            let r = c * LANES + l;
            proof {
                lemma_record_field_within_buffer(
                    buf@.len() as int,
                    record_stride as int,
                    field_offset as int,
                    field_len as int,
                    r as int,
                );
                assert(buf@.len() == buf.len());
                assert(r * record_stride + field_offset + field_len <= buf.len());
            }
            let start = r * record_stride + field_offset;
            let field = vstd::slice::slice_subrange(buf, start, start + field_len);
            assert(field@ == record_field(buf@, record_stride as int, field_offset as int, field_len as int, r as int));
            let (v, ok) = packed_lane(field, expected);
            lane_vals[l] = v;
            lane_ok[l] = ok;
            l = l + 1;
        }
        let mut l: usize = 0;
        while l < LANES
            invariant
                c < chunks,
                l <= LANES,
                expected == digits / 2 + 1,
                out@.len() == c * LANES + l,
                forall|m: int|
                    0 <= m < LANES ==> (lane_vals@[m] as int, lane_ok@[m]) == packed_lane_result(
                        record_field(buf@, record_stride as int, field_offset as int, field_len as int, c * LANES + m),
                        expected,
                    ),
                forall|r: int|
                    0 <= r < out@.len() ==> widen(#[trigger] out@[r]) == decode_packed(
                        record_field(buf@, record_stride as int, field_offset as int, field_len as int, r),
                        digits,
                    ),
            decreases LANES - l,
        {
            let res = if lane_ok[l] { Some(lane_vals[l]) } else { None };
            proof {
                lemma_packed_lane_agrees_with_scalar(
                    record_field(buf@, record_stride as int, field_offset as int, field_len as int, c * LANES + l),
                    digits,
                );
            }
            out.push(res);
            l = l + 1;
        }
        c = c + 1;
    }
    let mut r: usize = chunks * LANES;
    while r < records
        invariant
            n == record_count(buf@.len() as int, record_stride as int, field_offset as int, field_len as int),
            records == n,
            r <= records,
            expected == digits / 2 + 1,
            packed_batch_in_range(buf@, record_stride, field_offset, field_len, digits),
            out@.len() == r,
            forall|q: int|
                0 <= q < out@.len() ==> widen(#[trigger] out@[q]) == decode_packed(
                    record_field(buf@, record_stride as int, field_offset as int, field_len as int, q),
                    digits,
                ),
        decreases records - r,
    {
        proof {
            lemma_record_field_within_buffer(
                buf@.len() as int,
                record_stride as int,
                field_offset as int,
                field_len as int,
                r as int,
            );
            assert(buf@.len() == buf.len());
            assert(r * record_stride + field_offset + field_len <= buf.len());
        }
        let start = r * record_stride + field_offset;
        let field = vstd::slice::slice_subrange(buf, start, start + field_len);
        assert(field@ == record_field(buf@, record_stride as int, field_offset as int, field_len as int, r as int));
        let (v, ok) = packed_lane(field, expected);
        proof {
            lemma_packed_lane_agrees_with_scalar(field@, digits);
        }
        out.push(if ok { Some(v) } else { None });
        r = r + 1;
    }
    let _ = scale;
}

} // verus!
