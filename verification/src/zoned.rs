//! ASCII zoned decimal (`PIC 9 DISPLAY`): one digit per byte, `'0'..='9'`, where a signed field
//! may end in a negative overpunch `0x70..=0x79`.
use vstd::prelude::*;
use crate::decimal::{
    decimal_value, i128_max, lane_option, lemma_decimal_value_take_step, lemma_decimal_value_update,
    lemma_decimal_value_zeros, lemma_short_decimal_fits, negated, pow10, widen,
};
use crate::records::{
    lemma_record_field_within_buffer, record_count, record_field, whole_records, LANES,
};

verus! {

/// A plain ASCII digit `'0'..='9'`.
pub open spec fn is_plain_digit(b: u8) -> bool {
    0x30 <= b <= 0x39
}

/// A negative overpunch byte `0x70..=0x79`, carrying the digit `b - 0x70`.
pub open spec fn is_overpunch(b: u8) -> bool {
    0x70 <= b <= 0x79
}

/// Byte `i` is the trailing byte of a signed field and carries a negative overpunch.
pub open spec fn zoned_overpunched_at(s: Seq<u8>, signed: bool, i: int) -> bool {
    i == s.len() - 1 && signed && is_overpunch(s[i])
}

/// The digit each byte carries: `b - 0x70` for an overpunched trailing byte, otherwise its low
/// nibble, which for a plain digit `b` is `b - 0x30`.
pub open spec fn zoned_digits(s: Seq<u8>, signed: bool) -> Seq<int> {
    Seq::new(
        s.len(),
        |i: int|
            if zoned_overpunched_at(s, signed, i) {
                s[i] - 0x70
            } else {
                (s[i] % 16) as int
            },
    )
}

/// Byte `i` is a plain digit, or the overpunched trailing byte of a signed field.
pub open spec fn zoned_byte_valid(s: Seq<u8>, signed: bool, i: int) -> bool {
    is_plain_digit(s[i]) || zoned_overpunched_at(s, signed, i)
}

/// The first `k` bytes are all valid.
pub open spec fn zoned_valid_upto(s: Seq<u8>, signed: bool, k: int) -> bool {
    forall|j: int| 0 <= j < k ==> #[trigger] zoned_byte_valid(s, signed, j)
}

/// The field is negative: it is signed and its trailing byte is an overpunch.
pub open spec fn zoned_is_negative(s: Seq<u8>, signed: bool) -> bool {
    s.len() > 0 && zoned_overpunched_at(s, signed, s.len() - 1)
}

/// The signed value of a zoned field, reading every byte's digit as `zoned_digits` gives it.
pub open spec fn zoned_value(s: Seq<u8>, signed: bool) -> int {
    if zoned_is_negative(s, signed) {
        -decimal_value(zoned_digits(s, signed))
    } else {
        decimal_value(zoned_digits(s, signed))
    }
}

/// What a zoned field decodes to: its signed mantissa, or `None` when it is empty or one of its
/// bytes is neither a plain digit nor the overpunched trailing byte of a signed field.
pub open spec fn decode_zoned(s: Seq<u8>, signed: bool) -> Option<int> {
    if s.len() == 0 || !zoned_valid_upto(s, signed, s.len() as int) {
        None
    } else {
        Some(zoned_value(s, signed))
    }
}

/// A zoned field is rejected exactly when it is empty or has a byte that is not an ASCII digit
/// `0x30..=0x39` and is not the overpunched (`0x70..=0x79`) trailing byte of a signed field.
pub proof fn lemma_zoned_rejects_exactly_bad_bytes(s: Seq<u8>, signed: bool)
    ensures
        decode_zoned(s, signed) is None <==> (s.len() == 0 || exists|i: int|
            0 <= i < s.len() && !(0x30 <= #[trigger] s[i] <= 0x39) && !(i == s.len() - 1 && signed
                && 0x70 <= s[i] <= 0x79)),
{
    if s.len() > 0 && !zoned_valid_upto(s, signed, s.len() as int) {
        let i = choose|i: int| 0 <= i < s.len() && !#[trigger] zoned_byte_valid(s, signed, i);
        assert(!(0x30 <= s[i] <= 0x39) && !(i == s.len() - 1 && signed && 0x70 <= s[i] <= 0x79));
    } else if s.len() > 0 {
        assert forall|i: int| 0 <= i < s.len() implies (0x30 <= #[trigger] s[i] <= 0x39) || (i
            == s.len() - 1 && signed && 0x70 <= s[i] <= 0x79) by {
            assert(zoned_byte_valid(s, signed, i));
        }
    }
}

/// A non-empty field of ASCII zeros decodes to zero, signed or not.
pub proof fn lemma_zoned_zero_digits(s: Seq<u8>, signed: bool)
    requires
        s.len() > 0,
        forall|i: int| 0 <= i < s.len() ==> s[i] == 0x30,
    ensures
        decode_zoned(s, signed) == Some(0int),
{
    let d = zoned_digits(s, signed);
    assert forall|j: int| 0 <= j < d.len() implies d[j] == 0 by {}
    lemma_decimal_value_zeros(d);
    assert(zoned_valid_upto(s, signed, s.len() as int));
}

/// Replacing one ASCII digit of a valid field by another changes the decoded mantissa by the
/// difference of the two digits times the byte's place value `10^(n-1-i)`; the change is negated
/// when the field is signed and ends in an overpunch.
pub proof fn lemma_zoned_digit_substitution(s: Seq<u8>, signed: bool, i: int, b: u8, v: int)
    requires
        decode_zoned(s, signed) == Some(v),
        0 <= i < s.len(),
        0x30 <= s[i] <= 0x39,
        0x30 <= b <= 0x39,
    ensures
        decode_zoned(s.update(i, b), signed) == Some(
            v + (if signed && 0x70 <= s[s.len() - 1] <= 0x79 {
                -1int
            } else {
                1int
            }) * ((b - s[i]) * pow10((s.len() - 1 - i) as nat)),
        ),
{
    let n = s.len();
    let t = s.update(i, b);
    let d = zoned_digits(s, signed);
    let p = pow10((n - 1 - i) as nat);
    let sgn: int = if signed && 0x70 <= s[n - 1] <= 0x79 {
        -1
    } else {
        1
    };
    lemma_decimal_value_update(d, i, (b - 0x30) as int);
    assert(d[i] == s[i] - 0x30);
    assert(zoned_digits(t, signed) =~= d.update(i, (b - 0x30) as int));
    assert(zoned_valid_upto(t, signed, n as int)) by {
        assert forall|j: int| 0 <= j < n implies #[trigger] zoned_byte_valid(t, signed, j) by {
            assert(zoned_byte_valid(s, signed, j));
        }
    }
    assert(zoned_is_negative(t, signed) == zoned_is_negative(s, signed));
    assert(zoned_value(t, signed) == v + sgn * ((b - s[i]) * p));
}

/// The field with its trailing byte replaced by `b`.
pub open spec fn with_trailing_byte(s: Seq<u8>, b: u8) -> Seq<u8> {
    s.update(s.len() - 1, b)
}

/// The overpunch `0x70 + d` in the trailing byte of a signed field carries the digit `d` with a
/// negative sign: it decodes to the negation of the same field ending in the plain digit
/// `0x30 + d`. A plain trailing digit decodes alike whether the field is signed or not, and an
/// unsigned field ending in an overpunch is rejected.
pub proof fn lemma_zoned_overpunch(s: Seq<u8>, d: u8)
    requires
        s.len() > 0,
        d <= 9,
    ensures
        decode_zoned(with_trailing_byte(s, (0x70 + d) as u8), true) == negated(
            decode_zoned(with_trailing_byte(s, (0x30 + d) as u8), true),
        ),
        decode_zoned(with_trailing_byte(s, (0x30 + d) as u8), false) == decode_zoned(
            with_trailing_byte(s, (0x30 + d) as u8),
            true,
        ),
        decode_zoned(with_trailing_byte(s, (0x70 + d) as u8), false) is None,
{
    let last = s.len() - 1;
    let neg = with_trailing_byte(s, (0x70 + d) as u8);
    let pos = with_trailing_byte(s, (0x30 + d) as u8);
    assert(zoned_digits(neg, true) =~= zoned_digits(pos, true));
    assert(zoned_digits(pos, false) =~= zoned_digits(pos, true));
    assert(zoned_valid_upto(neg, true, s.len() as int) == zoned_valid_upto(pos, true, s.len() as int)) by {
        assert forall|j: int| 0 <= j < s.len() implies zoned_byte_valid(neg, true, j)
            == zoned_byte_valid(pos, true, j) by {}
    }
    assert(zoned_valid_upto(pos, false, s.len() as int) == zoned_valid_upto(pos, true, s.len() as int)) by {
        assert forall|j: int| 0 <= j < s.len() implies zoned_byte_valid(pos, false, j)
            == zoned_byte_valid(pos, true, j) by {}
    }
    assert(!zoned_byte_valid(neg, false, last));
}

/// The scalar decoder accumulates digit after digit and stops at the first invalid byte; this
/// holds when every value it accumulates on the way fits in an `i128`.
pub open spec fn zoned_scalar_in_range(s: Seq<u8>, signed: bool) -> bool {
    forall|k: int|
        0 <= k <= s.len() && zoned_valid_upto(s, signed, k) ==> decimal_value(
            #[trigger] zoned_digits(s, signed).take(k),
        ) <= i128_max()
}

/// A zoned field of at most 38 bytes is always in range for the decoders.
pub proof fn lemma_short_zoned_field_in_range(s: Seq<u8>, signed: bool)
    requires
        s.len() <= 38,
    ensures
        zoned_scalar_in_range(s, signed),
{
    let d = zoned_digits(s, signed);
    assert forall|k: int| 0 <= k <= s.len() && zoned_valid_upto(s, signed, k) implies decimal_value(
        #[trigger] d.take(k),
    ) <= i128_max() by {
        assert forall|j: int| 0 <= j < k implies 0 <= #[trigger] d.take(k)[j] <= 9 by {
            assert(zoned_byte_valid(s, signed, j));
        }
        lemma_short_decimal_fits(d.take(k));
    }
}

/// Decodes one ASCII zoned-decimal field to its unscaled mantissa (the scalar reference).
pub fn decode_zoned_ascii_scalar(bytes: &[u8], signed: bool) -> (r: Option<i128>)
    requires
        zoned_scalar_in_range(bytes@, signed),
    ensures
        widen(r) == decode_zoned(bytes@, signed),
{
    if bytes.len() == 0 {
        return None;
    }
    let ghost d = zoned_digits(bytes@, signed);
    let last: usize = bytes.len() - 1;
    let mut acc: i128 = 0;
    let mut negative: bool = false;
    let mut i: usize = 0;
    while i < bytes.len()
        invariant
            last + 1 == bytes.len(),
            d == zoned_digits(bytes@, signed),
            zoned_scalar_in_range(bytes@, signed),
            i <= bytes.len(),
            0 <= acc,
            zoned_valid_upto(bytes@, signed, i as int),
            acc == decimal_value(d.take(i as int)),
            negative == (i == bytes.len() && zoned_overpunched_at(bytes@, signed, last as int)),
        decreases bytes.len() - i,
    {
        let b = bytes[i];
        let digit: i128;
        if i == last && signed && 0x70 <= b && b <= 0x79 {
            negative = true;
            digit = (b - 0x70) as i128;
        } else if 0x30 <= b && b <= 0x39 {
            digit = (b - 0x30) as i128;
        } else {
            assert(!zoned_byte_valid(bytes@, signed, i as int));
            return None;
        }
        assert(d[i as int] == digit);
        proof {
            lemma_decimal_value_take_step(d, i as int);
            assert(zoned_valid_upto(bytes@, signed, i + 1));
        }
        acc = acc * 10 + digit;
        i = i + 1;
    }
    assert(d.take(d.len() as int) =~= d);
    if negative {
        acc = -acc;
    }
    Some(acc)
}

/// What the lane decoder returns for a field: `(mantissa, true)` when the field is non-empty and
/// every byte is valid, otherwise `(0, false)`.
pub open spec fn zoned_lane_result(s: Seq<u8>, signed: bool) -> (int, bool) {
    if s.len() > 0 && zoned_valid_upto(s, signed, s.len() as int) {
        (zoned_value(s, signed), true)
    } else {
        (0, false)
    }
}

proof fn lemma_low_nibble(b: u8)
    ensures
        b & 0x0Fu8 == b % 16,
{
    assert(b & 0x0Fu8 == b % 16) by (bit_vector);
}

/// Branch-light ASCII zoned decode of one field, for a fixed-count lane loop: it never leaves the
/// loop early and reports validity as a flag instead. Once an invalid byte is seen the
/// accumulator is held at zero, so a corrupt field cannot overflow it.
pub fn zoned_lane(field: &[u8], signed: bool) -> (r: (i128, bool))
    requires
        zoned_scalar_in_range(field@, signed),
    ensures
        (r.0 as int, r.1) == zoned_lane_result(field@, signed),
{
    if field.len() == 0 {
        return (0, false);
    }
    let ghost d = zoned_digits(field@, signed);
    let last: usize = field.len() - 1;
    let mut acc: i128 = 0;
    let mut ok: bool = true;
    let mut negative: bool = false;
    let mut i: usize = 0;
    while i < field.len()
        invariant
            last + 1 == field.len(),
            d == zoned_digits(field@, signed),
            zoned_scalar_in_range(field@, signed),
            i <= field.len(),
            0 <= acc,
            ok == zoned_valid_upto(field@, signed, i as int),
            acc == (if ok {
                decimal_value(d.take(i as int))
            } else {
                0
            }),
            negative == (i == field.len() && zoned_overpunched_at(field@, signed, last as int)),
        decreases field.len() - i,
    {
        let b = field[i];
        let is_overpunch = i == last && signed && (0x70 <= b && b <= 0x79);
        let is_digit = 0x30 <= b && b <= 0x39;
        let byte_ok = is_overpunch || is_digit;
        ok = ok && byte_ok;
        let digit: i128 = if is_overpunch {
            negative = true;
            (b - 0x70) as i128
        } else {
            proof {
                lemma_low_nibble(b);
            }
            (b & 0x0F) as i128
        };
        assert(d[i as int] == digit);
        proof {
            lemma_decimal_value_take_step(d, i as int);
            assert(zoned_valid_upto(field@, signed, i + 1) == (zoned_valid_upto(
                field@,
                signed,
                i as int,
            ) && zoned_byte_valid(field@, signed, i as int)));
        }
        acc = if ok { acc * 10 + digit } else { 0 };
        i = i + 1;
    }
    assert(d.take(d.len() as int) =~= d);
    if negative {
        acc = -acc;
    }
    (acc, ok)
}

/// Every decoded record's field is in range for the scalar decoder.
pub open spec fn zoned_batch_in_range(
    buf: Seq<u8>,
    stride: usize,
    field_offset: usize,
    field_len: usize,
    signed: bool,
) -> bool {
    forall|r: int|
        0 <= r < record_count(buf.len() as int, stride as int, field_offset as int, field_len as int)
            ==> zoned_scalar_in_range(
            #[trigger] record_field(buf, stride as int, field_offset as int, field_len as int, r),
            signed,
        )
}

/// When every field is at most 38 bytes long, every buffer is in range for the zoned batch kernel.
pub proof fn lemma_short_zoned_fields_in_range(
    buf: Seq<u8>,
    stride: usize,
    field_offset: usize,
    field_len: usize,
    signed: bool,
)
    requires
        field_len <= 38,
    ensures
        zoned_batch_in_range(buf, stride, field_offset, field_len, signed),
{
    assert forall|r: int|
        0 <= r < record_count(
            buf.len() as int,
            stride as int,
            field_offset as int,
            field_len as int,
        ) implies zoned_scalar_in_range(
        #[trigger] record_field(buf, stride as int, field_offset as int, field_len as int, r),
        signed,
    ) by {
        lemma_record_field_within_buffer(
            buf.len() as int,
            stride as int,
            field_offset as int,
            field_len as int,
            r,
        );
        lemma_short_zoned_field_in_range(
            record_field(buf, stride as int, field_offset as int, field_len as int, r),
            signed,
        );
    }
}

/// The lane decoder, read through its `ok` flag, decodes a zoned field exactly as the scalar
/// reference does.
pub proof fn lemma_zoned_lane_agrees_with_scalar(s: Seq<u8>, signed: bool)
    ensures
        lane_option(zoned_lane_result(s, signed)) == decode_zoned(s, signed),
{
}

/// Decodes the `field_len` bytes at `field_offset` of every `record_stride`-byte record in `buf`
/// as an ASCII zoned field. `out` is cleared first and then holds one result per whole record,
/// in record order, each equal to what the scalar reference gives for that record's field.
pub fn decode_zoned_ascii_batch(
    buf: &[u8],
    record_stride: usize,
    field_offset: usize,
    field_len: usize,
    signed: bool,
    out: &mut Vec<Option<i128>>,
)
    requires
        zoned_batch_in_range(buf@, record_stride, field_offset, field_len, signed),
    ensures
        final(out)@.len() == record_count(
            buf@.len() as int,
            record_stride as int,
            field_offset as int,
            field_len as int,
        ),
        record_stride > 0 && field_len > 0 && field_offset + field_len <= record_stride
            ==> final(out)@.len() == buf.len() / record_stride,
        !(record_stride > 0 && field_len > 0 && field_offset + field_len <= record_stride)
            ==> final(out)@.len() == 0,
        forall|r: int|
            0 <= r < final(out)@.len() ==> widen(#[trigger] final(out)@[r]) == decode_zoned(
                record_field(buf@, record_stride as int, field_offset as int, field_len as int, r),
                signed,
            ),
{
    out.clear();
    if record_stride == 0 || field_len == 0 {
        return;
    }
    let records = whole_records(buf.len(), record_stride, field_offset, field_len);
    out.reserve(records);

    let chunks = records / LANES;
    let ghost n = records as int;

    let mut c: usize = 0;
    while c < chunks
        invariant
            n == record_count(buf@.len() as int, record_stride as int, field_offset as int, field_len as int),
            records == n,
            chunks == records / LANES,
            c <= chunks,
            zoned_batch_in_range(buf@, record_stride, field_offset, field_len, signed),
            out@.len() == c * LANES,
            forall|r: int|
                0 <= r < out@.len() ==> widen(#[trigger] out@[r]) == decode_zoned(
                    record_field(buf@, record_stride as int, field_offset as int, field_len as int, r),
                    signed,
                ),
        decreases chunks - c,
    {
        let mut lane_vals = [0i128; LANES];
        let mut lane_ok = [false; LANES];
        let mut l: usize = 0;
        while l < LANES
            invariant
                n == record_count(buf@.len() as int, record_stride as int, field_offset as int, field_len as int),
                records == n,
                chunks == records / LANES,
                c < chunks,
                l <= LANES,
                zoned_batch_in_range(buf@, record_stride, field_offset, field_len, signed),
                forall|m: int|
                    0 <= m < l ==> (lane_vals@[m] as int, lane_ok@[m]) == zoned_lane_result(
                        record_field(buf@, record_stride as int, field_offset as int, field_len as int, c * LANES + m),
                        signed,
                    ),
            decreases LANES - l,
        {
            let r = c * LANES + l;
            proof {
                lemma_record_field_within_buffer(
                    buf@.len() as int,
                    record_stride as int,
                    field_offset as int,
                    field_len as int,
                    r as int,
                );
                assert(buf@.len() == buf.len());
                assert(r * record_stride + field_offset + field_len <= buf.len());
            }
            let start = r * record_stride + field_offset;
            let field = vstd::slice::slice_subrange(buf, start, start + field_len);
            assert(field@ == record_field(buf@, record_stride as int, field_offset as int, field_len as int, r as int));
            let (v, ok) = zoned_lane(field, signed);
            lane_vals[l] = v;
            lane_ok[l] = ok;
            l = l + 1;
        }
        let mut l: usize = 0;
        while l < LANES
            invariant
                c < chunks,
                l <= LANES,
                    out@.len() == c * LANES + l,
                forall|m: int|
                    0 <= m < LANES ==> (lane_vals@[m] as int, lane_ok@[m]) == zoned_lane_result(
                        record_field(buf@, record_stride as int, field_offset as int, field_len as int, c * LANES + m),
                        signed,
                    ),
                forall|r: int|
                    0 <= r < out@.len() ==> widen(#[trigger] out@[r]) == decode_zoned(
                        record_field(buf@, record_stride as int, field_offset as int, field_len as int, r),
                        signed,
                    ),
            decreases LANES - l,
        {
            let res = if lane_ok[l] { Some(lane_vals[l]) } else { None };
            proof {
                lemma_zoned_lane_agrees_with_scalar(
                    record_field(buf@, record_stride as int, field_offset as int, field_len as int, c * LANES + l),
                    signed,
                );
            }
            out.push(res);
            l = l + 1;
        }
        c = c + 1;
    }
    let mut r: usize = chunks * LANES;
    while r < records
        invariant
            n == record_count(buf@.len() as int, record_stride as int, field_offset as int, field_len as int),
            records == n,
            r <= records,
            zoned_batch_in_range(buf@, record_stride, field_offset, field_len, signed),
            out@.len() == r,
            forall|q: int|
                0 <= q < out@.len() ==> widen(#[trigger] out@[q]) == decode_zoned(
                    record_field(buf@, record_stride as int, field_offset as int, field_len as int, q),
                    signed,
                ),
        decreases records - r,
    {
        proof {
            lemma_record_field_within_buffer(
                buf@.len() as int,
                record_stride as int,
                field_offset as int,
                field_len as int,
                r as int,
            );
            assert(buf@.len() == buf.len());
            assert(r * record_stride + field_offset + field_len <= buf.len());
        }
        let start = r * record_stride + field_offset;
        let field = vstd::slice::slice_subrange(buf, start, start + field_len);
        assert(field@ == record_field(buf@, record_stride as int, field_offset as int, field_len as int, r as int));
        let (v, ok) = zoned_lane(field, signed);
        proof {
            lemma_zoned_lane_agrees_with_scalar(field@, signed);
        }
        out.push(if ok { Some(v) } else { None });
        r = r + 1;
    }
}

} // verus!
