//! Fixed-stride records: how many a buffer holds and where each one's field lies.
use vstd::prelude::*;

verus! {

/// Records decoded per chunk in the batch kernels' inner loop. Fixed, not data-dependent, so the
/// lane loop has a constant trip count.
pub const LANES: usize = 8;

/// How many records of `stride` bytes a buffer of `buf_len` bytes holds whole, when the field
/// `[field_offset, field_offset + field_len)` lies inside a record; none when the field reaches
/// past the record's end.
pub open spec fn whole_record_count(buf_len: int, stride: int, field_offset: int, field_len: int) -> int {
    if field_offset + field_len > stride {
        0
    } else {
        buf_len / stride
    }
}

/// How many results a batch call produces: none for a zero stride or an empty field, else one
/// per whole record.
pub open spec fn record_count(buf_len: int, stride: int, field_offset: int, field_len: int) -> int {
    if stride == 0 || field_len == 0 {
        0
    } else {
        whole_record_count(buf_len, stride, field_offset, field_len)
    }
}

/// Where record `r`'s field starts in the buffer.
pub open spec fn field_start(stride: int, field_offset: int, r: int) -> int {
    r * stride + field_offset
}

/// The bytes of record `r`'s field.
pub open spec fn record_field(
    buf: Seq<u8>,
    stride: int,
    field_offset: int,
    field_len: int,
    r: int,
) -> Seq<u8> {
    buf.subrange(
        field_start(stride, field_offset, r),
        field_start(stride, field_offset, r) + field_len,
    )
}

/// Every record that a batch call decodes has its whole field inside the buffer, and inside its
/// own record: no field is read past the buffer's end or across into the next record.
pub proof fn lemma_record_field_within_buffer(
    buf_len: int,
    stride: int,
    field_offset: int,
    field_len: int,
    r: int,
)
    requires
        0 <= buf_len,
        0 <= field_offset,
        0 <= field_len,
        0 <= r < record_count(buf_len, stride, field_offset, field_len),
    ensures
        0 <= r * stride <= field_start(stride, field_offset, r),
        field_start(stride, field_offset, r) + field_len <= (r + 1) * stride,
        (r + 1) * stride <= buf_len,
{
    assert(0 < stride);
    let q = buf_len / stride;
    assert(q * stride <= buf_len) by (nonlinear_arith)
        requires
            q == buf_len / stride,
            0 < stride,
            0 <= buf_len,
    ;
    assert((r + 1) * stride <= q * stride) by (nonlinear_arith)
        requires
            r + 1 <= q,
            0 < stride,
    ;
    assert((r + 1) * stride == r * stride + stride) by (nonlinear_arith);
    assert(0 <= r * stride) by (nonlinear_arith)
        requires
            0 <= r,
            0 < stride,
    ;
}

/// Whole records whose field lies fully inside both the buffer and the record.
pub(crate) fn whole_records(buf_len: usize, stride: usize, field_offset: usize, field_len: usize) -> (r: usize)
    requires
        stride > 0,
    ensures
        r == whole_record_count(buf_len as int, stride as int, field_offset as int, field_len as int),
{
    let field_end = match field_offset.checked_add(field_len) {
        Some(e) => e,
        None => return 0,
    };
    if field_end > stride {
        return 0;
    }
    buf_len / stride
}

/// Changing a byte outside record `r`'s field leaves that field, and the number of records,
/// unchanged: a corrupt byte in one record cannot disturb another record's result.
pub proof fn lemma_field_unaffected_by_other_bytes(
    buf: Seq<u8>,
    stride: int,
    field_offset: int,
    field_len: int,
    r: int,
    p: int,
    x: u8,
)
    requires
        0 <= field_offset,
        0 <= field_len,
        0 <= r < record_count(buf.len() as int, stride, field_offset, field_len),
        0 <= p < buf.len(),
        p < field_start(stride, field_offset, r) || field_start(stride, field_offset, r)
            + field_len <= p,
    ensures
        record_count(buf.update(p, x).len() as int, stride, field_offset, field_len)
            == record_count(buf.len() as int, stride, field_offset, field_len),
        record_field(buf.update(p, x), stride, field_offset, field_len, r) == record_field(
            buf,
            stride,
            field_offset,
            field_len,
            r,
        ),
{
    lemma_record_field_within_buffer(buf.len() as int, stride, field_offset, field_len, r);
    assert(record_field(buf.update(p, x), stride, field_offset, field_len, r) =~= record_field(
        buf,
        stride,
        field_offset,
        field_len,
        r,
    ));
}

/// A batch call yields one result per whole record of the buffer when the stride and field are
/// non-empty and the field lies inside the record, and none otherwise.
pub proof fn lemma_record_count_is_whole_records(
    buf_len: int,
    stride: int,
    field_offset: int,
    field_len: int,
)
    requires
        0 <= buf_len,
        0 <= stride,
        0 <= field_offset,
        0 <= field_len,
    ensures
        stride > 0 && field_len > 0 && field_offset + field_len <= stride ==> record_count(
            buf_len,
            stride,
            field_offset,
            field_len,
        ) == buf_len / stride,
        !(stride > 0 && field_len > 0 && field_offset + field_len <= stride) ==> record_count(
            buf_len,
            stride,
            field_offset,
            field_len,
        ) == 0,
{
}

/// Record `r`'s field is the `field_len` bytes starting at byte `r * stride + field_offset`.
pub proof fn lemma_record_field_bytes(
    buf: Seq<u8>,
    stride: int,
    field_offset: int,
    field_len: int,
    r: int,
)
    requires
        0 <= field_offset,
        0 <= field_len,
        0 <= r < record_count(buf.len() as int, stride, field_offset, field_len),
    ensures
        record_field(buf, stride, field_offset, field_len, r).len() == field_len,
        forall|j: int|
            0 <= j < field_len ==> #[trigger] record_field(buf, stride, field_offset, field_len, r)[j]
                == buf[r * stride + field_offset + j],
{
    lemma_record_field_within_buffer(buf.len() as int, stride, field_offset, field_len, r);
}

} // verus!
