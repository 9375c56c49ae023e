# kobold_simd

Batched decoders for the two common COBOL numeric byte formats, written in Verus:

- **COMP-3 packed decimal**: two BCD digits per byte, most significant first, with the low nibble
  of the last byte as the sign (`0xD` negative, anything else positive).
- **ASCII zoned decimal** (`PIC 9 DISPLAY`): one digit `'0'..='9'` per byte; a signed field may
  end in a negative overpunch `0x70..=0x79`.

Each format has a scalar reference decoder, a branch-light lane decoder, and a batch kernel that
decodes one field of every fixed-stride record in a buffer, eight records per chunk. Decoders
return the unscaled mantissa as `i128`, or `None` for a malformed field.

## Layout

- `src/decimal.rs`: the value of a base-ten digit string, and bounds on it.
- `src/packed.rs`: the packed format's model, its scalar, lane and batch decoders, and its laws.
- `src/zoned.rs`: the same for the zoned format.
- `src/records.rs`: record geometry: how many records a buffer holds and where each field lies.
- `tests/`: concrete scenarios, including cross-checks of each batch kernel against its scalar
  reference.

## What is proved

- Each scalar decoder returns exactly what the format's model gives: the signed mantissa, or
  `None` on a wrong length or an invalid digit.
- Each lane decoder, read through its `ok` flag, equals its scalar reference.
- Each batch kernel clears its output and yields one result per whole record, equal to the scalar
  reference on that record's field; no field is read past the buffer or into the next record, and
  a byte outside one record's field does not change that record's result.
- The only precondition is that the values the decoders accumulate fit in an `i128`; public
  lemmas show this for packed fields of at most 19 bytes and zoned fields of at most 38 bytes.
