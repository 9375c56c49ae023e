//! Batched decoders for the two common COBOL numeric byte formats: COMP-3 packed decimal and
//! ASCII zoned decimal (`PIC 9 DISPLAY`). Each format has a scalar reference decoder and a
//! lane-shaped batch kernel. On every buffer whose record fields the scalar reference can decode
//! without overflowing an `i128` (always so for packed fields of up to 19 bytes and zoned fields
//! of up to 38), each batch kernel is proved to agree with its scalar reference record for record.
pub mod decimal;
pub mod packed;
pub mod records;
pub mod zoned;

pub use packed::{decode_packed_batch, decode_packed_scalar, packed_lane};
pub use records::LANES;
pub use zoned::{decode_zoned_ascii_batch, decode_zoned_ascii_scalar, zoned_lane};
