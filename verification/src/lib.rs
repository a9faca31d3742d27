//! A bit-level binary codec for a family of compact, non-byte-aligned
//! record formats: a rhythm game's save data. Decoding walks a schema
//! field by field against a bit-addressable buffer, threading a
//! sibling-value table so that variable-length fields can size themselves
//! from already-decoded siblings; encoding concatenates each field's bits
//! and never consults the table. The behaviour of both directions is
//! specified exactly in `model`, and `laws` proves that decoding an
//! encoding returns the original value.
//!
//! - `bits`: the bit buffer and its sequence model.
//! - `value`: decoded values, errors, and the sibling-value table.
//! - `schema`: codecs, alignment, and length-resolution policies.
//! - `model`: the mathematical meaning of decode and encode.
//! - `codec`: the executable interpreter, specified against `model`.
//! - `laws`: the round-trip, packing, padding and truncation laws.
//! - `records`: the concrete record schemas of the save-data family.

pub mod bits;
pub mod codec;
pub mod laws;
pub mod model;
pub mod records;
pub mod schema;
pub mod value;
