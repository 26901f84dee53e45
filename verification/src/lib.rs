//! A compact, deterministic binary serialization core.
//!
//! Structured values (scalars, options, tuples, enums, sequences, maps, text,
//! byte blobs) are encoded positionally: fixed-width scalars in a chosen byte
//! order, lengths and enum discriminants as unsigned LEB128 varints. Decoding
//! reconstructs an equal value and rejects every malformed input (truncated
//! buffer, out-of-range discriminant, excess varint bits, invalid booleans,
//! invalid Unicode scalars, malformed UTF-8) without panicking.

pub mod cursor;
pub mod error;
pub mod laws;
pub mod leb128;
pub mod scalar;
pub mod value;
pub mod walk;

pub use error::Error;
pub use leb128::ULeb128;
pub use scalar::ByteOrder;
pub use value::Shape;
pub use value::Value;
pub use walk::dump_into_be_bytes;
pub use walk::dump_into_le_bytes;
pub use walk::load_from_be_bytes;
pub use walk::load_from_le_bytes;
