//! Bit-precise, resumable codec for DSDL-style record types.
//!
//! A record is an ordered list of fields; each field is a primitive scalar,
//! a static array, a dynamic (variable-length) array, or a nested record.
//! Values are serialized into a bit-packed wire format, one bounded
//! transport-frame window at a time: a caller-owned cursor
//! `(flattened_field, bit)` lets serialization and deserialization suspend
//! when a window is exhausted and resume later without re-deriving state.
//!
//! Wire-format decisions (frozen):
//! - Bits within a scalar are emitted least-significant first: bit `i` of the
//!   wire image of a scalar with raw value `v` is `(v >> i) & 1`.
//! - Array elements follow each other with no padding.
//! - A dynamic array is preceded by a length prefix sized to hold its
//!   capacity, unless it is the final field of the whole transfer, in which
//!   case the prefix is omitted and the count is inferred from the bits that
//!   remain (tail-array optimization).

pub mod bits;
pub mod buffer;
pub mod classify;
pub mod types;
pub mod wire;
pub mod codec;
pub mod deser;
pub mod laws;
