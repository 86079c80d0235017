//! Variable-length integer codec in the LEB128 style: each byte carries seven
//! value bits, least significant group first, and a continuation flag in bit 7.
//!
//! A value may be written padded to a caller-chosen minimum length, so that an
//! encoded field can be overwritten in place without resizing the stream.

pub mod value;
pub mod model;
pub mod decode;
pub mod encode;
pub mod laws;

pub use value::Leb128;
pub use decode::{ByteSource, Leb128Error, ReadLeb128};
pub use encode::WriteLeb128;
