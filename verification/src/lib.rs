//! Schema-driven codec for packed, bit-level binary wire formats.
//!
//! A [`schema::Schema`] describes a type's wire layout: scalar fields of
//! exact bit widths, reserved padding, fixed arrays, and optional or
//! variable-length fields governed by earlier control fields. From a schema
//! the library derives a matched pair of procedures — encode and decode —
//! together with static lower and upper bounds on the encoded size, all
//! running over an LSB-first bit-addressable view of a byte buffer.

pub mod api;
pub mod bits;
pub mod bounds;
pub mod codec;
pub mod decode;
pub mod encode;
pub mod error;
pub mod laws;
pub mod schema;
pub mod value;

pub use bits::BitReader;
pub use bits::BitWriter;
pub use bits::BufferTooSmall;
pub use bits::UnexpectedEndOfBits;
pub use error::FromBytesError;
pub use error::ReadErrorCause;
pub use error::ToBytesError;
pub use schema::Field;
pub use schema::FieldKind;
pub use schema::Schema;
pub use value::Val;
pub use value::Value;
