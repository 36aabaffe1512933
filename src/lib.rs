//! Typed, prefix-qualified identifiers built on 128-bit sortable values.
//!
//! An identifier is written `{prefix}_{payload}`, where the payload is the
//! 26-character lowercase Crockford base-32 form of a 128-bit value whose high
//! 48 bits are a millisecond timestamp and whose low 80 bits are random.

pub mod codec;
pub mod entity;
pub mod prefix;
pub mod radix;
pub mod uuid_bytes;

pub use codec::{decode, encode, DecodeError};
pub use entity::{EntityId, TypedId, UuidBridge, DEFAULT_PREFIX};
pub use prefix::unprefix_id;
