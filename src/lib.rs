//! A self-delimiting variable-length codec for 64-bit unsigned integers.
//!
//! A value is written into a fixed nine-byte window using one to nine bytes.
//! The position of the lowest set bit of the first byte announces how many
//! bytes are used; a zero first byte announces the nine-byte form, in which
//! bytes one to eight hold the value as a little-endian word.
pub mod partition;
pub mod le_bytes;
pub mod codec;
pub mod laws;

pub use codec::{decode, encode};
pub use le_bytes::{u64_from_high_eight, u64_from_low_eight};
pub use partition::{
    OFFSET0, OFFSET1, OFFSET2, OFFSET3, OFFSET4, OFFSET5, OFFSET6, OFFSET7, OFFSET8,
};
