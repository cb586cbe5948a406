//! Packs printable ASCII text (space through underscore) into six bits per
//! character and unpacks it again.
//!
//! [`encode`] and [`decode`] are the raw transform over a byte buffer plus a
//! character count; [`DecSixbit`] pairs the two and adds a marker byte where the
//! packed bytes alone would not tell the count apart.

use vstd::prelude::*;

pub mod model;
pub mod laws;
mod encode;
mod decode;
pub mod envelope;

pub use encode::{encode, encode_unchecked};
pub use decode::{decode, decode_unchecked};
pub use envelope::DecSixbit;

verus! {

/// Errors of the checked encode and decode operations.
#[derive(Debug, Clone, Copy, PartialEq, Eq, PartialOrd, Ord, Hash)]
pub enum Error {
    /// The input holds a character outside the range space (32) to underscore (95).
    InvalidCharacter,
    /// The byte count does not match the packed size of the given character count.
    InvalidBytesLength,
}

} // verus!
