//! A ULID codec: 128-bit identifiers made of a 48-bit millisecond timestamp
//! over an 80-bit payload, together with their canonical 26-character
//! Crockford Base32 text form. Encoding, decoding, payload selection and the
//! decimal view of the payload are verified; the clock, the random source
//! and the civil calendar are read through narrow trusted wrappers.

pub mod codec;
pub mod commands;
pub mod datetime;
pub mod decimal;
pub mod ulid;

use vstd::prelude::*;

verus! {

/// Entry point of the library: a stateless handle that owns no data.
pub struct UlidPlugin;

impl UlidPlugin {
    pub fn new() -> (p: UlidPlugin) {
        UlidPlugin
    }
}

} // verus!
