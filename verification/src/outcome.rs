//! What decoding comes to.

use vstd::prelude::*;

verus! {

/// The outcome of decoding bytes.
pub enum Outcome<T> {
    /// The bytes stand for this value.
    Decoded(T),
    /// The bytes are rejected.
    Malformed,
    /// The bytes call for more bytes than there are.
    OutOfBounds,
}

} // verus!
