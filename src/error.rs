use vstd::prelude::*;

verus! {

/// The ways a decode can fail.
#[derive(Debug, Clone, Copy, PartialEq, Eq, Structural)]
pub enum Error {
    /// The buffer ended before the item that it began was complete.
    EOF,
    /// The leading byte of an item names no known kind of item.
    InvalidType { value: u8 },
    /// The bytes are laid out correctly but what they say is not acceptable
    /// (an integer out of range, bytes left over after a fixed tuple).
    InvalidData,
    /// A text payload is not valid UTF-8.
    FromUtf8Error,
}

} // verus!
