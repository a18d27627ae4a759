use vstd::prelude::*;

verus! {

/// Why a datagram could not be decoded.
#[derive(Clone, Copy, Debug, PartialEq, Eq, Structural)]
pub enum DecodeError {
    /// The buffer ends inside a fixed-width field.
    TruncatedInput,
    /// A label length byte is above 63 or runs past the end of the buffer.
    InvalidLabelLength,
    /// A compression pointer does not point strictly below its own offset and
    /// below the target of the pointer followed before it.
    PointerCycle,
    /// The buffer ends before a zero terminator or a pointer is found.
    UnterminatedName,
}

} // verus!
