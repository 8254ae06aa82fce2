use vstd::prelude::*;

verus! {

/// What can go wrong while reading an EBML stream.
#[derive(Debug, Clone, Copy, PartialEq, Eq, Structural)]
pub enum EbmlError {
    /// A variable-length integer whose first byte asks for more than eight bytes.
    IntegerTooBig,
    /// Fewer bytes were left in the source than a header or a payload promised.
    Truncated,
    /// An element read as an unsigned integer has a payload longer than eight bytes.
    ElementTooBigForInteger,
    /// A payload read as text is not valid UTF-8.
    InvalidUtf8,
    /// The cursor cannot be moved to the requested position.
    Seek,
}

} // verus!
