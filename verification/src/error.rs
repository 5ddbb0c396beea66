use vstd::prelude::*;

verus! {

/// Why a byte stream was rejected as a pack container.
#[derive(Clone, Copy, Debug, PartialEq, Eq, Structural)]
pub enum FormatError {
    /// The first four bytes are not the container's magic number.
    BadMagic,
    /// The byte source ended before a required field or payload was complete.
    Truncated,
    /// The type tag of an object is none of 1, 2, 3, 4, 6, 7. Carries the tag.
    UnknownObjectType(u8),
    /// The payload of the object with the given index could not be inflated
    /// to its declared size.
    DecompressionFailed(u32),
    /// A variable-length integer is larger than the machine can hold: a base
    /// distance or a size above `usize::MAX`, or the size of a payload above
    /// `isize::MAX`, the most bytes one buffer can have.
    Overflow,
}

} // verus!
