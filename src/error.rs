use vstd::prelude::*;

verus! {

/// Why a value could not be encoded.
#[derive(Debug, Clone, Copy, PartialEq, Eq, Structural)]
pub enum EncodeError {
    /// The output would grow past what the writer can hold.
    CapacityExceeded,
    /// A length does not fit in the format's 32-bit length field.
    LengthOverflow,
}

/// Why a buffer could not be decoded.
#[derive(Debug, Clone, Copy, PartialEq, Eq, Structural)]
pub enum DecodeError {
    /// The buffer ends before a fixed-size field is complete.
    Truncated,
    /// A length field points past the end of the buffer.
    LengthOutOfRange,
    /// A discriminant names no declared variant.
    UnknownVariant,
    /// A value lies outside the range that its type allows.
    InvalidValue,
}

} // verus!
