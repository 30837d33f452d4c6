use vstd::prelude::*;

verus! {

/// The wire shape that a native value is encoded as.
#[derive(Debug, PartialEq, Eq)]
pub enum TypeDescriptor {
    U8T,
    U16T,
    U32T,
    U64T,
    /// An unsigned integer of the given width in bytes.
    UIntNT(u8),
    I8T,
    I16T,
    I32T,
    I64T,
    /// A signed integer of the given width in bytes.
    IntNT(u8),
    Bool,
    StrT,
    TimeT,
    DurationT,
    AddressT,
    NullableT(Box<TypeDescriptor>),
    ListT(Box<TypeDescriptor>),
    /// Two fields, one after the other.
    FieldsT(Box<TypeDescriptor>, Box<TypeDescriptor>),
}

} // verus!
