use vstd::prelude::*;

verus! {

/// Everything that can make a decode or an encode fail.
#[derive(Debug, Clone, Copy, PartialEq, Eq, Structural)]
pub enum Error {
    /// Fewer bytes remain than a fixed read demands.
    TruncatedInput,
    /// An index addresses outside the name table.
    NameIndexOutOfRange,
    /// A property's type name is outside the supported set.
    UnknownPropertyType,
    /// A field holds a value that its type does not allow.
    InvalidValue,
    /// A required archive entry is absent.
    MissingRequiredArchiveEntry,
    /// The archive itself cannot be read or written.
    ContainerFormatError,
    /// A length does not fit in the field that records it.
    ValueOutOfRange,
}

} // verus!
