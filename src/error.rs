use vstd::prelude::*;

verus! {

/// Every way in which decoding can fail. Encoding never fails.
#[derive(Debug, Clone, Copy, PartialEq, Eq, Structural)]
pub enum Error {
    /// A read asked for more bytes than remain.
    EndOfInput,
    /// A string payload is not well-formed UTF-8.
    ConversionError,
    /// A decoded `u32` is not a Unicode scalar value.
    InvalidCodePoint,
    /// An integer width other than 1, 2, 4 or 8 bytes was requested.
    InvalidTypeSize,
    ExpectedStringDelimiter,
    ExpectedByteDelimiter,
    ExpectedUnit,
    ExpectedSeqDelimiter,
    ExpectedSeqValueDelimiter,
    ExpectedMapDelimiter,
    ExpectedMapKeyDelimiter,
    ExpectedMapValueDelimiter,
    ExpectedMapValueSeparator,
    ExpectedEnumDelimiter,
    /// A fixed-arity tuple or struct ended before all of its fields were read.
    LengthMismatch,
    /// An enum's variant index is not one of the schema's variants.
    UnknownVariant,
    /// A whole-buffer decode found bytes left after the value.
    TrailingBytes,
}

} // verus!
