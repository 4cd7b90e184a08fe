use vstd::prelude::*;

verus! {

/// The ways decoding a buffer or compiling an address pattern can fail.
#[derive(Clone, Copy, Debug, PartialEq, Eq, Structural)]
pub enum Error {
    /// Fewer bytes remain than a fixed-size field, or a string's padding, needs.
    TruncatedBuffer,
    /// No NUL terminator before the end of the buffer.
    UnterminatedString,
    /// A string's payload is not valid UTF-8.
    InvalidUtf8,
    /// A type-tag character with no decode rule.
    UnknownTypeTag,
    /// The type-tag string does not start with a comma.
    MalformedTypeTagString,
    /// The address pattern cannot be compiled.
    PatternSyntaxError,
}

} // verus!
