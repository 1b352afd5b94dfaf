use vstd::prelude::*;

verus! {

/// Why reading or writing a value failed.
#[derive(Debug, Clone, Copy, PartialEq, Eq, Structural)]
pub enum WireError {
    /// The input ended before the value was complete.
    UnexpectedEof,
    /// The bytes do not encode a value of the requested type.
    InvalidData,
    /// The length announced by the input reaches past the end of the buffer.
    OutOfBounds,
    /// The operation is not supported by this wire.
    Unsupported,
    /// The peer refused the access key of a forwarded wire.
    PermissionDenied,
    /// No wire is registered under the requested id.
    NotFound,
}

} // verus!
