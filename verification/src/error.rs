use vstd::prelude::*;

verus! {

/// The error type for sentinel stream processing.
#[derive(Debug, Clone, Copy, PartialEq, Eq, Structural)]
pub enum Error {
    /// A sentinel was expected at the cursor, and a byte there differs from it.
    SentinelNotFound,
    /// The frame is well formed, but its checksum field is not the checksum
    /// of its payload.
    ChecksumVerifyError,
    /// The buffer ends before the frame does, or a decimal field is empty or
    /// does not fit in 32 bits.
    MalformedFrame,
}

} // verus!
