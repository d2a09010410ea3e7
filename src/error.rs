use vstd::prelude::*;

verus! {

/// What can go wrong while framing or reading back a block stream.
#[derive(Debug, Clone, Copy, PartialEq, Eq, Structural)]
pub enum PipelineError {
    /// The block size is zero; nothing was written.
    InvalidConfiguration,
    /// A sink or source operation failed.
    IOError,
    /// A frame's length field or payload ends before it is complete.
    TruncatedStream,
    /// The codec could not decode a frame's payload.
    CorruptData,
}

} // verus!
