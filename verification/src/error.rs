use vstd::prelude::*;

verus! {

/// Errors of the store and of the frame codec.
#[derive(Debug)]
pub enum KvError {
    /// A frame is too large to send, or too short to be decoded.
    FrameError,
    /// An internal failure, with a message.
    Internal(String),
    /// Compressing or decompressing a frame failed; the text is the cause.
    IoError(String),
}

} // verus!
