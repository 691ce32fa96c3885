use vstd::prelude::*;

verus! {

/// Why a packet could not be read, built or handled.
#[derive(Clone, Copy, Debug, PartialEq, Eq, Structural)]
pub enum QtError {
    /// A bulk transfer failed or the device went away.
    Transport,
    /// A length claims more bytes than the enclosing buffer holds.
    UnexpectedEof,
    /// An expected magic was not found where it had to be.
    MagicMismatch,
    /// A value is malformed: bad UTF-8, a boolean outside {0,1}, an unknown
    /// number subtype or magic, a length that cannot be encoded.
    InvalidValue,
    /// The consumer of sample buffers has gone away.
    ChannelClosed,
    /// A message arrived that needs state which has not been set up yet.
    Protocol,
}

} // verus!
