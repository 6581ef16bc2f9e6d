use vstd::prelude::*;

verus! {

/// The failures the analyzer reports. Every one of them is scoped to the
/// packet, segment or stream in which it arises, except the last two, which
/// are raised before any traffic is read.
#[derive(Debug, Clone, Copy, PartialEq, Eq, Structural)]
pub enum SomeIPError {
    /// A layer of a frame could not be decoded.
    InvalidPacketFormat,
    /// A decoded structure lacks a field it needs.
    MissingField,
    /// A SomeIP-TP fragment is malformed or cannot be placed.
    TPSegmentError,
    /// A TCP stream is inconsistent.
    TCPStreamError,
    /// The name matrix could not be read.
    MatrixFileError,
    /// The command line does not describe a valid run.
    ConfigError,
}

} // verus!
