//! The error taxonomy of the relay.  Every fault that terminates a connection
//! is one of these kinds.

use vstd::prelude::*;

verus! {

/// Why a connection, a decode, or a handshake failed.
#[derive(Debug, Clone, PartialEq, Eq)]
pub enum Error {
    /// The underlying transport failed or ended before the bytes that a frame
    /// still needed.
    Io,
    /// C2 did not echo the random segment of S1.
    HandshakeCorrupted,
    /// A three-byte timestamp field held a value above 0xFFFFFF (defensive;
    /// cannot be produced by a conforming reader).
    InvalidTimestamp,
    /// The first AMF value of a command message was not a string.
    NonStringCommand,
    /// An AMF value of an unexpected variant stood where a command argument
    /// was required.
    UnexpectedAmfObjectType,
    /// A data message whose first two strings were not `@setDataFrame` then
    /// `onMetaData`.
    UnknownDataMessage,
    /// A reassembled payload length did not match the header length.
    InconsistentMessageLength,
    /// An AMF-3 tagged command or data message.
    Amf3NotSupported,
    /// An AMF type marker that the decoder does not recognize, or a marker
    /// other than the one a decoder was told to expect.
    AmfIncorrectTypeMarker,
    /// An ECMA array that was not closed by the object-end marker.
    AmfIncorrectEndOfEcmaArray,
    /// A string on the wire that was not valid UTF-8.
    MalformedAmf,
    /// A command name outside the supported set.
    UnknownCommandMessage(String),
    /// A message with an unrecognized top-level type id.
    UnknownMessageTypeId(u8),
    /// A publisher delivered data before its stream entry existed.
    MissingMediaStream,
}

impl Error {
    /// A short human-readable description of the error kind.
    pub fn message(&self) -> String {
        match self {
            Error::Io => "I/O failure or truncated input".to_owned(),
            Error::HandshakeCorrupted => {
                "RTMP handshake failed with incorrect random digest".to_owned()
            },
            Error::InvalidTimestamp => "invalid chunk timestamp".to_owned(),
            Error::NonStringCommand => {
                "Receive AMF command message starting with non-string object".to_owned()
            },
            Error::UnexpectedAmfObjectType => "Receive unexpected AMF object type".to_owned(),
            Error::UnknownDataMessage => "unknown data message".to_owned(),
            Error::InconsistentMessageLength => {
                "reassembled payload does not match its announced length".to_owned()
            },
            Error::Amf3NotSupported => "AMF-3 encoded messages are not supported".to_owned(),
            Error::AmfIncorrectTypeMarker => "Receive unexpected AMF type marker".to_owned(),
            Error::AmfIncorrectEndOfEcmaArray => {
                "Expect end-of-object marker at the end of ECMA array".to_owned()
            },
            Error::MalformedAmf => "malformed AMF value".to_owned(),
            Error::UnknownCommandMessage(_) => "unknown command message".to_owned(),
            Error::UnknownMessageTypeId(_) => "unknown message type id".to_owned(),
            Error::MissingMediaStream => "no media stream for this connection".to_owned(),
        }
    }
}

} // verus!
