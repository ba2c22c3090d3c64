//! The error taxonomy of the codec.

use vstd::prelude::*;

verus! {

/// Everything that can go wrong while encoding or decoding a message.
#[derive(Clone, Copy, PartialEq, Eq, Structural, Debug)]
pub enum HttpError {
    /// The input message cannot be encoded (no host to derive a `host`
    /// header from, or a body whose length is unknown, for which chunked
    /// request encoding is not provided).
    InvalidInput,
    /// The accumulated bytes do not form a valid message head.
    MalformedHead,
    /// The head names a protocol version other than HTTP/1.1.
    UnsupportedVersion,
    /// The headers carry both `content-length` and `transfer-encoding`,
    /// which leaves the body framing ambiguous.
    AmbiguousFraming,
    /// A chunk-size line, a chunk terminator or the trailer block of a
    /// chunked body is malformed.
    MalformedChunk,
    /// The input ended where a message (or the rest of one) was expected.
    ConnectionClosed,
}

impl HttpError {
    /// A short human-readable description of the error.
    pub fn describe(&self) -> (r: &'static str)
        ensures
            r@.len() > 0,
    {
        proof {
            reveal_strlit("invalid input");
            reveal_strlit("malformed HTTP head");
            reveal_strlit("unsupported HTTP version");
            reveal_strlit("ambiguous body framing");
            reveal_strlit("malformed chunk");
            reveal_strlit("connection closed");
        }
        match self {
            HttpError::InvalidInput => "invalid input",
            HttpError::MalformedHead => "malformed HTTP head",
            HttpError::UnsupportedVersion => "unsupported HTTP version",
            HttpError::AmbiguousFraming => "ambiguous body framing",
            HttpError::MalformedChunk => "malformed chunk",
            HttpError::ConnectionClosed => "connection closed",
        }
    }
}

} // verus!
