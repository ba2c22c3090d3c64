//! A verified HTTP/1.1 message codec.
//!
//! The crate translates between structured messages (a head, a header set and
//! a body) and their wire form: it serialises messages into bytes that can be
//! streamed under arbitrary caller-chosen buffer sizes, and it decodes wire
//! bytes back into messages, deciding the body framing (none, fixed length or
//! chunked transfer-encoding) from the headers and running the chunked
//! decoder state machine including trailer delivery.

pub mod bytes;
pub mod chunked;
pub mod decode;
pub mod encode;
pub mod error;
pub mod framing;
pub mod headers;
pub mod parse;
pub mod roundtrip;
