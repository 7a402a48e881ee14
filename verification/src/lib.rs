//! A verified codec for a length-prefixed message framing format that
//! carries JSON text payloads in the gRPC style: a one-byte compression
//! flag, a four-byte big-endian payload length, and the payload bytes.
//!
//! The crate provides the frame encoder, the frame decoder for unary
//! responses, the chunk-by-chunk decoder for server-streaming responses,
//! and the protocol status code table. Transport, argument handling and
//! presentation live outside the library.

pub mod codec;
pub mod status;
