//! The mosh wire messages as hand-rolled protobuf codecs, and the decisions
//! of the `mosh-client` command.
//!
//! - `varint`: base-128 varints, written and read.
//! - `wire`: field keys, length-delimited payloads, skipping, reading one
//!   field, and reading a message field by field.
//! - `pb`: the transport, host and user instructions: their models, wire
//!   forms, encoders and decoders.
//! - `roundtrip`: what decoding gives back of an encoding.
//! - `fields`: what each field means to a decoder, and each wire form
//!   spelled out field by field.
//! - `cli`: arguments, window sizes and input handling of the client.
//!
//! Every decoder takes any buffer except one holding a fixed-width field
//! (wire type 1 or 5) whose bytes run past the end of what contains it;
//! `decode_overruns` and `decode_message_overruns` tell such a buffer apart.

pub mod cli;
pub mod error;
pub mod fields;
pub mod pb;
pub mod roundtrip;
pub mod varint;
pub mod wire;

pub use error::ProtobufError;
pub use pb::{HostInstruction, TransportInstruction, UserInstruction};
