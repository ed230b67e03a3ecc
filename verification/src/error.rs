use vstd::prelude::*;

verus! {

/// Why a protobuf buffer could not be decoded.
#[derive(Debug, Clone, Copy, PartialEq, Eq)]
pub enum ProtobufError {
    /// A varint ran on past ten bytes.
    VarintTooLong,
    /// The buffer ended inside a varint.
    TruncatedVarint,
    /// A length-delimited field the message knows claims more bytes than remain.
    TruncatedBytes,
    /// A length-delimited field being skipped claims more bytes than remain.
    TruncatedSkip,
    /// A tag carries a wire type other than 0, 1, 2 or 5.
    UnknownWireType(u64),
}

} // verus!
