use vstd::prelude::*;

verus! {

/// A failure while decoding or encoding DNS wire data.
#[derive(Debug, Clone, Copy, PartialEq, Eq)]
pub enum ParseError {
    /// The buffer ended before the field being read.
    TruncatedInput,
    /// A name label longer than 63 bytes was handed to the encoder.
    LabelTooLong,
    /// A chain of compression pointers exceeded the configured bound.
    CompressionLoop,
    /// RDATA too short for the structure its record type requires.
    RdataLengthMismatch,
}

/// A failure of a whole resolution attempt.
#[derive(Debug, Clone, Copy, PartialEq, Eq)]
pub enum ResolutionError {
    /// A response could not be decoded.
    Parse(ParseError),
    /// An authoritative server answered with a non-zero RCODE (3 is NXDOMAIN).
    Protocol(u8),
    /// A referral carried no usable IPv4 glue record.
    NoGlue,
    /// The referral chain exceeded the configured depth bound.
    ReferralLoop,
    /// Sending or receiving a datagram failed; reported by the transport layer.
    Transport,
}

} // verus!
