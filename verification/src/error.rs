use vstd::prelude::*;

verus! {

/// Why a message could not be decoded, encoded or relayed.
#[derive(Clone, Copy, Debug, PartialEq, Eq, Structural)]
pub enum DnsError {
    /// An access reached the end of the 512-byte buffer.
    OutOfBounds,
    /// A name led through more compression pointers than the limit allows.
    TooManyJumps,
    /// The message contradicts itself: a label claims more bytes than the buffer holds.
    MalformedMessage,
    /// A label of a name to be written is longer than 63 bytes.
    LabelTooLong,
    /// The datagram transport failed to send or to receive.
    TransportFailure,
}

impl DnsError {
    /// A short description of the error.
    pub fn message(&self) -> (text: &'static str)
        ensures
            text@ == match *self {
                DnsError::OutOfBounds => "end of buffer"@,
                DnsError::TooManyJumps => "limit of 5 jumps exceeded"@,
                DnsError::MalformedMessage => "label runs past the end of the buffer"@,
                DnsError::LabelTooLong => "single label exceeds 63 bytes"@,
                DnsError::TransportFailure => "transport failure"@,
            },
    {
        match *self {
            DnsError::OutOfBounds => "end of buffer",
            DnsError::TooManyJumps => "limit of 5 jumps exceeded",
            DnsError::MalformedMessage => "label runs past the end of the buffer",
            DnsError::LabelTooLong => "single label exceeds 63 bytes",
            DnsError::TransportFailure => "transport failure",
        }
    }
}

} // verus!
