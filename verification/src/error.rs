//! Typed failures of the protocol engine.
//!
//! A malformed inbound message is a `Decode` failure and never a panic; a
//! transport failure is fatal to its connection; a timeout is scoped to one
//! request (or, for the idle timeout, to the connection). Responses that
//! match no pending request are dropped silently and have no error kind.

use vstd::prelude::*;

verus! {

/// Why a wire buffer could not be decoded into a message.
#[derive(Clone, Copy, Debug, PartialEq, Eq, Structural)]
pub enum DecodeErrorKind {
    /// The buffer ended before the field being read.
    Truncated,
    /// A label length byte was above 63 or used a reserved tag.
    BadLabel,
    /// A decoded name would exceed 255 octets in wire form.
    NameTooLong,
    /// A compression pointer did not point strictly backward.
    BadPointer,
    /// A header count disagreed with the records actually present.
    CountMismatch,
}

/// Why a message could not be serialized to wire form.
#[derive(Clone, Copy, Debug, PartialEq, Eq, Structural)]
pub enum EncodeErrorKind {
    /// A label was empty or longer than 63 octets.
    BadLabel,
    /// A name would exceed 255 octets in wire form.
    NameTooLong,
    /// A section held more than 65535 entries.
    TooManyEntries,
    /// A record's data was longer than 65535 octets.
    DataTooLong,
    /// An opcode or response code exceeded its four-bit slot.
    FieldOverflow,
}

/// The one typed failure a caller sees for a request.
#[derive(Clone, Copy, Debug, PartialEq, Eq, Structural)]
pub enum DnsError {
    /// Malformed, truncated or invalid wire data.
    Decode(DecodeErrorKind),
    /// The message to send violates a wire constraint.
    Encode(EncodeErrorKind),
    /// An I/O failure on the underlying connection.
    Transport,
    /// A request outlived its deadline, or the connection its idle period.
    Timeout,
    /// The connection closed while the request was still pending.
    ConnectionClosed,
    /// Signature or chain verification failed; the answer is withheld.
    Validation,
}

impl DnsError {
    /// Whether the default retry policy treats this failure as transient.
    ///
    /// Transport and timeout failures are transient; malformed data and
    /// failed validation are properties of the exchange itself and are
    /// never retried.
    pub open spec fn spec_is_retryable(self) -> bool {
        match self {
            DnsError::Transport => true,
            DnsError::Timeout => true,
            DnsError::ConnectionClosed => true,
            _ => false,
        }
    }

    /// Executable form of the default retry classification.
    pub fn is_retryable(&self) -> (r: bool)
        ensures
            r == self.spec_is_retryable(),
    {
        match self {
            DnsError::Transport => true,
            DnsError::Timeout => true,
            DnsError::ConnectionClosed => true,
            _ => false,
        }
    }

    /// A short human-readable description of the failure.
    pub fn describe(&self) -> String {
        match self {
            DnsError::Decode(_) => "malformed wire data".to_string(),
            DnsError::Encode(_) => "message violates a wire constraint".to_string(),
            DnsError::Transport => "transport failure".to_string(),
            DnsError::Timeout => "deadline exceeded".to_string(),
            DnsError::ConnectionClosed => "connection closed".to_string(),
            DnsError::Validation => "validation failed".to_string(),
        }
    }
}

} // verus!
