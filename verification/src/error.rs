//! The failures that encoding and decoding a profile token can report.

use vstd::prelude::*;

verus! {

/// Every way in which a token, a payload or a record sequence can be rejected.
#[derive(Debug, Clone, Copy, PartialEq, Eq, Structural)]
pub enum Error {
    /// The payload cannot be split into whole tag-length-value records.
    MalformedTlv,
    /// The text is not a well-formed bech32 string.
    MalformedCharacters,
    /// The text is well formed but its checksum does not match.
    InvalidChecksum,
    /// No record carries the public key.
    MissingPublicKey,
    /// The record that carries the public key is not 32 bytes long.
    InvalidPublicKeyLength,
    /// A relay record does not hold valid UTF-8.
    InvalidRelayUtf8,
    /// The text carries another prefix than the expected one.
    UnknownPrefix,
    /// The profile does not fit into the format.
    EncodingTooLong,
}

} // verus!
