//! A verified codec for shareable profile tokens: a 32-byte public key and an
//! ordered list of relay addresses, framed as tag-length-value records and
//! wrapped in a checksummed bech32 envelope with the prefix `nprofile`.

pub mod error;
pub mod envelope;
pub mod profile;
pub mod tlv;
pub mod token;
