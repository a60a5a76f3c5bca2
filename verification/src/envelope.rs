//! The bech32 envelope: a prefix, the separator `1`, the payload regrouped
//! into five-bit characters, and a six-character checksum. The regrouping
//! and the checksum are the `bech32` crate's work; this module states what
//! the codec relies on.

use vstd::prelude::*;

verus! {

/// The longest text that the checksum protects.
pub const CODE_LENGTH: usize = 1023;

/// The number of checksum characters at the end of a text.
pub const CHECKSUM_LENGTH: usize = 6;

/// The character between the prefix and the data.
pub const SEPARATOR: char = '1';

/// The longest prefix that the format admits.
pub const MAX_PREFIX_LEN: usize = 83;

/// Why a text could not be opened.
#[derive(Debug, Clone, Copy, PartialEq, Eq, Structural)]
pub enum EnvelopeError {
    /// No separator, a character outside the alphabet, mixed case, or a
    /// prefix that the format does not admit.
    Malformed,
    /// The characters are in order but the checksum is not the one that
    /// belongs to them.
    Checksum,
}

/// A prefix that can be written and read back unchanged: 1 to 83 printable
/// ASCII characters, none of them an upper-case letter.
pub open spec fn valid_prefix(hrp: Seq<char>) -> bool {
    &&& 1 <= hrp.len() <= MAX_PREFIX_LEN
    &&& forall|i: int|
        0 <= i < hrp.len() ==> {
            &&& 33 <= (#[trigger] hrp[i]) as u32 <= 126
            &&& !('A' <= hrp[i] <= 'Z')
        }
}

/// The number of characters of the text for a prefix and a payload: the
/// prefix, the separator, one character for every five bits of payload
/// (the last one padded), and the checksum.
pub open spec fn encoded_len(hrp: Seq<char>, payload: Seq<u8>) -> int {
    hrp.len() + 1 + (payload.len() * 8 + 4) / 5 + CHECKSUM_LENGTH
}

/// A text that opened: its prefix and its payload.
pub open spec fn parts(hrp: Seq<char>, payload: Seq<u8>) -> Result<
    (Seq<char>, Seq<u8>),
    EnvelopeError,
> {
    Ok((hrp, payload))
}

/// The mathematical content of an opened text, or of the refusal.
pub open spec fn opened_view(opened: Result<(String, Vec<u8>), EnvelopeError>) -> Result<
    (Seq<char>, Seq<u8>),
    EnvelopeError,
> {
    match opened {
        Ok((hrp, payload)) => parts(hrp@, payload@),
        Err(e) => Err(e),
    }
}

/// The text that `bech32::encode` writes for a prefix and a payload with
/// the bech32 checksum.
pub uninterp spec fn bech32_text(hrp: Seq<char>, payload: Seq<u8>) -> Seq<char>;

/// What `bech32::primitives::decode::CheckedHrpstring` finds in a text
/// under the bech32 checksum: the prefix in lower case and the payload, or
/// the reason for refusing it.
pub uninterp spec fn bech32_parts(text: Seq<char>) -> Result<(Seq<char>, Seq<u8>), EnvelopeError>;

/// Calls `bech32::encode` with the bech32 checksum.
///
/// Taken on trust from the crate's source: the call succeeds exactly when
/// the text would be at most 1023 characters long; the text it writes
/// depends on the prefix and the payload alone, has the length that
/// `encoded_len` gives and starts with the prefix and the separator; and
/// that text opens again to the same prefix and the same payload. The
/// prefix is handed over with `Hrp::parse_unchecked`, which keeps every
/// admitted character as it is.
#[verifier::external_body]
pub(crate) fn bech32_encode(hrp: &str, payload: &[u8]) -> (r: Option<String>)
    requires
        valid_prefix(hrp@),
        payload@.len() * 8 + 4 <= usize::MAX,
    ensures
        r is Some <==> encoded_len(hrp@, payload@) <= CODE_LENGTH,
        r matches Some(text) ==> text@ == bech32_text(hrp@, payload@),
        r matches Some(text) ==> text@.len() == encoded_len(hrp@, payload@),
        r matches Some(text) ==> hrp@.push(SEPARATOR).is_prefix_of(text@),
        r matches Some(text) ==> bech32_parts(text@) == parts(hrp@, payload@),
{
    bech32::encode::<bech32::Bech32>(bech32::Hrp::parse_unchecked(hrp), payload).ok()
}

/// Calls `bech32::primitives::decode::CheckedHrpstring::new` with the
/// bech32 checksum and reads the prefix and the payload off the result.
///
/// Taken on trust from the crate's source: the outcome depends on the text
/// alone. A failure of the checksum is told apart from every other failure.
#[verifier::external_body]
pub(crate) fn bech32_decode(text: &str) -> (r: Result<(String, Vec<u8>), EnvelopeError>)
    ensures
        bech32_parts(text@) == opened_view(r),
{
    match bech32::primitives::decode::CheckedHrpstring::new::<bech32::Bech32>(text) {
        Ok(checked) => Ok((checked.hrp().to_lowercase(), checked.byte_iter().collect())),
        Err(bech32::primitives::decode::CheckedHrpstringError::Checksum(_)) => Err(
            EnvelopeError::Checksum,
        ),
        Err(_) => Err(EnvelopeError::Malformed),
    }
}

} // verus!
