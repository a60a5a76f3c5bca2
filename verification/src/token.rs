//! The profile token: the payload of a profile inside a bech32 envelope
//! with the prefix `nprofile`, and the same text behind the URI scheme
//! `nostr:`.

use vstd::prelude::*;
use vstd::string::{StrSliceExecFns, StringExecFns};

use crate::envelope::{
    bech32_decode, bech32_encode, bech32_parts, bech32_text, encoded_len, opened_view, parts,
    valid_prefix, EnvelopeError, CODE_LENGTH, SEPARATOR,
};
use crate::error::Error;
use crate::profile::{
    key_record, lemma_payload_round_trip, lemma_records_wf, payload_of, profile_of_payload,
    relay_records, result_view, Nip19Profile, ProfileView,
};
use crate::tlv::{lemma_records_bytes_single, records_bytes};

verus! {

/// The prefix of a profile token.
pub const PREFIX: &'static str = "nprofile";

/// The longest payload whose token the envelope still allows.
pub const MAX_PAYLOAD_LEN: usize = 630;

/// The scheme that a URI puts before the token.
pub const URI_SCHEME: &'static str = "nostr:";

/// The mathematical content of a text result.
pub open spec fn text_view(r: Result<String, Error>) -> Result<Seq<char>, Error> {
    match r {
        Ok(text) => Ok(text@),
        Err(e) => Err(e),
    }
}

/// The token of a profile: its payload in the envelope. A profile whose
/// payload cannot be framed, or whose token would be longer than the
/// envelope allows, has none.
pub open spec fn token_of(profile: ProfileView) -> Result<Seq<char>, Error> {
    match payload_of(profile) {
        Ok(payload) => if encoded_len(PREFIX@, payload) <= CODE_LENGTH {
            Ok(bech32_text(PREFIX@, payload))
        } else {
            Err(Error::EncodingTooLong)
        },
        Err(e) => Err(e),
    }
}

/// The profile in an opened envelope. A text that did not open gives the
/// envelope's reason; one that opened under another prefix is refused
/// before its payload is looked at.
pub open spec fn profile_of_opened(
    opened: Result<(Seq<char>, Seq<u8>), EnvelopeError>,
) -> Result<ProfileView, Error> {
    match opened {
        Ok((hrp, payload)) => if hrp == PREFIX@ {
            profile_of_payload(payload)
        } else {
            Err(Error::UnknownPrefix)
        },
        Err(EnvelopeError::Checksum) => Err(Error::InvalidChecksum),
        Err(EnvelopeError::Malformed) => Err(Error::MalformedCharacters),
    }
}

/// The profile that a token describes.
pub open spec fn profile_of_token(text: Seq<char>) -> Result<ProfileView, Error> {
    profile_of_opened(bech32_parts(text))
}

/// The URI of a profile: the scheme, then the token.
pub open spec fn uri_of(profile: ProfileView) -> Result<Seq<char>, Error> {
    match token_of(profile) {
        Ok(text) => Ok(URI_SCHEME@ + text),
        Err(e) => Err(e),
    }
}

/// The profile that a URI describes: the text has to start with the
/// scheme, letter for letter, and what follows is read as a token.
pub open spec fn profile_of_uri(uri: Seq<char>) -> Result<ProfileView, Error> {
    if URI_SCHEME@.is_prefix_of(uri) {
        profile_of_token(uri.skip(URI_SCHEME@.len() as int))
    } else {
        Err(Error::UnknownPrefix)
    }
}

/// The token prefix is one that the envelope admits, eight characters long.
pub proof fn lemma_prefix_valid()
    ensures
        valid_prefix(PREFIX@),
        PREFIX@.len() == 8,
{
    reveal_strlit("nprofile");
}

/// Takes the scheme off the front of a URI; `None` when the text does not
/// start with it.
pub fn strip_scheme(uri: &str) -> (r: Option<&str>)
    ensures
        match r {
            Some(rest) => URI_SCHEME@.is_prefix_of(uri@) && rest@ == uri@.skip(
                URI_SCHEME@.len() as int,
            ),
            None => !URI_SCHEME@.is_prefix_of(uri@),
        },
{
    let n = uri.unicode_len();
    let m = URI_SCHEME.unicode_len();
    if n < m {
        return None;
    }
    let mut i: usize = 0;
    while i < m
        invariant
            i <= m <= n,
            m == URI_SCHEME@.len(),
            n == uri@.len(),
            forall|j: int| 0 <= j < i ==> uri@[j] == URI_SCHEME@[j],
        decreases m - i,
    {
        if uri.get_char(i) != URI_SCHEME.get_char(i) {
            proof {
                assert(uri@.subrange(0, m as int)[i as int] != URI_SCHEME@[i as int]);
            }
            return None;
        }
        i += 1;
    }
    proof {
        assert(URI_SCHEME@ =~= uri@.subrange(0, m as int));
        assert(uri@.skip(m as int) =~= uri@.subrange(m as int, n as int));
    }
    Some(uri.substring_char(m, n))
}

impl Nip19Profile {
    /// Reads a profile off an opened envelope, or turns the envelope's
    /// refusal into the codec's error.
    pub fn from_opened(opened: Result<(String, Vec<u8>), EnvelopeError>) -> (r: Result<Self, Error>)
        ensures
            result_view(r) == profile_of_opened(opened_view(opened)),
    {
        match opened {
            Ok((hrp, payload)) => {
                let expected = String::from_str(PREFIX);
                if hrp == expected {
                    Self::from_payload(payload.as_slice())
                } else {
                    Err(Error::UnknownPrefix)
                }
            },
            Err(EnvelopeError::Checksum) => Err(Error::InvalidChecksum),
            Err(EnvelopeError::Malformed) => Err(Error::MalformedCharacters),
        }
    }

    /// Decodes a token.
    pub fn from_bech32(bech32: String) -> (r: Result<Self, Error>)
        ensures
            result_view(r) == profile_of_token(bech32@),
    {
        Self::from_opened(bech32_decode(bech32.as_str()))
    }

    /// Decodes a URI: the scheme `nostr:` followed by a token. A text that
    /// does not start with the scheme is `UnknownPrefix`.
    pub fn from_nostr_uri(uri: String) -> (r: Result<Self, Error>)
        ensures
            result_view(r) == profile_of_uri(uri@),
    {
        match strip_scheme(uri.as_str()) {
            Some(rest) => Self::from_opened(bech32_decode(rest)),
            None => Err(Error::UnknownPrefix),
        }
    }

    /// Encodes the profile as a token. Fails with `EncodingTooLong`
    /// exactly when a relay address is longer than 255 bytes or the token
    /// would be longer than 1023 characters. A token that is returned
    /// decodes to this profile.
    pub fn to_bech32(&self) -> (r: Result<String, Error>)
        ensures
            text_view(r) == token_of(self@),
            r matches Ok(text) ==> profile_of_token(text@) == Ok::<ProfileView, Error>(self@),
            r matches Ok(text) ==> PREFIX@.push(SEPARATOR).is_prefix_of(text@),
            r matches Ok(text) ==> text@.len() == encoded_len(PREFIX@, payload_of(self@)->Ok_0)
                && text@.len() <= CODE_LENGTH,
    {
        let payload = match self.to_payload() {
            Ok(payload) => payload,
            Err(e) => {
                return Err(e);
            },
        };
        proof {
            lemma_prefix_valid();
        }
        // A payload of this length cannot fit; refusing it here keeps the
        // envelope's length arithmetic in range.
        if payload.len() > CODE_LENGTH {
            return Err(Error::EncodingTooLong);
        }
        match bech32_encode(PREFIX, payload.as_slice()) {
            Some(text) => Ok(text),
            None => Err(Error::EncodingTooLong),
        }
    }

    /// Encodes the profile as a URI: the scheme `nostr:` followed by the
    /// token. Fails as `to_bech32` does. A URI that is returned decodes to
    /// this profile.
    pub fn to_nostr_uri(&self) -> (r: Result<String, Error>)
        ensures
            text_view(r) == uri_of(self@),
            r matches Ok(uri) ==> profile_of_uri(uri@) == Ok::<ProfileView, Error>(self@),
    {
        match self.to_bech32() {
            Ok(text) => {
                let mut uri = String::from_str(URI_SCHEME);
                uri.append(text.as_str());
                proof {
                    assert(URI_SCHEME@.is_prefix_of(uri@)) by {
                        assert(uri@.subrange(0, URI_SCHEME@.len() as int) =~= URI_SCHEME@);
                    }
                    assert(uri@.skip(URI_SCHEME@.len() as int) =~= text@);
                }
                Ok(uri)
            },
            Err(e) => Err(e),
        }
    }
}

/// A profile with a 32-byte key has a token exactly when every relay
/// address is at most 255 bytes long and the payload at most 630.
pub proof fn lemma_token_exists(profile: ProfileView)
    requires
        profile.wf(),
    ensures
        token_of(profile) is Ok <==> profile.relays_fit() && records_bytes(profile.records()).len()
            <= MAX_PAYLOAD_LEN,
        token_of(profile) is Err ==> token_of(profile) == Err::<Seq<char>, Error>(
            Error::EncodingTooLong,
        ),
{
    lemma_prefix_valid();
    lemma_records_wf(profile);
}

/// A profile without relays always has a token, whatever its key: its
/// payload is the key record alone, 34 bytes, and reads back as a profile
/// with an empty relay list.
pub proof fn lemma_no_relays_has_token(profile: ProfileView)
    requires
        profile.wf(),
        profile.relays.len() == 0,
    ensures
        token_of(profile) is Ok,
        payload_of(profile) is Ok,
        profile_of_payload(payload_of(profile)->Ok_0) matches Ok(back) && back.relays.len() == 0
            && back == profile,
{
    lemma_token_exists(profile);
    lemma_payload_round_trip(profile);
    assert(relay_records(profile.relays) =~= Seq::empty());
    assert(profile.records() =~= seq![key_record(profile.public_key)]);
    lemma_records_bytes_single(key_record(profile.public_key));
}

/// A text that opens under any other prefix than `nprofile` is refused as
/// `UnknownPrefix`, whatever its payload holds.
pub proof fn lemma_other_prefix_is_unknown(text: Seq<char>, hrp: Seq<char>, payload: Seq<u8>)
    ensures
        bech32_parts(text) == parts(hrp, payload) && hrp != PREFIX@ ==> {
            &&& profile_of_token(text) == Err::<ProfileView, Error>(Error::UnknownPrefix)
            &&& profile_of_uri(URI_SCHEME@ + text) == Err::<ProfileView, Error>(
                Error::UnknownPrefix,
            )
        },
{
    let uri = URI_SCHEME@ + text;
    assert(uri.subrange(0, URI_SCHEME@.len() as int) =~= URI_SCHEME@);
    assert(uri.skip(URI_SCHEME@.len() as int) =~= text);
}

/// A text that does not open never decodes: a failed checksum is
/// `InvalidChecksum`, any other refusal `MalformedCharacters`.
pub proof fn lemma_unopened_is_refused(text: Seq<char>)
    ensures
        bech32_parts(text) is Err ==> profile_of_token(text) == Err::<ProfileView, Error>(
            if bech32_parts(text)->Err_0 == EnvelopeError::Checksum {
                Error::InvalidChecksum
            } else {
                Error::MalformedCharacters
            },
        ),
{
}

} // verus!
