use nip19_profile::envelope::EnvelopeError;
use nip19_profile::error::Error;
use nip19_profile::profile::Nip19Profile;
use nip19_profile::token::strip_scheme;

const KEY: [u8; 32] = [
    0x3b, 0xf0, 0xc6, 0x3f, 0xcb, 0x93, 0x46, 0x34, 0x07, 0xaf, 0x97, 0xa5, 0xe5, 0xee, 0x64, 0xfa,
    0x88, 0x3d, 0x10, 0x7e, 0xf9, 0xe5, 0x58, 0x47, 0x2c, 0x4e, 0xb9, 0xaa, 0xae, 0xfa, 0x45, 0x9d,
];

const TOKEN: &str = "nprofile1qqsrhuxx8l9ex335q7he0f09aej04zpazpl0ne2cgukyawd24mayt8gpp4mhxue69uhhytnc9e3k7mgpz4mhxue69uhkg6nzv9ejuumpv34kytnrdaksjlyr9p";

const ALPHABET: &str = "qpzry9x8gf2tvdw0s3jn54khce6mua7l";

fn relays(list: &[&str]) -> Vec<String> {
    list.iter().map(|s| s.to_string()).collect()
}

fn token_with(prefix: &str, payload: &[u8]) -> String {
    bech32::encode::<bech32::Bech32>(bech32::Hrp::parse(prefix).unwrap(), payload).unwrap()
}

fn other_char(c: char) -> char {
    let at = ALPHABET.find(c).unwrap();
    ALPHABET.chars().nth((at + 1) % 32).unwrap()
}

#[test]
fn known_token_decodes_to_key_and_relays() {
    let p = Nip19Profile::from_bech32(TOKEN.to_string()).unwrap();
    assert_eq!(p.public_key(), KEY);
    assert_eq!(p.relays(), relays(&["wss://r.x.com", "wss://djbas.sadkb.com"]));
}

#[test]
fn known_profile_encodes_to_known_token() {
    let p = Nip19Profile::new(KEY, relays(&["wss://r.x.com", "wss://djbas.sadkb.com"]));
    assert_eq!(p.to_bech32(), Ok(TOKEN.to_string()));
}

#[test]
fn two_relays_encode_under_the_profile_prefix_and_decode_in_order() {
    let list = relays(&["wss://relay.example.com", "wss://relay2.example.com"]);
    let p = Nip19Profile::new(KEY, list.clone());
    let text = p.to_bech32().unwrap();
    assert!(text.starts_with("nprofile1"));
    let back = Nip19Profile::from_bech32(text).unwrap();
    assert_eq!(back.relays(), list);
    assert_eq!(back.public_key(), KEY);
}

#[test]
fn token_has_the_length_that_the_payload_gives() {
    // 34 bytes of key record: 55 characters, after 9 of prefix and before 6 of checksum
    let text = Nip19Profile::new(KEY, Vec::new()).to_bech32().unwrap();
    assert_eq!(text.len(), 70);
    assert!(text.chars().skip(9).all(|c| ALPHABET.contains(c)));
}

#[test]
fn empty_relay_list_round_trips() {
    let p = Nip19Profile::new(KEY, Vec::new());
    let text = p.to_bech32().unwrap();
    let back = Nip19Profile::from_bech32(text).unwrap();
    assert_eq!(back.relays(), Vec::<String>::new());
    assert_eq!(back, p);
}

#[test]
fn decode_undoes_encode_for_many_profiles() {
    let keys = [[0u8; 32], [0xff; 32], KEY];
    let lists = [
        relays(&[]),
        relays(&[""]),
        relays(&["wss://a", "wss://a", "wss://a"]),
        relays(&["wss://b", "wss://a"]),
        relays(&["wss://日本.example/路", "ws://[::1]:7777"]),
        vec!["r".repeat(255)],
    ];
    for key in keys {
        for list in lists.iter() {
            let p = Nip19Profile::new(key, list.clone());
            let text = p.to_bech32().unwrap();
            assert_eq!(Nip19Profile::from_bech32(text), Ok(p));
        }
    }
}

#[test]
fn encode_refuses_a_relay_of_256_bytes() {
    let p = Nip19Profile::new(KEY, vec!["r".repeat(256)]);
    assert_eq!(p.to_bech32(), Err(Error::EncodingTooLong));
    assert_eq!(p.to_nostr_uri(), Err(Error::EncodingTooLong));
}

#[test]
fn encode_allows_a_payload_of_630_bytes_and_no_more() {
    // 34 + 257 + 257 + 82 = 630
    let fits = Nip19Profile::new(KEY, vec!["a".repeat(255), "b".repeat(255), "c".repeat(80)]);
    assert_eq!(fits.to_payload().unwrap().len(), 630);
    let text = fits.to_bech32().unwrap();
    assert_eq!(text.len(), 1023);
    assert_eq!(Nip19Profile::from_bech32(text), Ok(fits));
    let over = Nip19Profile::new(KEY, vec!["a".repeat(255), "b".repeat(255), "c".repeat(81)]);
    assert_eq!(over.to_payload().unwrap().len(), 631);
    assert_eq!(over.to_bech32(), Err(Error::EncodingTooLong));
}

#[test]
fn changing_one_character_never_decodes() {
    let chars: Vec<char> = TOKEN.chars().collect();
    for at in 0..chars.len() {
        let mut changed = chars.clone();
        changed[at] = if at < 8 {
            if chars[at] == 'z' { 'a' } else { 'z' }
        } else if at == 8 {
            'q'
        } else {
            other_char(chars[at])
        };
        let text: String = changed.into_iter().collect();
        let r = Nip19Profile::from_bech32(text);
        assert!(
            r == Err(Error::InvalidChecksum) || r == Err(Error::MalformedCharacters),
            "position {at}: {r:?}"
        );
    }
}

#[test]
fn changed_data_character_is_invalid_checksum() {
    let mut text = TOKEN.to_string();
    let last = text.pop().unwrap();
    text.push(other_char(last));
    assert_eq!(Nip19Profile::from_bech32(text), Err(Error::InvalidChecksum));
}

#[test]
fn character_outside_the_alphabet_is_malformed() {
    let mut text = TOKEN.to_string();
    text.pop();
    text.push('b');
    assert_eq!(Nip19Profile::from_bech32(text), Err(Error::MalformedCharacters));
}

#[test]
fn text_without_separator_is_malformed() {
    assert_eq!(Nip19Profile::from_bech32("nprofile".to_string()), Err(Error::MalformedCharacters));
    assert_eq!(Nip19Profile::from_bech32(String::new()), Err(Error::MalformedCharacters));
}

#[test]
fn mixed_case_is_malformed() {
    let mut text = TOKEN.to_string();
    text.replace_range(0..1, "N");
    assert_eq!(Nip19Profile::from_bech32(text), Err(Error::MalformedCharacters));
}

#[test]
fn upper_case_token_decodes() {
    let p = Nip19Profile::from_bech32(TOKEN.to_uppercase()).unwrap();
    assert_eq!(p.public_key(), KEY);
}

#[test]
fn other_checksum_constant_is_invalid_checksum() {
    let hrp = bech32::Hrp::parse("nprofile").unwrap();
    let mut payload = vec![0u8, 32];
    payload.extend_from_slice(&KEY);
    let text = bech32::encode::<bech32::Bech32m>(hrp, &payload).unwrap();
    assert_eq!(Nip19Profile::from_bech32(text), Err(Error::InvalidChecksum));
}

#[test]
fn public_key_token_is_unknown_prefix() {
    let npub = "npub10elfcs4fr0l0r8af98jlmgdh9c8tcxjvz9qkw038js35mp4dma8qzvjptg";
    assert_eq!(Nip19Profile::from_bech32(npub.to_string()), Err(Error::UnknownPrefix));
}

#[test]
fn profile_payload_under_another_prefix_is_unknown_prefix() {
    let p = Nip19Profile::new(KEY, relays(&["wss://a"]));
    let text = token_with("nevent", &p.to_payload().unwrap());
    assert_eq!(Nip19Profile::from_bech32(text), Err(Error::UnknownPrefix));
    // the prefix is looked at before the payload
    let text = token_with("npub", &[1, 9]);
    assert_eq!(Nip19Profile::from_bech32(text), Err(Error::UnknownPrefix));
}

#[test]
fn token_with_truncated_record_is_malformed_tlv() {
    let mut payload = vec![0u8, 32];
    payload.extend_from_slice(&KEY);
    payload.extend_from_slice(&[1, 5, b'w', b's']);
    assert_eq!(Nip19Profile::from_bech32(token_with("nprofile", &payload)), Err(Error::MalformedTlv));
}

#[test]
fn token_with_relay_records_only_is_missing_public_key() {
    let payload = [1, 2, b'a', b'b', 1, 1, b'c'];
    assert_eq!(
        Nip19Profile::from_bech32(token_with("nprofile", &payload)),
        Err(Error::MissingPublicKey)
    );
    assert_eq!(
        Nip19Profile::from_bech32(token_with("nprofile", &[])),
        Err(Error::MissingPublicKey)
    );
}

#[test]
fn token_with_short_key_is_invalid_public_key_length() {
    let payload = [0, 2, 7, 7];
    assert_eq!(
        Nip19Profile::from_bech32(token_with("nprofile", &payload)),
        Err(Error::InvalidPublicKeyLength)
    );
}

#[test]
fn token_with_bad_relay_is_invalid_relay_utf8() {
    let mut payload = vec![0u8, 32];
    payload.extend_from_slice(&KEY);
    payload.extend_from_slice(&[1, 1, 0x80]);
    assert_eq!(
        Nip19Profile::from_bech32(token_with("nprofile", &payload)),
        Err(Error::InvalidRelayUtf8)
    );
}

#[test]
fn from_opened_maps_each_outcome() {
    assert_eq!(
        Nip19Profile::from_opened(Err(EnvelopeError::Checksum)),
        Err(Error::InvalidChecksum)
    );
    assert_eq!(
        Nip19Profile::from_opened(Err(EnvelopeError::Malformed)),
        Err(Error::MalformedCharacters)
    );
    assert_eq!(
        Nip19Profile::from_opened(Ok(("npub".to_string(), KEY.to_vec()))),
        Err(Error::UnknownPrefix)
    );
    assert_eq!(
        Nip19Profile::from_opened(Ok(("NPROFILE".to_string(), vec![0, 0]))),
        Err(Error::UnknownPrefix)
    );
    let mut payload = vec![0u8, 32];
    payload.extend_from_slice(&KEY);
    assert_eq!(
        Nip19Profile::from_opened(Ok(("nprofile".to_string(), payload))),
        Ok(Nip19Profile::new(KEY, Vec::new()))
    );
    assert_eq!(
        Nip19Profile::from_opened(Ok(("nprofile".to_string(), vec![0]))),
        Err(Error::MalformedTlv)
    );
}

#[test]
fn uri_is_scheme_then_token() {
    let p = Nip19Profile::new(KEY, relays(&["wss://r.x.com", "wss://djbas.sadkb.com"]));
    assert_eq!(p.to_nostr_uri(), Ok(format!("nostr:{TOKEN}")));
}

#[test]
fn uri_round_trips() {
    let p = Nip19Profile::new(KEY, relays(&["wss://relay.example.com"]));
    let uri = p.to_nostr_uri().unwrap();
    assert_eq!(Nip19Profile::from_nostr_uri(uri), Ok(p));
}

#[test]
fn uri_without_the_scheme_is_unknown_prefix() {
    assert_eq!(Nip19Profile::from_nostr_uri(TOKEN.to_string()), Err(Error::UnknownPrefix));
    assert_eq!(Nip19Profile::from_nostr_uri(format!("NOSTR:{TOKEN}")), Err(Error::UnknownPrefix));
    assert_eq!(Nip19Profile::from_nostr_uri(format!("nostr{TOKEN}")), Err(Error::UnknownPrefix));
    assert_eq!(Nip19Profile::from_nostr_uri(format!(" nostr:{TOKEN}")), Err(Error::UnknownPrefix));
    assert_eq!(Nip19Profile::from_nostr_uri("nost".to_string()), Err(Error::UnknownPrefix));
    assert_eq!(Nip19Profile::from_nostr_uri(String::new()), Err(Error::UnknownPrefix));
}

#[test]
fn uri_remainder_is_decoded_in_full() {
    assert_eq!(
        Nip19Profile::from_nostr_uri("nostr:".to_string()),
        Err(Error::MalformedCharacters)
    );
    let mut uri = format!("nostr:{TOKEN}");
    let last = uri.pop().unwrap();
    uri.push(other_char(last));
    assert_eq!(Nip19Profile::from_nostr_uri(uri), Err(Error::InvalidChecksum));
    let npub = "nostr:npub10elfcs4fr0l0r8af98jlmgdh9c8tcxjvz9qkw038js35mp4dma8qzvjptg";
    assert_eq!(Nip19Profile::from_nostr_uri(npub.to_string()), Err(Error::UnknownPrefix));
}

#[test]
fn strip_scheme_takes_exactly_the_scheme() {
    assert_eq!(strip_scheme("nostr:abc"), Some("abc"));
    assert_eq!(strip_scheme("nostr:"), Some(""));
    assert_eq!(strip_scheme("nostr:nostr:x"), Some("nostr:x"));
    assert_eq!(strip_scheme("nostr:é日"), Some("é日"));
    assert_eq!(strip_scheme("Nostr:abc"), None);
    assert_eq!(strip_scheme("énostr:abc"), None);
    assert_eq!(strip_scheme("abc"), None);
}
