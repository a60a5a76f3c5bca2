//! The profile codec: a public key and its relays as tag-length-value
//! records, as a payload, and as a bech32 token.

use vstd::prelude::*;
use vstd::slice::slice_to_vec;
use vstd::string::StrSliceExecFns;
use vstd::utf8::{decode_utf8, encode_utf8, valid_utf8};

use crate::error::Error;
use crate::tlv::{
    all_wf, decode_records, encode_records, lemma_parse_of_bytes,
    lemma_truncated_record_rejected, parse_records, records_bytes, TlvRecord, TlvRecordView,
};

verus! {

/// The tag of the record that carries the public key.
pub const TAG_PUBLIC_KEY: u8 = 0;

/// The tag of a record that carries one relay address.
pub const TAG_RELAY: u8 = 1;

/// The length of a public key in bytes.
pub const PUBLIC_KEY_LEN: usize = 32;

/// A public key together with the relays on which its owner can be found.
#[derive(Debug, Clone, PartialEq, Eq)]
pub struct Nip19Profile {
    public_key: [u8; 32],
    relays: Vec<String>,
}

/// The mathematical content of a profile: the key's bytes and the relay
/// addresses, in order.
pub struct ProfileView {
    pub public_key: Seq<u8>,
    pub relays: Seq<Seq<char>>,
}

/// The record that carries a public key.
pub open spec fn key_record(public_key: Seq<u8>) -> TlvRecordView {
    TlvRecordView { tag: TAG_PUBLIC_KEY, value: public_key }
}

/// The record that carries a relay address: its UTF-8 bytes.
pub open spec fn relay_record(relay: Seq<char>) -> TlvRecordView {
    TlvRecordView { tag: TAG_RELAY, value: encode_utf8(relay) }
}

/// The records of the relay addresses, one for each, in order.
pub open spec fn relay_records(relays: Seq<Seq<char>>) -> Seq<TlvRecordView> {
    Seq::new(relays.len(), |i: int| relay_record(relays[i]))
}

/// The addresses that the given values spell, one for each, in order.
pub open spec fn relay_texts(values: Seq<Seq<u8>>) -> Seq<Seq<char>> {
    Seq::new(values.len(), |i: int| decode_utf8(values[i]))
}

/// Every value is valid UTF-8.
pub open spec fn all_utf8(values: Seq<Seq<u8>>) -> bool {
    forall|i: int| 0 <= i < values.len() ==> valid_utf8(#[trigger] values[i])
}

/// The values of the records that carry the given tag, in order.
pub open spec fn values_with_tag(records: Seq<TlvRecordView>, tag: u8) -> Seq<Seq<u8>>
    decreases records.len(),
{
    if records.len() == 0 {
        Seq::empty()
    } else {
        let before = values_with_tag(records.drop_last(), tag);
        if records.last().tag == tag {
            before.push(records.last().value)
        } else {
            before
        }
    }
}

impl ProfileView {
    /// The key has the length of a public key.
    pub open spec fn wf(self) -> bool {
        self.public_key.len() == PUBLIC_KEY_LEN
    }

    /// Every relay address fits into one record.
    pub open spec fn relays_fit(self) -> bool {
        forall|i: int|
            0 <= i < self.relays.len() ==> encode_utf8(#[trigger] self.relays[i]).len()
                <= crate::tlv::MAX_VALUE_LEN
    }

    /// The records of a profile: the key first, then the relays in order.
    pub open spec fn records(self) -> Seq<TlvRecordView> {
        seq![key_record(self.public_key)] + relay_records(self.relays)
    }
}

/// The profile that a record sequence describes. The first record tagged
/// as public key supplies the key; every record tagged as relay supplies
/// one address; all other records are passed over. A missing key is
/// reported before a key of the wrong length, and that before a relay that
/// is not UTF-8.
pub open spec fn profile_of_records(records: Seq<TlvRecordView>) -> Result<ProfileView, Error> {
    let keys = values_with_tag(records, TAG_PUBLIC_KEY);
    let relays = values_with_tag(records, TAG_RELAY);
    if keys.len() == 0 {
        Err(Error::MissingPublicKey)
    } else if keys[0].len() != PUBLIC_KEY_LEN {
        Err(Error::InvalidPublicKeyLength)
    } else if !all_utf8(relays) {
        Err(Error::InvalidRelayUtf8)
    } else {
        Ok(ProfileView { public_key: keys[0], relays: relay_texts(relays) })
    }
}

impl View for Nip19Profile {
    type V = ProfileView;

    closed spec fn view(&self) -> ProfileView {
        ProfileView { public_key: self.public_key@, relays: self.relays.deep_view() }
    }
}

/// The mathematical content of a decoding result.
pub open spec fn result_view(r: Result<Nip19Profile, Error>) -> Result<ProfileView, Error> {
    match r {
        Ok(profile) => Ok(profile@),
        Err(e) => Err(e),
    }
}

/// The mathematical content of an encoding result.
pub open spec fn bytes_view(r: Result<Vec<u8>, Error>) -> Result<Seq<u8>, Error> {
    match r {
        Ok(bytes) => Ok(bytes@),
        Err(e) => Err(e),
    }
}

/// The payload of a profile: its records, framed. A profile with a relay
/// address of more than 255 bytes has none.
pub open spec fn payload_of(profile: ProfileView) -> Result<Seq<u8>, Error> {
    if all_wf(profile.records()) {
        Ok(records_bytes(profile.records()))
    } else {
        Err(Error::EncodingTooLong)
    }
}

/// The profile that a payload describes: the payload is split into
/// records, and the records are read.
pub open spec fn profile_of_payload(payload: Seq<u8>) -> Result<ProfileView, Error> {
    match parse_records(payload) {
        Some(records) => profile_of_records(records),
        None => Err(Error::MalformedTlv),
    }
}

/// Selecting by tag distributes over concatenation.
pub proof fn lemma_values_concat(a: Seq<TlvRecordView>, b: Seq<TlvRecordView>, tag: u8)
    ensures
        values_with_tag(a + b, tag) == values_with_tag(a, tag) + values_with_tag(b, tag),
    decreases b.len(),
{
    if b.len() == 0 {
        assert(a + b =~= a);
        assert(values_with_tag(a, tag) + values_with_tag(b, tag) =~= values_with_tag(a, tag));
    } else {
        assert((a + b).drop_last() =~= a + b.drop_last());
        assert((a + b).last() == b.last());
        lemma_values_concat(a, b.drop_last(), tag);
        assert(values_with_tag(a + b, tag) =~= values_with_tag(a, tag) + values_with_tag(b, tag));
    }
}

/// Records that all carry other tags supply no value for this one.
pub proof fn lemma_values_absent(records: Seq<TlvRecordView>, tag: u8)
    requires
        forall|i: int| 0 <= i < records.len() ==> (#[trigger] records[i]).tag != tag,
    ensures
        values_with_tag(records, tag) == Seq::<Seq<u8>>::empty(),
    decreases records.len(),
{
    if records.len() > 0 {
        assert forall|i: int| 0 <= i < records.drop_last().len() implies (
        #[trigger] records.drop_last()[i]).tag != tag by {
            assert(records.drop_last()[i] == records[i]);
        }
        lemma_values_absent(records.drop_last(), tag);
    }
}

/// A single record supplies its value for its own tag and nothing for any
/// other.
pub proof fn lemma_values_single(record: TlvRecordView, tag: u8)
    ensures
        values_with_tag(seq![record], tag) == if record.tag == tag {
            seq![record.value]
        } else {
            Seq::<Seq<u8>>::empty()
        },
{
    let one = seq![record];
    assert(one.drop_last() =~= Seq::<TlvRecordView>::empty());
    assert(values_with_tag(one.drop_last(), tag) =~= Seq::<Seq<u8>>::empty());
    if record.tag == tag {
        assert(values_with_tag(one, tag) =~= seq![record.value]);
    }
}

/// Where a record carries the tag and none before it does, its value is
/// the first one selected.
pub proof fn lemma_values_first(records: Seq<TlvRecordView>, tag: u8, at: int)
    requires
        0 <= at < records.len(),
        records[at].tag == tag,
        forall|i: int| 0 <= i < at ==> (#[trigger] records[i]).tag != tag,
    ensures
        values_with_tag(records, tag).len() > 0,
        values_with_tag(records, tag)[0] == records[at].value,
{
    let head = records.take(at);
    let tail = records.skip(at + 1);
    assert(records =~= (head + seq![records[at]]) + tail);
    lemma_values_concat(head + seq![records[at]], tail, tag);
    lemma_values_concat(head, seq![records[at]], tag);
    lemma_values_absent(head, tag);
    lemma_values_single(records[at], tag);
}

/// Calls `String::from_utf8`.
///
/// Taken on trust from its documentation: it accepts exactly the byte
/// sequences that are valid UTF-8, and the string it returns holds the
/// characters that those bytes spell.
#[verifier::external_body]
fn string_from_utf8(bytes: Vec<u8>) -> (r: Option<String>)
    ensures
        r is Some <==> valid_utf8(bytes@),
        r matches Some(s) ==> s@ == decode_utf8(bytes@),
{
    String::from_utf8(bytes).ok()
}

/// The position of the first record that carries the tag, if there is one.
pub fn find_tag(records: &Vec<TlvRecord>, tag: u8) -> (r: Option<usize>)
    ensures
        match r {
            Some(at) => {
                &&& at < records.len()
                &&& records[at as int].tag == tag
                &&& forall|i: int| 0 <= i < at ==> (#[trigger] records[i]).tag != tag
            },
            None => forall|i: int| 0 <= i < records.len() ==> (#[trigger] records[i]).tag != tag,
        },
{
    let mut i: usize = 0;
    while i < records.len()
        invariant
            i <= records.len(),
            forall|j: int| 0 <= j < i ==> (#[trigger] records[j]).tag != tag,
        decreases records.len() - i,
    {
        if records[i].tag == tag {
            return Some(i);
        }
        i += 1;
    }
    None
}

impl Nip19Profile {
    /// A profile of the given key and relays.
    pub fn new(public_key: [u8; 32], relays: Vec<String>) -> (profile: Self)
        ensures
            profile@.public_key == public_key@,
            profile@.relays == relays.deep_view(),
            profile@.wf(),
    {
        Nip19Profile { public_key, relays }
    }

    /// Every profile holds a key of 32 bytes.
    pub proof fn lemma_wf(&self)
        ensures
            self@.wf(),
    {
    }

    /// The public key.
    pub fn public_key(&self) -> (key: [u8; 32])
        ensures
            key@ == self@.public_key,
    {
        self.public_key
    }

    /// The relay addresses, in order.
    pub fn relays(&self) -> (relays: Vec<String>)
        ensures
            relays.deep_view() == self@.relays,
    {
        let mut out: Vec<String> = Vec::new();
        let mut i: usize = 0;
        while i < self.relays.len()
            invariant
                i <= self.relays.len(),
                out.deep_view() == self.relays.deep_view().take(i as int),
            decreases self.relays.len() - i,
        {
            let ghost before = out.deep_view();
            out.push(self.relays[i].clone());
            proof {
                assert(out.deep_view() =~= before.push(self.relays[i as int]@));
                assert(self.relays.deep_view().take(i + 1) =~= before.push(self.relays[i as int]@));
            }
            i += 1;
        }
        proof {
            assert(self.relays.deep_view().take(i as int) =~= self.relays.deep_view());
        }
        out
    }

    /// The records of the profile: one with the key, then one for each
    /// relay, in the order in which the profile holds them.
    pub fn to_records(&self) -> (out: Vec<TlvRecord>)
        ensures
            out.deep_view() == self@.records(),
    {
        let ghost target = self@.records();
        let mut out: Vec<TlvRecord> = Vec::new();
        out.push(TlvRecord { tag: TAG_PUBLIC_KEY, value: slice_to_vec(self.public_key.as_slice()) });
        proof {
            assert(out.deep_view() =~= target.take(1));
        }
        let mut i: usize = 0;
        while i < self.relays.len()
            invariant
                i <= self.relays.len(),
                target == self@.records(),
                out.deep_view() == target.take(i + 1),
            decreases self.relays.len() - i,
        {
            let ghost before = out.deep_view();
            let value = self.relays[i].as_str().as_bytes_vec();
            let record = TlvRecord { tag: TAG_RELAY, value };
            proof {
                assert(record@ == relay_record(self.relays[i as int]@));
                assert(target[i + 1] == relay_records(self@.relays)[i as int]);
                assert(target.take(i + 2) =~= before.push(record@));
            }
            out.push(record);
            proof {
                assert(out.deep_view() =~= before.push(record@));
            }
            i += 1;
        }
        proof {
            assert(target.take(i + 1) =~= target);
        }
        out
    }

    /// Reads a profile off a record sequence.
    ///
    /// The first record tagged as public key supplies the key and has to
    /// be 32 bytes long; later ones are passed over. Every record tagged
    /// as relay supplies one address and has to be valid UTF-8. Records
    /// with other tags are passed over.
    pub fn from_records(records: &Vec<TlvRecord>) -> (r: Result<Self, Error>)
        ensures
            result_view(r) == profile_of_records(records.deep_view()),
    {
        let ghost views = records.deep_view();
        let key_at = match find_tag(records, TAG_PUBLIC_KEY) {
            Some(at) => at,
            None => {
                proof {
                    assert forall|i: int| 0 <= i < views.len() implies (#[trigger] views[i]).tag
                        != TAG_PUBLIC_KEY by {
                        assert(views[i] == records[i]@);
                    }
                    lemma_values_absent(views, TAG_PUBLIC_KEY);
                }
                return Err(Error::MissingPublicKey);
            },
        };
        proof {
            assert(views[key_at as int] == records[key_at as int]@);
            assert forall|i: int| 0 <= i < key_at implies (#[trigger] views[i]).tag
                != TAG_PUBLIC_KEY by {
                assert(views[i] == records[i]@);
            }
            lemma_values_first(views, TAG_PUBLIC_KEY, key_at as int);
        }
        let key_value = &records[key_at].value;
        if key_value.len() != PUBLIC_KEY_LEN {
            return Err(Error::InvalidPublicKeyLength);
        }
        let mut public_key = [0u8; 32];
        let mut k: usize = 0;
        while k < PUBLIC_KEY_LEN
            invariant
                k <= PUBLIC_KEY_LEN,
                key_value@.len() == PUBLIC_KEY_LEN,
                public_key@.len() == PUBLIC_KEY_LEN,
                forall|j: int| 0 <= j < k ==> public_key@[j] == key_value@[j],
            decreases PUBLIC_KEY_LEN - k,
        {
            public_key[k] = key_value[k];
            k += 1;
        }
        proof {
            assert(public_key@ =~= key_value@);
            assert(key_value@ == views[key_at as int].value);
        }
        let mut relays: Vec<String> = Vec::new();
        let mut i: usize = 0;
        while i < records.len()
            invariant
                i <= records.len(),
                views == records.deep_view(),
                values_with_tag(views, TAG_PUBLIC_KEY).len() > 0,
                values_with_tag(views, TAG_PUBLIC_KEY)[0] == public_key@,
                public_key@.len() == PUBLIC_KEY_LEN,
                all_utf8(values_with_tag(views.take(i as int), TAG_RELAY)),
                relays.deep_view() == relay_texts(values_with_tag(views.take(i as int), TAG_RELAY)),
            decreases records.len() - i,
        {
            let record = &records[i];
            let ghost seen = values_with_tag(views.take(i as int), TAG_RELAY);
            proof {
                assert(views[i as int] == record@);
                assert(views.take(i + 1).drop_last() =~= views.take(i as int));
                assert(views.take(i + 1).last() == record@);
            }
            if record.tag == TAG_RELAY {
                match string_from_utf8(slice_to_vec(record.value.as_slice())) {
                    Some(relay) => {
                        let ghost before = relays.deep_view();
                        relays.push(relay);
                        proof {
                            assert(relays.deep_view() =~= before.push(relay@));
                            assert(relay_texts(seen.push(record@.value)) =~= before.push(relay@));
                        }
                    },
                    None => {
                        proof {
                            let upto = values_with_tag(views.take(i + 1), TAG_RELAY);
                            assert(upto[seen.len() as int] == record@.value);
                            assert(views =~= views.take(i + 1) + views.skip(i + 1));
                            lemma_values_concat(views.take(i + 1), views.skip(i + 1), TAG_RELAY);
                            let all = values_with_tag(views, TAG_RELAY);
                            assert(all[seen.len() as int] == record@.value);
                            assert(!all_utf8(all));
                        }
                        return Err(Error::InvalidRelayUtf8);
                    },
                }
            }
            i += 1;
        }
        proof {
            assert(views.take(i as int) =~= views);
        }
        Ok(Nip19Profile { public_key, relays })
    }
}

impl Nip19Profile {
    /// The payload of the profile: its records, framed. Fails with
    /// `EncodingTooLong` exactly when a relay address is longer than 255
    /// bytes.
    pub fn to_payload(&self) -> (r: Result<Vec<u8>, Error>)
        ensures
            bytes_view(r) == payload_of(self@),
            r matches Ok(payload) ==> profile_of_payload(payload@) == Ok::<ProfileView, Error>(
                self@,
            ),
    {
        let records = self.to_records();
        let r = encode_records(&records);
        proof {
            if r is Ok {
                lemma_records_round_trip(self@);
            }
        }
        r
    }

    /// Reads a profile off a payload: splits it into records and reads
    /// those. A payload that is not a whole number of records is
    /// `MalformedTlv`, whatever else may be wrong with it.
    pub fn from_payload(payload: &[u8]) -> (r: Result<Self, Error>)
        ensures
            result_view(r) == profile_of_payload(payload@),
    {
        match decode_records(payload) {
            Ok(records) => Self::from_records(&records),
            Err(e) => Err(e),
        }
    }
}

/// The relay records carry the relay tag, and their values are the UTF-8
/// bytes of the addresses.
pub proof fn lemma_relay_record_values(relays: Seq<Seq<char>>)
    ensures
        values_with_tag(relay_records(relays), TAG_PUBLIC_KEY) == Seq::<Seq<u8>>::empty(),
        values_with_tag(relay_records(relays), TAG_RELAY).len() == relays.len(),
        forall|i: int|
            0 <= i < relays.len() ==> #[trigger] values_with_tag(
                relay_records(relays),
                TAG_RELAY,
            )[i] == encode_utf8(relays[i]),
    decreases relays.len(),
{
    let records = relay_records(relays);
    lemma_values_absent(records, TAG_PUBLIC_KEY);
    if relays.len() > 0 {
        assert(records.drop_last() =~= relay_records(relays.drop_last()));
        lemma_relay_record_values(relays.drop_last());
        assert(records.last() == relay_record(relays.last()));
        let before = values_with_tag(records.drop_last(), TAG_RELAY);
        assert(values_with_tag(records, TAG_RELAY) == before.push(encode_utf8(relays.last())));
        assert forall|i: int| 0 <= i < relays.len() implies #[trigger] values_with_tag(
            records,
            TAG_RELAY,
        )[i] == encode_utf8(relays[i]) by {
            if i < relays.len() - 1 {
                assert(before[i] == encode_utf8(relays.drop_last()[i]));
            }
        }
    }
}

/// Reading undoes writing, on records: the records of a profile with a
/// 32-byte key read back as that profile, relays in their order.
pub proof fn lemma_records_round_trip(profile: ProfileView)
    requires
        profile.wf(),
    ensures
        profile_of_records(profile.records()) == Ok::<ProfileView, Error>(profile),
{
    let key = seq![key_record(profile.public_key)];
    let rest = relay_records(profile.relays);
    lemma_relay_record_values(profile.relays);
    lemma_values_concat(key, rest, TAG_PUBLIC_KEY);
    lemma_values_concat(key, rest, TAG_RELAY);
    lemma_values_single(key_record(profile.public_key), TAG_PUBLIC_KEY);
    lemma_values_single(key_record(profile.public_key), TAG_RELAY);
    let keys = values_with_tag(profile.records(), TAG_PUBLIC_KEY);
    let relays = values_with_tag(profile.records(), TAG_RELAY);
    assert(keys =~= seq![profile.public_key]);
    assert(relays =~= values_with_tag(rest, TAG_RELAY));
    assert forall|i: int| 0 <= i < relays.len() implies valid_utf8(#[trigger] relays[i]) by {
        vstd::utf8::encode_utf8_valid_utf8(profile.relays[i]);
    }
    assert forall|i: int| 0 <= i < relays.len() implies decode_utf8(#[trigger] relays[i])
        == profile.relays[i] by {
        vstd::utf8::encode_utf8_decode_utf8(profile.relays[i]);
    }
    assert(relay_texts(relays) =~= profile.relays);
}

/// The records of a profile with a 32-byte key can be framed exactly when
/// every relay address is at most 255 bytes long.
pub proof fn lemma_records_wf(profile: ProfileView)
    requires
        profile.wf(),
    ensures
        all_wf(profile.records()) <==> profile.relays_fit(),
{
    let records = profile.records();
    if profile.relays_fit() {
        assert forall|i: int| 0 <= i < records.len() implies (#[trigger] records[i]).wf() by {
            if i > 0 {
                assert(records[i] == relay_record(profile.relays[i - 1]));
            }
        }
    }
    if all_wf(records) {
        assert forall|i: int| 0 <= i < profile.relays.len() implies encode_utf8(
            #[trigger] profile.relays[i],
        ).len() <= crate::tlv::MAX_VALUE_LEN by {
            assert(records[i + 1].wf());
            assert(records[i + 1] == relay_record(profile.relays[i]));
        }
    }
}

/// Decoding undoes encoding, on payloads: every profile with a 32-byte key
/// and relay addresses of at most 255 bytes has a payload, and that
/// payload reads back as the same profile, relays in their order.
pub proof fn lemma_payload_round_trip(profile: ProfileView)
    requires
        profile.wf(),
        profile.relays_fit(),
    ensures
        payload_of(profile) is Ok,
        profile_of_payload(payload_of(profile)->Ok_0) == Ok::<ProfileView, Error>(profile),
{
    lemma_records_wf(profile);
    lemma_parse_of_bytes(profile.records());
    lemma_records_round_trip(profile);
}

/// A record sequence that holds relay records only describes no profile:
/// the key is missing. The same holds of the payload that frames them.
pub proof fn lemma_relays_only_is_missing_key(records: Seq<TlvRecordView>)
    requires
        forall|i: int| 0 <= i < records.len() ==> (#[trigger] records[i]).tag == TAG_RELAY,
    ensures
        profile_of_records(records) == Err::<ProfileView, Error>(Error::MissingPublicKey),
        all_wf(records) ==> profile_of_payload(records_bytes(records)) == Err::<
            ProfileView,
            Error,
        >(Error::MissingPublicKey),
{
    lemma_values_absent(records, TAG_PUBLIC_KEY);
    if all_wf(records) {
        lemma_parse_of_bytes(records);
    }
}

/// A payload whose last record announces more bytes than are left is
/// malformed, whatever records stand before it.
pub proof fn lemma_truncated_payload_is_malformed(
    records: Seq<TlvRecordView>,
    tag: u8,
    declared: u8,
    remaining: Seq<u8>,
)
    requires
        all_wf(records),
        remaining.len() < declared,
    ensures
        profile_of_payload(records_bytes(records) + seq![tag, declared] + remaining) == Err::<
            ProfileView,
            Error,
        >(Error::MalformedTlv),
{
    lemma_truncated_record_rejected(records, tag, declared, remaining);
}

} // verus!
