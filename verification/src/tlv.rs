//! Tag-length-value framing: a flat byte buffer that holds a sequence of
//! records, each written as one tag byte, one length byte and the value.

use vstd::prelude::*;

use crate::error::Error;

verus! {

/// The longest value that one record can carry.
pub const MAX_VALUE_LEN: usize = 255;

/// One record: a tag and the bytes that belong to it.
#[derive(Debug, Clone, PartialEq, Eq)]
pub struct TlvRecord {
    pub tag: u8,
    pub value: Vec<u8>,
}

/// The mathematical content of a record.
pub struct TlvRecordView {
    pub tag: u8,
    pub value: Seq<u8>,
}

impl View for TlvRecord {
    type V = TlvRecordView;

    open spec fn view(&self) -> TlvRecordView {
        TlvRecordView { tag: self.tag, value: self.value@ }
    }
}

impl DeepView for TlvRecord {
    type V = TlvRecordView;

    open spec fn deep_view(&self) -> TlvRecordView {
        self@
    }
}

impl TlvRecordView {
    /// A record is well formed when its length fits into the length byte.
    pub open spec fn wf(self) -> bool {
        self.value.len() <= MAX_VALUE_LEN
    }

    /// The bytes of one record: tag, length, value.
    pub open spec fn bytes(self) -> Seq<u8> {
        seq![self.tag, self.value.len() as u8] + self.value
    }
}

impl TlvRecord {
    /// A record is well formed when its length fits into the length byte.
    pub open spec fn wf(&self) -> bool {
        self@.wf()
    }
}

/// Every record of the sequence is well formed.
pub open spec fn all_wf(records: Seq<TlvRecordView>) -> bool {
    forall|i: int| 0 <= i < records.len() ==> (#[trigger] records[i]).wf()
}

/// The buffer that holds the records one after another, in order.
pub open spec fn records_bytes(records: Seq<TlvRecordView>) -> Seq<u8>
    decreases records.len(),
{
    if records.len() == 0 {
        Seq::empty()
    } else {
        records_bytes(records.drop_last()) + records.last().bytes()
    }
}

/// Reads records off the front of the buffer until it is used up; `None`
/// when a header or a value is cut short.
pub open spec fn parse_records(buf: Seq<u8>) -> Option<Seq<TlvRecordView>>
    decreases buf.len(),
{
    if buf.len() == 0 {
        Some(Seq::empty())
    } else if buf.len() < 2 || buf.len() < 2 + buf[1] {
        None
    } else {
        let first = TlvRecordView { tag: buf[0], value: buf.subrange(2, 2 + buf[1]) };
        match parse_records(buf.skip(2 + buf[1])) {
            Some(rest) => Some(seq![first] + rest),
            None => None,
        }
    }
}

/// The buffer of a single record is that record's bytes.
pub proof fn lemma_records_bytes_single(record: TlvRecordView)
    ensures
        records_bytes(seq![record]) == record.bytes(),
{
    let one = seq![record];
    assert(one.drop_last() =~= Seq::<TlvRecordView>::empty());
    assert(records_bytes(one.drop_last()) =~= Seq::<u8>::empty());
    assert(records_bytes(one) =~= record.bytes());
}

/// Framing distributes over concatenation: the buffer of two sequences put
/// together is the two buffers put together.
pub proof fn lemma_records_bytes_concat(a: Seq<TlvRecordView>, b: Seq<TlvRecordView>)
    ensures
        records_bytes(a + b) == records_bytes(a) + records_bytes(b),
    decreases b.len(),
{
    if b.len() == 0 {
        assert(a + b =~= a);
        assert(records_bytes(a) + records_bytes(b) =~= records_bytes(a));
    } else {
        assert((a + b).drop_last() =~= a + b.drop_last());
        assert((a + b).last() == b.last());
        lemma_records_bytes_concat(a, b.drop_last());
        assert(records_bytes(a + b) =~= records_bytes(a) + records_bytes(b));
    }
}

/// Reading a buffer that starts with one well-formed record yields that
/// record, followed by whatever the rest of the buffer yields.
pub proof fn lemma_parse_one(first: TlvRecordView, tail: Seq<u8>)
    requires
        first.wf(),
    ensures
        parse_records(first.bytes() + tail) == match parse_records(tail) {
            Some(rest) => Some(seq![first] + rest),
            None => None,
        },
{
    let buf = first.bytes() + tail;
    assert(buf.len() == 2 + first.value.len() + tail.len());
    assert(buf[0] == first.tag);
    assert(buf[1] == first.value.len() as u8);
    assert(buf.subrange(2, 2 + buf[1]) =~= first.value);
    assert(buf.skip(2 + buf[1]) =~= tail);
}

/// Decoding undoes encoding: the buffer of well-formed records reads back as
/// exactly those records.
pub proof fn lemma_parse_of_bytes(records: Seq<TlvRecordView>)
    requires
        all_wf(records),
    ensures
        parse_records(records_bytes(records)) == Some(records),
    decreases records.len(),
{
    if records.len() == 0 {
    } else {
        let first = records[0];
        let rest = records.skip(1);
        assert(records =~= seq![first] + rest);
        lemma_records_bytes_concat(seq![first], rest);
        lemma_records_bytes_single(first);
        assert(all_wf(rest)) by {
            assert forall|i: int| 0 <= i < rest.len() implies (#[trigger] rest[i]).wf() by {
                assert(rest[i] == records[i + 1]);
            }
        }
        lemma_parse_of_bytes(rest);
        lemma_parse_one(first, records_bytes(rest));
    }
}

/// Encoding undoes decoding: whatever a buffer reads as is well formed and
/// frames back to the same buffer, byte for byte.
pub proof fn lemma_bytes_of_parse(buf: Seq<u8>)
    requires
        parse_records(buf) is Some,
    ensures
        all_wf(parse_records(buf)->0),
        records_bytes(parse_records(buf)->0) == buf,
    decreases buf.len(),
{
    if buf.len() == 0 {
        assert(records_bytes(Seq::<TlvRecordView>::empty()) =~= buf);
    } else {
        let first = TlvRecordView { tag: buf[0], value: buf.subrange(2, 2 + buf[1]) };
        let tail = buf.skip(2 + buf[1]);
        let rest = parse_records(tail)->0;
        lemma_bytes_of_parse(tail);
        lemma_records_bytes_concat(seq![first], rest);
        lemma_records_bytes_single(first);
        assert(first.bytes() + tail =~= buf);
    }
}

/// Two well-formed record sequences with the same buffer are the same
/// sequence: the framing loses nothing.
pub proof fn lemma_records_bytes_injective(a: Seq<TlvRecordView>, b: Seq<TlvRecordView>)
    requires
        all_wf(a),
        all_wf(b),
        records_bytes(a) == records_bytes(b),
    ensures
        a == b,
{
    lemma_parse_of_bytes(a);
    lemma_parse_of_bytes(b);
}

/// A buffer whose last record announces more bytes than are left does not
/// read as any record sequence, whatever stands before that record.
pub proof fn lemma_truncated_record_rejected(
    records: Seq<TlvRecordView>,
    tag: u8,
    declared: u8,
    remaining: Seq<u8>,
)
    requires
        all_wf(records),
        remaining.len() < declared,
    ensures
        parse_records(records_bytes(records) + seq![tag, declared] + remaining) is None,
    decreases records.len(),
{
    let last = seq![tag, declared] + remaining;
    assert(records_bytes(records) + seq![tag, declared] + remaining =~= records_bytes(records)
        + last);
    if records.len() == 0 {
        assert(records_bytes(records) + last =~= last);
        assert(last[1] == declared);
    } else {
        let first = records[0];
        let rest = records.skip(1);
        assert(records =~= seq![first] + rest);
        lemma_records_bytes_concat(seq![first], rest);
        lemma_records_bytes_single(first);
        assert(all_wf(rest)) by {
            assert forall|i: int| 0 <= i < rest.len() implies (#[trigger] rest[i]).wf() by {
                assert(rest[i] == records[i + 1]);
            }
        }
        lemma_truncated_record_rejected(rest, tag, declared, remaining);
        assert(records_bytes(rest) + seq![tag, declared] + remaining =~= records_bytes(rest)
            + last);
        lemma_parse_one(first, records_bytes(rest) + last);
        assert(first.bytes() + (records_bytes(rest) + last) =~= records_bytes(records) + last);
    }
}

/// Writes the records into one buffer, in order: for each record its tag,
/// its length and its value, with nothing between them. A record whose
/// value is longer than 255 bytes cannot be framed; it is refused, never
/// cut short or split.
pub fn encode_records(records: &Vec<TlvRecord>) -> (r: Result<Vec<u8>, Error>)
    ensures
        match r {
            Ok(out) => {
                &&& all_wf(records.deep_view())
                &&& out@ == records_bytes(records.deep_view())
                &&& parse_records(out@) == Some(records.deep_view())
            },
            Err(e) => e == Error::EncodingTooLong && !all_wf(records.deep_view()),
        },
{
    let ghost views = records.deep_view();
    let mut out: Vec<u8> = Vec::new();
    let mut i: usize = 0;
    while i < records.len()
        invariant
            i <= records.len(),
            views == records.deep_view(),
            all_wf(views.take(i as int)),
            out@ == records_bytes(views.take(i as int)),
        decreases records.len() - i,
    {
        let record = &records[i];
        proof {
            assert(views[i as int] == record@);
            assert(views.take(i + 1).drop_last() =~= views.take(i as int));
            assert(views.take(i + 1).last() == record@);
        }
        if record.value.len() > MAX_VALUE_LEN {
            proof {
                assert(!views[i as int].wf());
            }
            return Err(Error::EncodingTooLong);
        }
        out.push(record.tag);
        out.push(record.value.len() as u8);
        out.extend_from_slice(record.value.as_slice());
        proof {
            assert(out@ =~= records_bytes(views.take(i as int)) + record@.bytes());
            assert forall|j: int| 0 <= j < views.take(i + 1).len() implies (
            #[trigger] views.take(i + 1)[j]).wf() by {
                if j < i {
                    assert(views.take(i + 1)[j] == views.take(i as int)[j]);
                }
            }
        }
        i += 1;
    }
    proof {
        assert(views.take(i as int) =~= views);
        lemma_parse_of_bytes(views);
    }
    Ok(out)
}

/// Splits a buffer into its records. Succeeds exactly when the buffer is a
/// whole number of records; the records returned are then the only ones
/// whose framing is this buffer. Tags are not interpreted here.
pub fn decode_records(buf: &[u8]) -> (r: Result<Vec<TlvRecord>, Error>)
    ensures
        match r {
            Ok(records) => {
                &&& parse_records(buf@) == Some(records.deep_view())
                &&& all_wf(records.deep_view())
                &&& records_bytes(records.deep_view()) == buf@
            },
            Err(e) => {
                &&& e == Error::MalformedTlv
                &&& parse_records(buf@) is None
                &&& forall|rs: Seq<TlvRecordView>| all_wf(rs) ==> #[trigger] records_bytes(rs) != buf@
            },
        },
{
    let mut records: Vec<TlvRecord> = Vec::new();
    let mut pos: usize = 0;
    proof {
        assert(buf@.skip(0) =~= buf@);
        match parse_records(buf@) {
            Some(rest) => {
                assert(records.deep_view() + rest =~= rest);
            },
            None => {},
        }
    }
    while pos < buf.len()
        invariant
            pos <= buf.len(),
            parse_records(buf@) == match parse_records(buf@.skip(pos as int)) {
                Some(rest) => Some(records.deep_view() + rest),
                None => None,
            },
        decreases buf.len() - pos,
    {
        let ghost here = buf@.skip(pos as int);
        let left = buf.len() - pos;
        if left < 2 {
            proof {
                assert(here.len() == left);
                assert(parse_records(here) is None);
                lemma_unparsable_has_no_records(buf@);
            }
            return Err(Error::MalformedTlv);
        }
        let tag = buf[pos];
        let len = buf[pos + 1] as usize;
        proof {
            assert(here.len() == left);
            assert(here[0] == tag);
            assert(here[1] == len);
        }
        if left - 2 < len {
            proof {
                assert(parse_records(here) is None);
                lemma_unparsable_has_no_records(buf@);
            }
            return Err(Error::MalformedTlv);
        }
        let value = vstd::slice::slice_to_vec(vstd::slice::slice_subrange(buf, pos + 2, pos + 2 + len));
        let record = TlvRecord { tag, value };
        proof {
            let first = TlvRecordView { tag: here[0], value: here.subrange(2, 2 + here[1]) };
            assert(record@.value =~= first.value);
            assert(record@ == first);
            assert(here.skip(2 + here[1]) =~= buf@.skip(pos + 2 + len));
            let ghost before = records.deep_view();
            match parse_records(buf@.skip(pos + 2 + len)) {
                Some(rest) => {
                    assert(before + (seq![first] + rest) =~= before.push(first) + rest);
                },
                None => {},
            }
            assert(records.deep_view().push(record@) =~= before.push(first));
        }
        let ghost before = records.deep_view();
        records.push(record);
        proof {
            assert(records.deep_view() =~= before.push(record@));
        }
        pos = pos + 2 + len;
    }
    proof {
        assert(buf@.skip(pos as int) =~= Seq::<u8>::empty());
        assert(records.deep_view() + Seq::<TlvRecordView>::empty() =~= records.deep_view());
        lemma_bytes_of_parse(buf@);
    }
    Ok(records)
}

/// A buffer that does not read as records is the framing of no well-formed
/// record sequence.
pub proof fn lemma_unparsable_has_no_records(buf: Seq<u8>)
    requires
        parse_records(buf) is None,
    ensures
        forall|rs: Seq<TlvRecordView>| all_wf(rs) ==> #[trigger] records_bytes(rs) != buf,
{
    assert forall|rs: Seq<TlvRecordView>| all_wf(rs) implies #[trigger] records_bytes(rs)
        != buf by {
        lemma_parse_of_bytes(rs);
    }
}

} // verus!
