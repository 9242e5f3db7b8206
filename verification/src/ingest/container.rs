//! TLV records inside a layer payload: `[type u8][len u32 BE][bytes]`.
use vstd::prelude::*;
use crate::wire::{be_u32, push_bytes, push_u32_be, read_u32_be, u32_be, lemma_u32_be_roundtrip};

verus! {

/// Record types.
#[derive(Debug, Clone, Copy, PartialEq, Eq, Structural)]
pub enum RecordType {
    /// fMP4 initialisation segment (`ftyp` + `moov`).
    Init,
    /// One fMP4 media fragment (`moof` + `mdat`).
    Media,
    /// UTF-8 JSON metadata.
    Meta,
}

/// The type byte of a record type.
pub open spec fn type_byte(t: RecordType) -> u8 {
    match t {
        RecordType::Init => 1,
        RecordType::Media => 2,
        RecordType::Meta => 3,
    }
}

/// The record type of a byte, if any.
pub open spec fn type_of_byte(b: u8) -> Option<RecordType> {
    if b == 1 {
        Some(RecordType::Init)
    } else if b == 2 {
        Some(RecordType::Media)
    } else if b == 3 {
        Some(RecordType::Meta)
    } else {
        None
    }
}

impl RecordType {
    /// Parse a type byte.
    pub fn from_u8(b: u8) -> (r: Option<RecordType>)
        ensures r == type_of_byte(b),
    {
        match b {
            1 => Some(RecordType::Init),
            2 => Some(RecordType::Media),
            3 => Some(RecordType::Meta),
            _ => None,
        }
    }

    /// The type byte.
    pub fn to_u8(self) -> (r: u8)
        ensures r == type_byte(self),
    {
        match self {
            RecordType::Init => 1,
            RecordType::Media => 2,
            RecordType::Meta => 3,
        }
    }
}

/// One record.
#[derive(Debug, Clone, PartialEq, Eq)]
pub struct Record {
    /// Type.
    pub kind: RecordType,
    /// Payload.
    pub data: Vec<u8>,
}

impl Record {
    /// Convenience constructor.
    pub fn new(kind: RecordType, data: Vec<u8>) -> (r: Record)
        ensures r.kind == kind, r.data@ == data@,
    {
        Record { kind, data }
    }
}

/// A record's contents.
pub open spec fn record_view(r: Record) -> (RecordType, Seq<u8>) {
    (r.kind, r.data@)
}

/// The contents of a record list.
pub open spec fn records_view(rs: Seq<Record>) -> Seq<(RecordType, Seq<u8>)> {
    rs.map_values(|r: Record| record_view(r))
}

/// The encoding of records back to back; lengths are written as `u32`.
pub open spec fn encoding(rs: Seq<(RecordType, Seq<u8>)>) -> Seq<u8>
    decreases rs.len(),
{
    if rs.len() == 0 {
        Seq::empty()
    } else {
        let r = rs.last();
        encoding(rs.drop_last()) + seq![type_byte(r.0)] + u32_be(r.1.len() as u32) + r.1
    }
}

/// Bytes the encoding takes: five per record plus the payloads.
pub open spec fn encoded_size(rs: Seq<(RecordType, Seq<u8>)>) -> int
    decreases rs.len(),
{
    if rs.len() == 0 { 0 } else { encoded_size(rs.drop_last()) + 5 + rs.last().1.len() }
}

/// Decoding from `i`: records until the input ends or a header or payload is
/// cut short; a record of unknown type is stepped over.
pub open spec fn decoding(p: Seq<u8>, i: int) -> Seq<(RecordType, Seq<u8>)>
    decreases p.len() - i,
{
    if i < 0 || i + 5 > p.len() {
        Seq::empty()
    } else {
        let len = be_u32(p[i + 1], p[i + 2], p[i + 3], p[i + 4]) as int;
        if i + 5 + len > p.len() {
            Seq::empty()
        } else {
            match type_of_byte(p[i]) {
                Some(t) => seq![(t, p.subrange(i + 5, i + 5 + len))] + decoding(p, i + 5 + len),
                None => decoding(p, i + 5 + len),
            }
        }
    }
}

proof fn lemma_encoded_size_prefix(rs: Seq<(RecordType, Seq<u8>)>, k: int)
    requires 0 <= k <= rs.len(),
    ensures encoded_size(rs.take(k)) <= encoded_size(rs), encoded_size(rs.take(k)) >= 0,
    decreases rs.len(),
{
    if k < rs.len() {
        assert(rs.drop_last().take(k) =~= rs.take(k));
        lemma_encoded_size_prefix(rs.drop_last(), k);
    } else {
        assert(rs.take(k) =~= rs);
        lemma_encoded_size_nonneg(rs);
    }
}

proof fn lemma_encoded_size_nonneg(rs: Seq<(RecordType, Seq<u8>)>)
    ensures encoded_size(rs) >= 0,
    decreases rs.len(),
{
    if rs.len() > 0 {
        lemma_encoded_size_nonneg(rs.drop_last());
    }
}

/// Encode records back to back. An empty slice encodes to an empty payload.
/// The size is summed in `usize`.
pub fn encode(records: &[Record]) -> (r: Vec<u8>)
    requires encoded_size(records_view(records@)) <= usize::MAX,
    ensures r@ == encoding(records_view(records@)),
{
    let ghost rv = records_view(records@);
    let mut n: usize = 0;
    let mut i: usize = 0;
    while i < records.len()
        invariant
            i <= records@.len(),
            rv == records_view(records@),
            encoded_size(rv) <= usize::MAX,
            n == encoded_size(rv.take(i as int)),
        decreases records@.len() - i,
    {
        proof {
            assert(rv.take(i + 1).drop_last() =~= rv.take(i as int));
            lemma_encoded_size_prefix(rv, i + 1);
        }
        n = n + 5 + records[i].data.len();
        i = i + 1;
    }
    let mut out: Vec<u8> = Vec::with_capacity(n);
    let mut i: usize = 0;
    while i < records.len()
        invariant
            i <= records@.len(),
            rv == records_view(records@),
            out@ == encoding(rv.take(i as int)),
        decreases records@.len() - i,
    {
        let r = &records[i];
        out.push(r.kind.to_u8());
        push_u32_be(&mut out, r.data.len() as u32);
        push_bytes(&mut out, r.data.as_slice());
        proof {
            assert(rv.take(i + 1).drop_last() =~= rv.take(i as int));
        }
        i = i + 1;
    }
    assert(rv.take(i as int) =~= rv);
    out
}

/// Decode a payload. Stops at the first malformed (cut short) record; records
/// of unknown type are skipped. Opaque non-TLV bytes therefore decode to an
/// empty list or stop early.
pub fn decode(payload: &[u8]) -> (r: Vec<Record>)
    ensures records_view(r@) == decoding(payload@, 0),
{
    let mut out: Vec<Record> = Vec::new();
    let mut i: usize = 0;
    while payload.len() - i >= 5
        invariant
            i <= payload@.len(),
            records_view(out@) + decoding(payload@, i as int) == decoding(payload@, 0),
        ensures
            i <= payload@.len(),
            records_view(out@) + decoding(payload@, i as int) == decoding(payload@, 0),
            decoding(payload@, i as int) == Seq::<(RecordType, Seq<u8>)>::empty(),
        decreases payload@.len() - i,
    {
        let t = payload[i];
        let len = read_u32_be(payload[i + 1], payload[i + 2], payload[i + 3], payload[i + 4]) as usize;
        let start = i + 5;
        if len > payload.len() - start {
            break;
        }
        let kind = match RecordType::from_u8(t) {
            Some(kind) => kind,
            None => {
                proof {
                    assert(decoding(payload@, i as int) == decoding(payload@, (start + len) as int));
                }
                i = start + len;
                continue;
            },
        };
        let mut data: Vec<u8> = Vec::with_capacity(len);
        let end = start + len;
        let mut k: usize = start;
        while k < end
            invariant
                start <= k <= end <= payload@.len(),
                data@ == payload@.subrange(start as int, k as int),
            decreases end - k,
        {
            data.push(payload[k]);
            k = k + 1;
            assert(data@ =~= payload@.subrange(start as int, k as int));
        }
        let ghost ov = records_view(out@);
        out.push(Record { kind, data });
        proof {
            let item = (kind, payload@.subrange(start as int, (start + len) as int));
            assert(records_view(out@) =~= ov.push(item));
            assert(decoding(payload@, i as int) == seq![item] + decoding(payload@, (start + len) as int));
            assert(ov.push(item) + decoding(payload@, (start + len) as int) =~= ov + decoding(payload@, i as int));
        }
        i = start + len;
    }
    assert(records_view(out@) =~= decoding(payload@, 0));
    out
}

/// Law: decoding an encoding gives back the records, as long as each payload's
/// length fits the `u32` length field.
pub proof fn lemma_container_roundtrip(rs: Seq<(RecordType, Seq<u8>)>)
    requires forall|i: int| 0 <= i < rs.len() ==> (#[trigger] rs[i]).1.len() <= u32::MAX,
    ensures decoding(encoding(rs), 0) == rs,
    decreases rs.len(),
{
    lemma_decoding_append(Seq::empty(), rs);
    assert(encoding(rs) + Seq::<u8>::empty() =~= encoding(rs));
}

/// Decoding `encoding(rs) + tail` from the start reads every record of `rs`
/// and then decodes `tail`.
proof fn lemma_decoding_append(tail: Seq<u8>, rs: Seq<(RecordType, Seq<u8>)>)
    requires forall|i: int| 0 <= i < rs.len() ==> (#[trigger] rs[i]).1.len() <= u32::MAX,
    ensures decoding(encoding(rs) + tail, 0) == rs + decoding(tail, 0),
    decreases rs.len(),
{
    if rs.len() == 0 {
        assert(encoding(rs) + tail =~= tail);
        assert(rs + decoding(tail, 0) =~= decoding(tail, 0));
    } else {
        let r0 = rs[0];
        let rest = rs.drop_first();
        let hdr = seq![type_byte(r0.0)] + u32_be(r0.1.len() as u32) + r0.1;
        lemma_encoding_first(rs);
        lemma_decoding_append(tail, rest);
        let p = encoding(rs) + tail;
        assert(p =~= hdr + (encoding(rest) + tail));
        lemma_u32_be_roundtrip(r0.1.len() as u32);
        let len = r0.1.len() as int;
        assert(p[0] == type_byte(r0.0));
        assert(p[1] == u32_be(r0.1.len() as u32)[0]);
        assert(p[2] == u32_be(r0.1.len() as u32)[1]);
        assert(p[3] == u32_be(r0.1.len() as u32)[2]);
        assert(p[4] == u32_be(r0.1.len() as u32)[3]);
        assert(p.subrange(5, 5 + len) =~= r0.1);
        lemma_decoding_shift(hdr, encoding(rest) + tail, 0);
        assert(rs =~= seq![r0] + rest);
        assert(rs + decoding(tail, 0) =~= seq![r0] + (rest + decoding(tail, 0)));
    }
}

/// Decoding after a prefix `h` is decoding the rest.
proof fn lemma_decoding_shift(h: Seq<u8>, t: Seq<u8>, i: int)
    requires 0 <= i <= t.len(),
    ensures decoding(h + t, h.len() + i) == decoding(t, i),
    decreases t.len() - i,
{
    let p = h + t;
    let j = h.len() + i;
    if i + 5 <= t.len() {
        assert(p[j] == t[i] && p[j + 1] == t[i + 1] && p[j + 2] == t[i + 2] && p[j + 3] == t[i + 3] && p[j + 4] == t[i + 4]);
        let len = be_u32(t[i + 1], t[i + 2], t[i + 3], t[i + 4]) as int;
        if i + 5 + len <= t.len() {
            assert(p.subrange(j + 5, j + 5 + len) =~= t.subrange(i + 5, i + 5 + len));
            lemma_decoding_shift(h, t, i + 5 + len);
        }
    }
}

/// The encoding of records, read from the front.
proof fn lemma_encoding_first(rs: Seq<(RecordType, Seq<u8>)>)
    requires rs.len() >= 1,
    ensures
        encoding(rs) == seq![type_byte(rs[0].0)] + u32_be(rs[0].1.len() as u32) + rs[0].1 + encoding(rs.drop_first()),
    decreases rs.len(),
{
    if rs.len() == 1 {
        assert(rs.drop_last() =~= Seq::<(RecordType, Seq<u8>)>::empty());
        assert(rs.drop_first() =~= Seq::<(RecordType, Seq<u8>)>::empty());
        assert(encoding(rs) =~= seq![type_byte(rs[0].0)] + u32_be(rs[0].1.len() as u32) + rs[0].1 + Seq::<u8>::empty());
    } else {
        lemma_encoding_first(rs.drop_last());
        assert(rs.drop_last().drop_first() =~= rs.drop_first().drop_last());
        assert(rs.drop_first().last() == rs.last());
        let r = rs.last();
        assert(encoding(rs.drop_first()) == encoding(rs.drop_first().drop_last()) + seq![type_byte(r.0)] + u32_be(r.1.len() as u32) + r.1);
        assert(encoding(rs) =~= seq![type_byte(rs[0].0)] + u32_be(rs[0].1.len() as u32) + rs[0].1 + encoding(rs.drop_first()));
    }
}

} // verus!
