//! What a local player page receives: each delivered chunk's initialisation
//! and media records, one binary frame each, tagged with layer, segment and
//! chunk.
use vstd::prelude::*;
use crate::ingest::container::{decode, decoding, records_view, RecordType};
use crate::wire::{push_bytes, push_u32_be, u32_be};

verus! {

/// The bytes of a player frame: kind, layer, big-endian segment, chunk, payload.
pub open spec fn frame_bytes(kind: u8, layer: u8, segment: u32, chunk: u8, payload: Seq<u8>) -> Seq<u8> {
    seq![kind, layer] + u32_be(segment) + seq![chunk] + payload
}

/// Encode one binary frame for the page.
pub fn frame(kind: u8, layer: u8, segment: u32, chunk: u8, payload: &[u8]) -> (r: Vec<u8>)
    ensures r@ == frame_bytes(kind, layer, segment, chunk, payload@),
{
    let mut b: Vec<u8> = Vec::new();
    b.push(kind);
    b.push(layer);
    push_u32_be(&mut b, segment);
    b.push(chunk);
    push_bytes(&mut b, payload);
    assert(b@ =~= frame_bytes(kind, layer, segment, chunk, payload@));
    b
}

/// The frame kind of a record: initialisation 1, media 2; metadata is not sent.
pub open spec fn record_kind(t: RecordType) -> Option<u8> {
    match t {
        RecordType::Init => Some(1u8),
        RecordType::Media => Some(2u8),
        RecordType::Meta => None,
    }
}

/// The frames for the records `recs` of layer `layer`, in order.
pub open spec fn record_frames(recs: Seq<(RecordType, Seq<u8>)>, layer: u8, segment: u32, chunk: u8) -> Seq<Seq<u8>>
    decreases recs.len(),
{
    if recs.len() == 0 {
        Seq::empty()
    } else {
        let rest = record_frames(recs.drop_last(), layer, segment, chunk);
        match record_kind(recs.last().0) {
            Some(k) => rest.push(frame_bytes(k, layer, segment, chunk, recs.last().1)),
            None => rest,
        }
    }
}

/// The frames for a delivered chunk's layers, layer by layer.
pub open spec fn delivery_frames_spec(layers: Seq<Seq<u8>>, segment: u32, chunk: u8) -> Seq<Seq<u8>>
    decreases layers.len(),
{
    if layers.len() == 0 {
        Seq::empty()
    } else {
        delivery_frames_spec(layers.drop_last(), segment, chunk)
            + record_frames(decoding(layers.last(), 0), (layers.len() - 1) as u8, segment, chunk)
    }
}

/// Every frame a player page is sent for one delivered chunk: each layer's
/// payload decoded into records, initialisation and media records framed
/// in order, metadata skipped.
pub fn delivery_frames(segment: u32, chunk_index: u8, layers: &Vec<Vec<u8>>) -> (r: Vec<Vec<u8>>)
    ensures
        r@.map_values(|f: Vec<u8>| f@) == delivery_frames_spec(layers@.map_values(|l: Vec<u8>| l@), segment, chunk_index),
{
    let ghost lv = layers@.map_values(|l: Vec<u8>| l@);
    let mut out: Vec<Vec<u8>> = Vec::new();
    let mut l: usize = 0;
    while l < layers.len()
        invariant
            l <= layers@.len(),
            lv == layers@.map_values(|x: Vec<u8>| x@),
            out@.map_values(|f: Vec<u8>| f@) == delivery_frames_spec(lv.take(l as int), segment, chunk_index),
        decreases layers@.len() - l,
    {
        let recs = decode(layers[l].as_slice());
        let ghost rv = records_view(recs@);
        let ghost base = out@.map_values(|f: Vec<u8>| f@);
        let mut k: usize = 0;
        while k < recs.len()
            invariant
                k <= recs@.len(),
                l < layers@.len(),
                rv == records_view(recs@),
                base == delivery_frames_spec(lv.take(l as int), segment, chunk_index),
                out@.map_values(|f: Vec<u8>| f@) == base + record_frames(rv.take(k as int), l as u8, segment, chunk_index),
            decreases recs@.len() - k,
        {
            proof {
                assert(rv.take(k + 1).drop_last() =~= rv.take(k as int));
                assert(rv.take(k + 1).last() == rv[k as int]);
            }
            let ghost before = out@;
            match recs[k].kind {
                RecordType::Init => {
                    let f = frame(1, l as u8, segment, chunk_index, recs[k].data.as_slice());
                    out.push(f);
                    proof {
                        assert(out@.map_values(|f: Vec<u8>| f@) =~= before.map_values(|f: Vec<u8>| f@).push(f@));
                    }
                },
                RecordType::Media => {
                    let f = frame(2, l as u8, segment, chunk_index, recs[k].data.as_slice());
                    out.push(f);
                    proof {
                        assert(out@.map_values(|f: Vec<u8>| f@) =~= before.map_values(|f: Vec<u8>| f@).push(f@));
                    }
                },
                RecordType::Meta => {},
            }
            k = k + 1;
        }
        proof {
            assert(rv.take(recs@.len() as int) =~= rv);
            assert(lv.take(l + 1).drop_last() =~= lv.take(l as int));
            assert(lv.take(l + 1).last() == layers@[l as int]@);
        }
        l = l + 1;
    }
    assert(lv.take(layers@.len() as int) =~= lv);
    out
}

} // verus!
