//! Message framing for the typed layer: an eight-byte big-endian length
//! prefix in front of the serialised value.
//!
//! The reliability layer deliberately does not preserve message
//! boundaries; this one-line frame restores them on top of the byte
//! stream, and its round-trip lemma is what makes a typed exchange
//! lossless end to end.

use vstd::bytes::{
    lemma_auto_spec_u64_to_from_le_bytes, spec_u64_from_le_bytes, spec_u64_to_le_bytes,
    u64_from_le_bytes, u64_to_le_bytes,
};
use vstd::prelude::*;
use vstd::slice::slice_index_get;

verus! {

/// Size of the length prefix.
pub const FRAME_PREFIX_BYTES: usize = 8;

/// The big-endian image of a word: its little-endian image reversed.
pub open spec fn spec_u64_to_be_bytes(x: u64) -> Seq<u8> {
    spec_u64_to_le_bytes(x).reverse()
}

/// The word a big-endian byte run denotes.
pub open spec fn spec_u64_from_be_bytes(s: Seq<u8>) -> u64 {
    spec_u64_from_le_bytes(s.reverse())
}

/// The framed image of a payload: its length as a big-endian word, then
/// the payload itself.
pub open spec fn spec_frame(payload: Seq<u8>) -> Seq<u8> {
    spec_u64_to_be_bytes(payload.len() as u64) + payload
}

/// Big-endian encoding round-trips every word and every 8-byte run.
pub proof fn lemma_u64_be_bytes(x: u64, s: Seq<u8>)
    ensures
        spec_u64_to_be_bytes(x).len() == 8,
        spec_u64_from_be_bytes(spec_u64_to_be_bytes(x)) == x,
        s.len() == 8 ==> spec_u64_to_be_bytes(spec_u64_from_be_bytes(s)) == s,
{
    lemma_auto_spec_u64_to_from_le_bytes();
    assert(spec_u64_to_be_bytes(x).reverse() =~= spec_u64_to_le_bytes(x));
    if s.len() == 8 {
        assert(s.reverse().len() == 8);
        assert(spec_u64_to_le_bytes(spec_u64_from_le_bytes(s.reverse())).reverse() =~= s);
    }
}

/// How each region of a framed message reads back: the prefix names the
/// payload length and the rest is the payload. This is the framing half
/// of the typed round trip.
pub proof fn lemma_frame_round_trip(payload: Seq<u8>)
    requires
        payload.len() <= u64::MAX,
    ensures
        spec_frame(payload).len() == 8 + payload.len(),
        spec_u64_from_be_bytes(spec_frame(payload).subrange(0, 8)) == payload.len(),
        spec_frame(payload).subrange(8, spec_frame(payload).len() as int) == payload,
{
    lemma_u64_be_bytes(payload.len() as u64, Seq::empty());
    let f = spec_frame(payload);
    assert(f.subrange(0, 8) =~= spec_u64_to_be_bytes(payload.len() as u64));
    assert(f.subrange(8, f.len() as int) =~= payload);
}

/// Write a word as eight big-endian bytes.
pub fn u64_to_be_bytes(x: u64) -> (r: Vec<u8>)
    ensures
        r@ == spec_u64_to_be_bytes(x),
        r@.len() == 8,
{
    let le = u64_to_le_bytes(x);
    proof {
        lemma_auto_spec_u64_to_from_le_bytes();
    }
    let mut out: Vec<u8> = Vec::new();
    let mut i: usize = 0;
    while i < 8
        invariant
            i <= 8,
            le@ == spec_u64_to_le_bytes(x),
            le@.len() == 8,
            out@.len() == i,
            forall|k: int| 0 <= k < i ==> out@[k] == le@[7 - k],
        decreases 8 - i,
    {
        let b = *slice_index_get(le.as_slice(), 7 - i);
        out.push(b);
        i = i + 1;
    }
    proof {
        assert(out@ =~= spec_u64_to_be_bytes(x));
    }
    out
}

/// Read a word out of eight big-endian bytes.
pub fn u64_from_be_bytes(bytes: &[u8]) -> (r: u64)
    requires
        bytes@.len() == 8,
    ensures
        r == spec_u64_from_be_bytes(bytes@),
{
    let mut rev: Vec<u8> = Vec::new();
    let mut i: usize = 0;
    while i < 8
        invariant
            i <= 8,
            bytes@.len() == 8,
            rev@.len() == i,
            forall|k: int| 0 <= k < i ==> rev@[k] == bytes@[7 - k],
        decreases 8 - i,
    {
        let b = *slice_index_get(bytes, 7 - i);
        rev.push(b);
        i = i + 1;
    }
    proof {
        assert(rev@ =~= bytes@.reverse());
    }
    u64_from_le_bytes(rev.as_slice())
}

/// Put the length prefix in front of a payload.
pub fn frame_message(payload: Vec<u8>) -> (r: Vec<u8>)
    requires
        payload@.len() + FRAME_PREFIX_BYTES <= usize::MAX,
    ensures
        r@ == spec_frame(payload@),
        r@.len() == FRAME_PREFIX_BYTES + payload@.len(),
{
    let ghost pv = payload@;
    let mut out = u64_to_be_bytes(payload.len() as u64);
    let mut body = payload;
    out.append(&mut body);
    proof {
        assert(out@ =~= spec_frame(pv));
    }
    out
}

} // verus!
