//! The wire element: a small header plus an opaque payload, together with
//! its byte codec.
//!
//! The layout is fixed and version-free: a one-byte kind flag, three
//! little-endian `u64` header words, a little-endian `u64` payload length,
//! and the payload itself. `decode_packet` accepts exactly the images of
//! `spec_encode`, so the codec round-trips every packet and rejects every
//! truncated or otherwise malformed byte run.

use vstd::bytes::{
    lemma_auto_spec_u64_to_from_le_bytes, spec_u64_from_le_bytes, spec_u64_to_le_bytes,
    u64_from_le_bytes, u64_to_le_bytes,
};
use vstd::prelude::*;
use vstd::slice::{slice_index_get, slice_subrange};

verus! {

/// Encoded size of everything but the payload: the kind flag, the ack,
/// sequence and session words, and the payload length word.
pub const PACKET_HEADER_BYTES: usize = 33;

/// A datagram of the session protocol: either one data fragment or one
/// acknowledgement.
#[derive(Debug)]
pub struct Packet {
    /// Whether this packet acknowledges a fragment rather than carrying one.
    pub is_ack: bool,
    /// The acknowledged sequence number; meaningful only when `is_ack`.
    pub ack_num: u64,
    /// The fragment's sequence number; meaningful only when `!is_ack`.
    pub seq_num: u64,
    /// The session both ends agreed on out of band.
    pub session_id: u64,
    /// The payload; empty in an acknowledgement.
    pub data: Vec<u8>,
}

impl Packet {
    /// An acknowledgement packet carries no payload.
    pub open spec fn wf(self) -> bool {
        self.is_ack ==> self.data@.len() == 0
    }

    pub fn new_ack(ack_num: u64, session_id: u64) -> (p: Packet)
        ensures
            p == (Packet {
                is_ack: true,
                ack_num,
                seq_num: 0,
                session_id,
                data: p.data,
            }),
            p.data@ == Seq::<u8>::empty(),
            p.wf(),
    {
        Packet { is_ack: true, ack_num, seq_num: 0, session_id, data: Vec::new() }
    }

    pub fn new(seq_num: u64, session_id: u64, data: Vec<u8>) -> (p: Packet)
        ensures
            p.is_ack == false,
            p.ack_num == 0,
            p.seq_num == seq_num,
            p.session_id == session_id,
            p.data == data,
            p.wf(),
    {
        Packet { is_ack: false, ack_num: 0, seq_num, session_id, data }
    }

    pub fn session_id(&self) -> (r: u64)
        ensures
            r == self.session_id,
    {
        self.session_id
    }

    pub fn ack(&self) -> (r: u64)
        ensures
            r == self.ack_num,
    {
        self.ack_num
    }

    pub fn seq(&self) -> (r: u64)
        ensures
            r == self.seq_num,
    {
        self.seq_num
    }

    pub fn is_ack(&self) -> (r: bool)
        ensures
            r == self.is_ack,
    {
        self.is_ack
    }

    pub fn into_data(self) -> (r: Vec<u8>)
        ensures
            r == self.data,
    {
        self.data
    }
}

impl Clone for Packet {
    fn clone(&self) -> (r: Self)
        ensures
            r.is_ack == self.is_ack,
            r.ack_num == self.ack_num,
            r.seq_num == self.seq_num,
            r.session_id == self.session_id,
            r.data@ == self.data@,
    {
        Packet {
            is_ack: self.is_ack,
            ack_num: self.ack_num,
            seq_num: self.seq_num,
            session_id: self.session_id,
            data: copy_bytes(&self.data),
        }
    }
}

/// An element-by-element copy of a byte vector.
pub fn copy_bytes(v: &Vec<u8>) -> (r: Vec<u8>)
    ensures
        r@ == v@,
{
    let mut out: Vec<u8> = Vec::new();
    let mut i: usize = 0;
    while i < v.len()
        invariant
            i <= v@.len(),
            out@ == v@.subrange(0, i as int),
        decreases v@.len() - i,
    {
        out.push(v[i]);
        i = i + 1;
    }
    assert(out@ =~= v@);
    out
}

/// The byte image of a packet: kind flag, ack word, sequence word,
/// session word, payload length word, payload.
pub open spec fn spec_encode(p: Packet) -> Seq<u8> {
    seq![if p.is_ack { 1u8 } else { 0u8 }] + spec_u64_to_le_bytes(p.ack_num)
        + spec_u64_to_le_bytes(p.seq_num) + spec_u64_to_le_bytes(p.session_id)
        + spec_u64_to_le_bytes(p.data@.len() as u64) + p.data@
}

/// How each region of `spec_encode(p)` reads back.
pub proof fn lemma_encode_parts(p: Packet)
    ensures
        spec_encode(p).len() == PACKET_HEADER_BYTES + p.data@.len(),
        spec_encode(p)[0] == (if p.is_ack { 1u8 } else { 0u8 }),
        spec_encode(p).subrange(1, 9) == spec_u64_to_le_bytes(p.ack_num),
        spec_encode(p).subrange(9, 17) == spec_u64_to_le_bytes(p.seq_num),
        spec_encode(p).subrange(17, 25) == spec_u64_to_le_bytes(p.session_id),
        spec_encode(p).subrange(25, 33) == spec_u64_to_le_bytes(p.data@.len() as u64),
        spec_encode(p).subrange(33, spec_encode(p).len() as int) == p.data@,
{
    lemma_auto_spec_u64_to_from_le_bytes();
    let e = spec_encode(p);
    assert(e.subrange(1, 9) =~= spec_u64_to_le_bytes(p.ack_num));
    assert(e.subrange(9, 17) =~= spec_u64_to_le_bytes(p.seq_num));
    assert(e.subrange(17, 25) =~= spec_u64_to_le_bytes(p.session_id));
    assert(e.subrange(25, 33) =~= spec_u64_to_le_bytes(p.data@.len() as u64));
    assert(e.subrange(33, e.len() as int) =~= p.data@);
}

/// Two packets with the same byte image agree on every field.
pub proof fn lemma_encode_injective(p: Packet, q: Packet)
    requires
        spec_encode(p) == spec_encode(q),
    ensures
        p.is_ack == q.is_ack,
        p.ack_num == q.ack_num,
        p.seq_num == q.seq_num,
        p.session_id == q.session_id,
        p.data@ == q.data@,
{
    lemma_auto_spec_u64_to_from_le_bytes();
    lemma_encode_parts(p);
    lemma_encode_parts(q);
    assert(spec_u64_from_le_bytes(spec_u64_to_le_bytes(p.ack_num)) == p.ack_num);
    assert(spec_u64_from_le_bytes(spec_u64_to_le_bytes(q.ack_num)) == q.ack_num);
    assert(spec_u64_from_le_bytes(spec_u64_to_le_bytes(p.seq_num)) == p.seq_num);
    assert(spec_u64_from_le_bytes(spec_u64_to_le_bytes(q.seq_num)) == q.seq_num);
    assert(spec_u64_from_le_bytes(spec_u64_to_le_bytes(p.session_id)) == p.session_id);
    assert(spec_u64_from_le_bytes(spec_u64_to_le_bytes(q.session_id)) == q.session_id);
}

/// Serialise a packet into a fresh byte vector.
pub fn encode_packet(p: &Packet) -> (r: Vec<u8>)
    requires
        p.data@.len() + PACKET_HEADER_BYTES <= usize::MAX,
    ensures
        r@ == spec_encode(*p),
        r@.len() == PACKET_HEADER_BYTES + p.data@.len(),
{
    proof {
        lemma_auto_spec_u64_to_from_le_bytes();
        lemma_encode_parts(*p);
    }
    let mut out: Vec<u8> = Vec::new();
    out.push(if p.is_ack { 1u8 } else { 0u8 });
    let mut word = u64_to_le_bytes(p.ack_num);
    out.append(&mut word);
    let mut word = u64_to_le_bytes(p.seq_num);
    out.append(&mut word);
    let mut word = u64_to_le_bytes(p.session_id);
    out.append(&mut word);
    let mut word = u64_to_le_bytes(p.data.len() as u64);
    out.append(&mut word);
    let n = out.len();
    let mut i: usize = 0;
    while i < p.data.len()
        invariant
            i <= p.data@.len(),
            n == 33,
            out@.len() == n + i,
            out@.subrange(0, n as int) == spec_encode(*p).subrange(0, n as int),
            out@.subrange(n as int, out@.len() as int) == p.data@.subrange(0, i as int),
        decreases p.data@.len() - i,
    {
        let b = *slice_index_get(p.data.as_slice(), i);
        out.push(b);
        proof {
            lemma_encode_parts(*p);
            assert(out@.subrange(0, n as int) =~= spec_encode(*p).subrange(0, n as int));
            assert(out@.subrange(n as int, out@.len() as int) =~= p.data@.subrange(
                0,
                i + 1 as int,
            ));
        }
        i = i + 1;
    }
    proof {
        lemma_encode_parts(*p);
        let e = spec_encode(*p);
        assert forall|k: int| 0 <= k < out@.len() implies out@[k] == e[k] by {
            if k < 33 {
                assert(out@[k] == out@.subrange(0, 33)[k]);
                assert(e[k] == e.subrange(0, 33)[k]);
            } else {
                assert(out@[k] == out@.subrange(33, out@.len() as int)[k - 33]);
                assert(e[k] == e.subrange(33, e.len() as int)[k - 33]);
            }
        }
        assert(out@ =~= spec_encode(*p));
    }
    out
}

/// Parse a packet from a byte run; `None` on any byte run that is not the
/// exact image of a packet.
pub fn decode_packet(bytes: &[u8]) -> (r: Option<Packet>)
    ensures
        match r {
            Some(p) => bytes@ == spec_encode(p),
            None => forall|p: Packet| bytes@ != spec_encode(p),
        },
{
    proof {
        lemma_auto_spec_u64_to_from_le_bytes();
    }
    if bytes.len() < PACKET_HEADER_BYTES {
        proof {
            assert forall|p: Packet| bytes@ != spec_encode(p) by {
                lemma_encode_parts(p);
            }
        }
        return None;
    }
    let flag = *slice_index_get(bytes, 0);
    if flag > 1 {
        proof {
            assert forall|p: Packet| bytes@ != spec_encode(p) by {
                lemma_encode_parts(p);
                if bytes@ == spec_encode(p) {
                    assert(bytes@[0] == (if p.is_ack { 1u8 } else { 0u8 }));
                }
            }
        }
        return None;
    }
    let ack_num = u64_from_le_bytes(slice_subrange(bytes, 1, 9));
    let seq_num = u64_from_le_bytes(slice_subrange(bytes, 9, 17));
    let session_id = u64_from_le_bytes(slice_subrange(bytes, 17, 25));
    let data_len = u64_from_le_bytes(slice_subrange(bytes, 25, 33));
    let body_len = bytes.len() - PACKET_HEADER_BYTES;
    if data_len != body_len as u64 {
        proof {
            assert forall|p: Packet| bytes@ != spec_encode(p) by {
                lemma_encode_parts(p);
                if bytes@ == spec_encode(p) {
                    assert(bytes@.subrange(25, 33) == spec_u64_to_le_bytes(p.data@.len() as u64));
                    assert(data_len == p.data@.len());
                }
            }
        }
        return None;
    }
    let mut data: Vec<u8> = Vec::new();
    let mut i: usize = PACKET_HEADER_BYTES;
    while i < bytes.len()
        invariant
            33 <= i <= bytes@.len(),
            data@ == bytes@.subrange(33, i as int),
        decreases bytes@.len() - i,
    {
        let b = *slice_index_get(bytes, i);
        data.push(b);
        proof {
            assert(data@ =~= bytes@.subrange(33, i + 1 as int));
        }
        i = i + 1;
    }
    let p = Packet { is_ack: flag == 1, ack_num, seq_num, session_id, data };
    proof {
        lemma_encode_parts(p);
        assert(bytes@ =~= spec_encode(p));
    }
    Some(p)
}

} // verus!
