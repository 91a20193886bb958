//! Bootstrap metadata: the endpoint description both sides exchange over
//! a reliable byte stream before the datagram path opens, and its codec.
//!
//! The layout is fixed and version-free, like the packet codec: every
//! field is a little-endian word at a fixed offset, so both messages have
//! a fixed encoded size and decoding rejects anything else.

use vstd::bytes::{
    lemma_auto_spec_u32_to_from_le_bytes, lemma_auto_spec_u64_to_from_le_bytes,
    spec_u32_to_le_bytes, spec_u64_to_le_bytes, u32_from_le_bytes, u32_to_le_bytes,
    u64_from_le_bytes, u64_to_le_bytes,
};
use vstd::prelude::*;
use vstd::slice::slice_subrange;

verus! {

/// Encoded size of a `QPInfo`.
pub const QP_INFO_BYTES: usize = 28;

/// Encoded size of a `SessionInfo`.
pub const SESSION_INFO_BYTES: usize = 36;

/// The endpoint description of one datagram queue: enough for the far
/// side to address it. The global id is carried as the two 64-bit words
/// of the fabric's 16-byte GID.
#[derive(Clone, Copy, Debug, PartialEq, Eq, Structural)]
pub struct QPInfo {
    /// Local id of the port.
    pub lid: u32,
    /// High half of the global id: the subnet prefix.
    pub gid_subnet_prefix: u64,
    /// Low half of the global id: the interface id.
    pub gid_interface_id: u64,
    /// Queue number.
    pub qp_num: u32,
    /// Protection key of the queue.
    pub qkey: u32,
}

/// What the server answers during bootstrap: its own endpoint and the
/// fresh session id it assigned to this connection.
#[derive(Clone, Copy, Debug, PartialEq, Eq, Structural)]
pub struct SessionInfo {
    pub qp_info: QPInfo,
    pub session_id: u64,
}

/// The byte image of a `QPInfo`: five little-endian words.
pub open spec fn spec_encode_qp_info(q: QPInfo) -> Seq<u8> {
    spec_u32_to_le_bytes(q.lid) + spec_u64_to_le_bytes(q.gid_subnet_prefix)
        + spec_u64_to_le_bytes(q.gid_interface_id) + spec_u32_to_le_bytes(q.qp_num)
        + spec_u32_to_le_bytes(q.qkey)
}

/// The byte image of a `SessionInfo`: the endpoint, then the session id.
pub open spec fn spec_encode_session_info(s: SessionInfo) -> Seq<u8> {
    spec_encode_qp_info(s.qp_info) + spec_u64_to_le_bytes(s.session_id)
}

/// How each region of `spec_encode_qp_info(q)` reads back.
pub proof fn lemma_qp_info_parts(q: QPInfo)
    ensures
        spec_encode_qp_info(q).len() == QP_INFO_BYTES,
        spec_encode_qp_info(q).subrange(0, 4) == spec_u32_to_le_bytes(q.lid),
        spec_encode_qp_info(q).subrange(4, 12) == spec_u64_to_le_bytes(q.gid_subnet_prefix),
        spec_encode_qp_info(q).subrange(12, 20) == spec_u64_to_le_bytes(q.gid_interface_id),
        spec_encode_qp_info(q).subrange(20, 24) == spec_u32_to_le_bytes(q.qp_num),
        spec_encode_qp_info(q).subrange(24, 28) == spec_u32_to_le_bytes(q.qkey),
{
    lemma_auto_spec_u32_to_from_le_bytes();
    lemma_auto_spec_u64_to_from_le_bytes();
    let e = spec_encode_qp_info(q);
    assert(e.subrange(0, 4) =~= spec_u32_to_le_bytes(q.lid));
    assert(e.subrange(4, 12) =~= spec_u64_to_le_bytes(q.gid_subnet_prefix));
    assert(e.subrange(12, 20) =~= spec_u64_to_le_bytes(q.gid_interface_id));
    assert(e.subrange(20, 24) =~= spec_u32_to_le_bytes(q.qp_num));
    assert(e.subrange(24, 28) =~= spec_u32_to_le_bytes(q.qkey));
}

/// Serialise an endpoint description.
pub fn encode_qp_info(q: &QPInfo) -> (r: Vec<u8>)
    ensures
        r@ == spec_encode_qp_info(*q),
        r@.len() == QP_INFO_BYTES,
{
    let mut out = u32_to_le_bytes(q.lid);
    let mut word = u64_to_le_bytes(q.gid_subnet_prefix);
    out.append(&mut word);
    let mut word = u64_to_le_bytes(q.gid_interface_id);
    out.append(&mut word);
    let mut word = u32_to_le_bytes(q.qp_num);
    out.append(&mut word);
    let mut word = u32_to_le_bytes(q.qkey);
    out.append(&mut word);
    proof {
        lemma_qp_info_parts(*q);
        assert(out@ =~= spec_encode_qp_info(*q));
    }
    out
}

/// Parse an endpoint description; `None` on any byte run that is not the
/// exact image of one.
pub fn decode_qp_info(bytes: &[u8]) -> (r: Option<QPInfo>)
    ensures
        match r {
            Some(q) => bytes@ == spec_encode_qp_info(q),
            None => forall|q: QPInfo| bytes@ != spec_encode_qp_info(q),
        },
{
    proof {
        lemma_auto_spec_u32_to_from_le_bytes();
        lemma_auto_spec_u64_to_from_le_bytes();
    }
    if bytes.len() != QP_INFO_BYTES {
        proof {
            assert forall|q: QPInfo| bytes@ != spec_encode_qp_info(q) by {
                lemma_qp_info_parts(q);
            }
        }
        return None;
    }
    let lid = u32_from_le_bytes(slice_subrange(bytes, 0, 4));
    let gid_subnet_prefix = u64_from_le_bytes(slice_subrange(bytes, 4, 12));
    let gid_interface_id = u64_from_le_bytes(slice_subrange(bytes, 12, 20));
    let qp_num = u32_from_le_bytes(slice_subrange(bytes, 20, 24));
    let qkey = u32_from_le_bytes(slice_subrange(bytes, 24, 28));
    let q = QPInfo { lid, gid_subnet_prefix, gid_interface_id, qp_num, qkey };
    proof {
        lemma_qp_info_parts(q);
        assert(bytes@ =~= spec_encode_qp_info(q));
    }
    Some(q)
}

/// Serialise the server's bootstrap answer.
pub fn encode_session_info(s: &SessionInfo) -> (r: Vec<u8>)
    ensures
        r@ == spec_encode_session_info(*s),
        r@.len() == SESSION_INFO_BYTES,
{
    let mut out = encode_qp_info(&s.qp_info);
    let mut word = u64_to_le_bytes(s.session_id);
    out.append(&mut word);
    proof {
        lemma_auto_spec_u64_to_from_le_bytes();
        assert(out@ =~= spec_encode_session_info(*s));
    }
    out
}

/// Parse the server's bootstrap answer; `None` on any byte run that is
/// not the exact image of one.
pub fn decode_session_info(bytes: &[u8]) -> (r: Option<SessionInfo>)
    ensures
        match r {
            Some(s) => bytes@ == spec_encode_session_info(s),
            None => forall|s: SessionInfo| bytes@ != spec_encode_session_info(s),
        },
{
    proof {
        lemma_auto_spec_u64_to_from_le_bytes();
    }
    if bytes.len() != SESSION_INFO_BYTES {
        proof {
            assert forall|s: SessionInfo| bytes@ != spec_encode_session_info(s) by {
                lemma_qp_info_parts(s.qp_info);
            }
        }
        return None;
    }
    let head = slice_subrange(bytes, 0, 28);
    let qp_info = match decode_qp_info(head) {
        Some(q) => q,
        None => {
            proof {
                assert forall|s: SessionInfo| bytes@ != spec_encode_session_info(s) by {
                    lemma_qp_info_parts(s.qp_info);
                    if bytes@ == spec_encode_session_info(s) {
                        assert(bytes@.subrange(0, 28) =~= spec_encode_qp_info(s.qp_info));
                    }
                }
            }
            return None;
        },
    };
    let session_id = u64_from_le_bytes(slice_subrange(bytes, 28, 36));
    let s = SessionInfo { qp_info, session_id };
    proof {
        lemma_qp_info_parts(s.qp_info);
        assert(bytes@.subrange(0, 28) == spec_encode_qp_info(qp_info));
        assert(bytes@ =~= spec_encode_session_info(s));
    }
    Some(s)
}

} // verus!
