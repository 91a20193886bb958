//! The reliability core: a sliding-window protocol that fragments byte
//! streams into packets, retransmits until acknowledged, deduplicates,
//! and reassembles in order on the far side.
//!
//! The session's model is a pair of histories. `outbox` maps every
//! sequence number this side ever assigned to the payload it carries,
//! and `sent` — the concatenation of everything handed to `send_bytes` —
//! always equals the in-order concatenation of those payloads. `inbox`
//! maps every sequence number ever accepted from the peer to its
//! payload, and `delivered` — the concatenation of everything returned
//! from `recv_bytes` — always equals the in-order concatenation of the
//! accepted payloads below the next expected sequence. The lemmas in
//! `laws` turn these invariants into the protocol's end-to-end
//! guarantees.

use crate::error::Error;
use crate::frame::{
    frame_message, spec_frame, spec_u64_from_be_bytes, u64_from_be_bytes, FRAME_PREFIX_BYTES,
};
use crate::packet::Packet;
use crate::transport::{fits_on_wire, Transport, MAX_DATA_BYTES};
use crate::window::SlidingWindow;
use std::collections::{BTreeMap, BTreeSet};
use vstd::prelude::*;
use vstd::slice::{slice_index_get, slice_subrange};

verus! {

broadcast use vstd::std_specs::btree::group_btree_axioms;

/// Polling iterations of one drive round before the still-waiting
/// packets are posted again.
pub const MAX_POLL_CQ_RETRY: u32 = 100;

/// Milliseconds to wait on the wire in one polling iteration.
pub const POLL_INTERVAL: u32 = 1;

/// The sender's maximum in-flight unacknowledged packets.
pub const WINDOW_SIZE: usize = 64;

/// Drive rounds of `send_bytes` before giving up with `Timeout`; each
/// round is a full polling cycle, so this budget is hours of stall.
pub const MAX_SEND_ROUNDS: u32 = 1000000;

/// Blocking receive rounds of `recv_bytes` without delivering a byte
/// before giving up with `Timeout`.
pub const MAX_RECV_ROUNDS: u32 = 1000000;

/// How many bytes are still missing until `target` bytes are in hand.
pub open spec fn still_missing(target: int, have: int) -> int {
    if have < target {
        target - have
    } else {
        0
    }
}

/// The in-order concatenation of `m[0], m[1], ..., m[n-1]`.
pub open spec fn stream_of(m: Map<u64, Seq<u8>>, n: nat) -> Seq<u8>
    decreases n,
{
    if n == 0 {
        Seq::empty()
    } else {
        stream_of(m, (n - 1) as nat) + m[(n - 1) as u64]
    }
}

/// Two maps that agree below `n` generate the same stream: what is
/// delivered depends only on which payloads were accepted, never on the
/// order they arrived in.
pub proof fn lemma_stream_agree(m1: Map<u64, Seq<u8>>, m2: Map<u64, Seq<u8>>, n: nat)
    requires
        n <= u64::MAX as nat + 1,
        forall|s: u64|
            #![trigger m1.contains_key(s)]
            #![trigger m2.contains_key(s)]
            (s as nat) < n ==> m1.contains_key(s) && m2.contains_key(s) && m1[s] == m2[s],
    ensures
        stream_of(m1, n) == stream_of(m2, n),
    decreases n,
{
    if n > 0 {
        assert forall|s: u64| (s as nat) < (n - 1) as nat implies m1.contains_key(s)
            && m2.contains_key(s) && m1[s] == m2[s] by {
            assert((s as nat) < n);
            assert(m1.contains_key(s));
        }
        lemma_stream_agree(m1, m2, (n - 1) as nat);
        assert(m1.contains_key((n - 1) as u64));
        assert(m1[(n - 1) as u64] == m2[(n - 1) as u64]);
    }
}

/// A longer stream of the same map extends a shorter one.
pub proof fn lemma_stream_prefix(m: Map<u64, Seq<u8>>, j: nat, n: nat)
    requires
        j <= n,
    ensures
        stream_of(m, j).is_prefix_of(stream_of(m, n)),
    decreases n,
{
    if j < n {
        lemma_stream_prefix(m, j, (n - 1) as nat);
        assert(stream_of(m, j).is_prefix_of(stream_of(m, (n - 1) as nat)));
        assert(stream_of(m, n) == stream_of(m, (n - 1) as nat) + m[(n - 1) as u64]);
    } else {
        assert(stream_of(m, j) == stream_of(m, n));
    }
}

/// The contiguous run of buffered payloads starting at the delivery
/// counter, in sequence order: exactly what one drain of the reorder
/// buffer hands out.
pub open spec fn pending_stream(buf: Map<u64, Packet>, ack: u64) -> Seq<u8>
    decreases u64::MAX - ack,
{
    if ack < u64::MAX && buf.contains_key(ack) {
        buf[ack].data@ + pending_stream(buf, (ack + 1) as u64)
    } else {
        Seq::empty()
    }
}

/// Removing an already-delivered key leaves the pending run unchanged.
pub proof fn lemma_pending_stream_remove_below(buf: Map<u64, Packet>, k: u64, ack: u64)
    requires
        (k as int) < (ack as int),
    ensures
        pending_stream(buf.remove(k), ack) == pending_stream(buf, ack),
    decreases u64::MAX - ack,
{
    if ack < u64::MAX && buf.contains_key(ack) {
        assert(buf.remove(k).contains_key(ack));
        assert(buf.remove(k)[ack] == buf[ack]);
        lemma_pending_stream_remove_below(buf, k, (ack + 1) as u64);
    } else {
        if ack < u64::MAX {
            assert(!buf.remove(k).contains_key(ack));
        }
    }
}

/// Every sequence is a prefix of itself.
pub proof fn lemma_prefix_refl(a: Seq<Packet>)
    ensures
        a.is_prefix_of(a),
{
    assert(a =~= a.subrange(0, a.len() as int));
}

/// A prefix of a sequence is a prefix of any extension of it.
pub proof fn lemma_prefix_extend(a: Seq<Packet>, b: Seq<Packet>, tail: Seq<Packet>)
    requires
        a.is_prefix_of(b),
    ensures
        a.is_prefix_of(b + tail),
{
    assert forall|i: int| 0 <= i < a.len() implies a[i] == (b + tail).subrange(
        0,
        a.len() as int,
    )[i] by {
        assert(a[i] == b.subrange(0, a.len() as int)[i]);
    }
    assert(a =~= (b + tail).subrange(0, a.len() as int));
}

/// The outbox holds exactly the sequence numbers below the send
/// counter.
pub open spec fn outbox_domain_ok(outbox: Map<u64, Seq<u8>>, seq: u64) -> bool {
    forall|s: u64| #[trigger] outbox.contains_key(s) <==> (s as int) < (seq as int)
}

/// Everything below the delivery counter was accepted at some point.
pub open spec fn inbox_complete(inbox: Map<u64, Seq<u8>>, ack: u64) -> bool {
    forall|s: u64| (s as int) < (ack as int) ==> #[trigger] inbox.contains_key(s)
}

/// Every accepted fragment is either already delivered or still
/// buffered.
pub open spec fn inbox_covered(inbox: Map<u64, Seq<u8>>, buf: Map<u64, Packet>, ack: u64) -> bool {
    forall|s: u64|
        #[trigger] inbox.contains_key(s) ==> ((s as int) < (ack as int) || buf.contains_key(s))
}

/// The reorder buffer holds only accepted, undelivered data fragments,
/// each filed under its own sequence number with its accepted payload.
pub open spec fn buffer_ok(buf: Map<u64, Packet>, inbox: Map<u64, Seq<u8>>, ack: u64) -> bool {
    forall|s: u64|
        #[trigger] buf.contains_key(s) ==> (s as int) >= (ack as int) && inbox.contains_key(s)
            && buf[s].data@ == inbox[s] && !buf[s].is_ack && buf[s].seq_num == s
}

/// A session: one reliable, ordered, bidirectional byte stream over one
/// transport.
pub struct Session {
    transport: Transport,
    /// Session id, the same on both ends.
    id: u64,
    /// The next sequence number to assign to an outbound fragment.
    seq: u64,
    /// The lowest sequence number not yet delivered to the reader.
    ack: u64,
    /// Accepted inbound fragments awaiting contiguity, by sequence.
    recv_buffer: BTreeMap<u64, Packet>,
    /// Payload of every outbound fragment ever created, by sequence.
    outbox: Ghost<Map<u64, Seq<u8>>>,
    /// Payload of every inbound fragment ever accepted, by sequence.
    inbox: Ghost<Map<u64, Seq<u8>>>,
    /// Concatenation of every byte run accepted by `send_bytes`.
    sent: Ghost<Seq<u8>>,
    /// Concatenation of every byte run returned by `recv_bytes`.
    delivered: Ghost<Seq<u8>>,
    /// Every sequence number the peer has acknowledged.
    acked: Ghost<Set<u64>>,
}

impl Session {
    pub closed spec fn spec_transport(&self) -> Transport {
        self.transport
    }

    pub closed spec fn spec_id(&self) -> u64 {
        self.id
    }

    /// The next outbound sequence number.
    pub closed spec fn spec_seq(&self) -> u64 {
        self.seq
    }

    /// The next sequence number owed to the reader.
    pub closed spec fn spec_ack(&self) -> u64 {
        self.ack
    }

    pub closed spec fn outbox(&self) -> Map<u64, Seq<u8>> {
        self.outbox@
    }

    pub closed spec fn inbox(&self) -> Map<u64, Seq<u8>> {
        self.inbox@
    }

    pub closed spec fn sent(&self) -> Seq<u8> {
        self.sent@
    }

    pub closed spec fn delivered(&self) -> Seq<u8> {
        self.delivered@
    }

    pub closed spec fn acked(&self) -> Set<u64> {
        self.acked@
    }

    /// The reorder buffer, by sequence number.
    pub closed spec fn buffered(&self) -> Map<u64, Packet> {
        self.recv_buffer@
    }

    /// Whether an inbound fragment with this sequence is already
    /// accounted for: delivered long ago or sitting in the reorder
    /// buffer. Inserting such a fragment again changes nothing.
    pub open spec fn covers(&self, s: u64) -> bool {
        (s as int) < (self.spec_ack() as int) || self.buffered().contains_key(s)
    }

    /// The session invariant.
    ///
    /// `sent` is exactly the in-order concatenation of the outbox below
    /// `seq`; `delivered` is exactly the in-order concatenation of the
    /// inbox below `ack`; the reorder buffer holds exactly the accepted
    /// fragments not yet delivered, each under its own sequence number
    /// and with its accepted payload.
    pub open spec fn wf(&self) -> bool {
        &&& self.spec_transport().wf()
        &&& outbox_domain_ok(self.outbox(), self.spec_seq())
        &&& self.sent() == stream_of(self.outbox(), self.spec_seq() as nat)
        &&& inbox_complete(self.inbox(), self.spec_ack())
        &&& inbox_covered(self.inbox(), self.buffered(), self.spec_ack())
        &&& buffer_ok(self.buffered(), self.inbox(), self.spec_ack())
        &&& self.delivered() == stream_of(self.inbox(), self.spec_ack() as nat)
    }

    /// A fresh session: counters at zero, empty reorder buffer, nothing
    /// sent, nothing delivered.
    pub fn new(id: u64, transport: Transport) -> (s: Session)
        requires
            transport.wf(),
        ensures
            s.wf(),
            s.spec_id() == id,
            s.spec_seq() == 0,
            s.spec_ack() == 0,
            s.sent() == Seq::<u8>::empty(),
            s.delivered() == Seq::<u8>::empty(),
            s.outbox() == Map::<u64, Seq<u8>>::empty(),
            s.inbox() == Map::<u64, Seq<u8>>::empty(),
            s.acked() == Set::<u64>::empty(),
            s.spec_transport() == transport,
    {
        Session {
            transport,
            id,
            seq: 0,
            ack: 0,
            recv_buffer: BTreeMap::new(),
            outbox: Ghost(Map::empty()),
            inbox: Ghost(Map::empty()),
            sent: Ghost(Seq::empty()),
            delivered: Ghost(Seq::empty()),
            acked: Ghost(Set::empty()),
        }
    }

    pub fn id(&self) -> (r: u64)
        ensures
            r == self.spec_id(),
    {
        self.id
    }

    /// Fragment a byte run into packets of at most `MAX_DATA_BYTES`
    /// each, assigning consecutive sequence numbers from `seq` on and
    /// recording the payloads in the outbox; `sent` grows by exactly the
    /// given bytes.
    fn make_packets(&mut self, bytes: Vec<u8>) -> (r: Vec<Packet>)
        requires
            old(self).wf(),
            bytes@.len() > 0,
            old(self).spec_seq() + bytes@.len() <= u64::MAX,
        ensures
            final(self).wf(),
            final(self).spec_id() == old(self).spec_id(),
            final(self).spec_ack() == old(self).spec_ack(),
            final(self).spec_transport() == old(self).spec_transport(),
            final(self).inbox() == old(self).inbox(),
            final(self).delivered() == old(self).delivered(),
            final(self).acked() == old(self).acked(),
            final(self).buffered() == old(self).buffered(),
            final(self).sent() == old(self).sent() + bytes@,
            (old(self).spec_seq() as int) < (final(self).spec_seq() as int) <= old(
                self,
            ).spec_seq() + bytes@.len(),
            r@.len() == final(self).spec_seq() - old(self).spec_seq(),
            forall|i: int|
                0 <= i < r@.len() ==> {
                    &&& (#[trigger] r@[i]).seq_num == old(self).spec_seq() + i
                    &&& !r@[i].is_ack
                    &&& r@[i].session_id == old(self).spec_id()
                    &&& 0 < r@[i].data@.len() <= MAX_DATA_BYTES
                    &&& final(self).outbox()[r@[i].seq_num] == r@[i].data@
                },
            forall|s: u64|
                old(self).outbox().contains_key(s) ==> final(self).outbox().contains_key(s)
                    && final(self).outbox()[s] == old(self).outbox()[s],
    {
        let ghost entry_seq = self.seq;
        let ghost entry_sent = self.sent@;
        let ghost entry_outbox = self.outbox@;
        let mut packets: Vec<Packet> = Vec::new();
        let mut offset: usize = 0;
        let n = bytes.len();
        while offset < n
            invariant
                n == bytes@.len(),
                0 < n,
                offset <= n,
                entry_seq == old(self).seq,
                entry_sent == old(self).sent@,
                entry_outbox == old(self).outbox@,
                entry_seq + n <= u64::MAX,
                packets@.len() <= offset,
                (offset == 0) <==> (packets@.len() == 0),
                self.seq == entry_seq + packets@.len(),
                self.id == old(self).id,
                self.ack == old(self).ack,
                self.transport == old(self).transport,
                self.recv_buffer == old(self).recv_buffer,
                self.inbox@ == old(self).inbox@,
                self.delivered@ == old(self).delivered@,
                self.acked@ == old(self).acked@,
                self.sent@ == entry_sent,
                forall|s: u64|
                    self.outbox@.contains_key(s) <==> ((s as int) < (entry_seq as int)
                        || (entry_seq as int) <= (s as int) < (self.seq as int)),
                forall|s: u64|
                    entry_outbox.contains_key(s) ==> self.outbox@.contains_key(s)
                        && self.outbox@[s] == entry_outbox[s],
                stream_of(self.outbox@, self.seq as nat) == entry_sent + bytes@.subrange(
                    0,
                    offset as int,
                ),
                forall|i: int|
                    0 <= i < packets@.len() ==> {
                        &&& (#[trigger] packets@[i]).seq_num == entry_seq + i
                        &&& !packets@[i].is_ack
                        &&& packets@[i].session_id == old(self).id
                        &&& 0 < packets@[i].data@.len() <= MAX_DATA_BYTES
                        &&& self.outbox@[packets@[i].seq_num] == packets@[i].data@
                    },
                old(self).wf(),
            decreases n - offset,
        {
            let remaining = n - offset;
            let take = if remaining > MAX_DATA_BYTES {
                MAX_DATA_BYTES
            } else {
                remaining
            };
            let mut chunk: Vec<u8> = Vec::new();
            let mut k: usize = 0;
            while k < take
                invariant
                    k <= take,
                    offset + take <= n,
                    n == bytes@.len(),
                    chunk@ == bytes@.subrange(offset as int, offset + k),
                decreases take - k,
            {
                let b = *slice_index_get(bytes.as_slice(), offset + k);
                chunk.push(b);
                proof {
                    assert(chunk@ =~= bytes@.subrange(offset as int, offset + k + 1));
                }
                k = k + 1;
            }
            let ghost chunk_view = chunk@;
            let ghost prev_outbox = self.outbox@;
            let ghost prev_seq = self.seq;
            let p = Packet::new(self.seq, self.id, chunk);
            self.outbox = Ghost(self.outbox@.insert(self.seq, chunk_view));
            self.seq = self.seq + 1;
            packets.push(p);
            proof {
                lemma_stream_agree(prev_outbox, self.outbox@, prev_seq as nat);
                assert(stream_of(self.outbox@, self.seq as nat) == stream_of(
                    self.outbox@,
                    prev_seq as nat,
                ) + self.outbox@[prev_seq]);
                assert(entry_sent + bytes@.subrange(0, offset as int) + chunk_view =~= entry_sent
                    + bytes@.subrange(0, offset + take));
            }
            offset = offset + take;
        }
        proof {
            assert(bytes@.subrange(0, n as int) =~= bytes@);
            self.sent@ = entry_sent + bytes@;
            assert(buffer_ok(self.recv_buffer@, self.inbox@, self.ack));
        }
        packets
    }

    /// Accept one inbound data fragment: drop it if it is already
    /// covered, otherwise file it in the reorder buffer under its
    /// sequence number. Acceptance is idempotent, so duplicate
    /// datagrams change nothing.
    fn insert_recv_buffer(&mut self, packet: Packet)
        requires
            old(self).wf(),
            !packet.is_ack,
            packet.session_id == old(self).spec_id(),
        ensures
            final(self).wf(),
            final(self).spec_id() == old(self).spec_id(),
            final(self).spec_seq() == old(self).spec_seq(),
            final(self).spec_ack() == old(self).spec_ack(),
            final(self).spec_transport() == old(self).spec_transport(),
            final(self).outbox() == old(self).outbox(),
            final(self).sent() == old(self).sent(),
            final(self).delivered() == old(self).delivered(),
            final(self).acked() == old(self).acked(),
            final(self).inbox() == if old(self).covers(packet.seq_num) {
                old(self).inbox()
            } else {
                old(self).inbox().insert(packet.seq_num, packet.data@)
            },
            old(self).covers(packet.seq_num) ==> final(self).buffered() == old(self).buffered(),
            forall|t: u64|
                #[trigger] old(self).inbox().contains_key(t) ==> final(self).inbox().contains_key(
                    t,
                ) && final(self).inbox()[t] == old(self).inbox()[t],
            final(self).inbox().contains_key(packet.seq_num),
    {
        let ghost seq = packet.seq_num;
        proof {
            if (seq as int) < (self.ack as int) {
                assert(inbox_complete(self.inbox@, self.ack));
                assert(self.inbox@.contains_key(seq));
            }
            if self.recv_buffer@.contains_key(seq) {
                assert(buffer_ok(self.recv_buffer@, self.inbox@, self.ack));
                assert(self.inbox@.contains_key(seq));
            }
        }
        let s = packet.seq();
        if s >= self.ack {
            if !self.recv_buffer.contains_key(&s) {
                let ghost pdata = packet.data@;
                let ghost prev_inbox = self.inbox@;
                let ghost prev_buf = self.recv_buffer@;
                self.inbox = Ghost(self.inbox@.insert(s, pdata));
                self.recv_buffer.insert(s, packet);
                proof {
                    assert forall|t: u64| #[trigger] prev_inbox.contains_key(t) implies self.inbox@
                        .contains_key(t) && self.inbox@[t] == prev_inbox[t] by {
                        assert(inbox_covered(prev_inbox, prev_buf, self.ack));
                        assert(t != s);
                    }
                    assert forall|t: u64| (t as nat) < self.ack as nat implies prev_inbox
                        .contains_key(t) && self.inbox@.contains_key(t) && prev_inbox[t]
                        == self.inbox@[t] by {
                        assert(prev_inbox.contains_key(t));
                    }
                    lemma_stream_agree(prev_inbox, self.inbox@, self.ack as nat);
                    assert(buffer_ok(prev_buf, prev_inbox, self.ack));
                    assert forall|t: u64| #[trigger] self.recv_buffer@.contains_key(t) implies (t
                        as int) >= (self.ack as int) && self.inbox@.contains_key(t)
                        && self.recv_buffer@[t].data@ == self.inbox@[t]
                        && !self.recv_buffer@[t].is_ack && self.recv_buffer@[t].seq_num == t by {
                        if t != s {
                            assert(prev_buf.contains_key(t));
                        }
                    }
                    assert(buffer_ok(self.recv_buffer@, self.inbox@, self.ack));
                    assert(inbox_covered(prev_inbox, prev_buf, self.ack));
                    assert forall|t: u64| #[trigger] self.inbox@.contains_key(t) implies ((t
                        as int) < (self.ack as int) || self.recv_buffer@.contains_key(t)) by {
                        if t != s {
                            assert(prev_inbox.contains_key(t));
                        }
                    }
                    assert(inbox_covered(self.inbox@, self.recv_buffer@, self.ack));
                }
            }
        }
    }

    /// Remove the contiguous run of buffered fragments starting at
    /// `ack` and hand their payloads back in order; `delivered` grows by
    /// exactly the returned bytes.
    fn drain_ready(&mut self) -> (r: Vec<u8>)
        requires
            old(self).wf(),
        ensures
            final(self).wf(),
            final(self).spec_id() == old(self).spec_id(),
            final(self).spec_seq() == old(self).spec_seq(),
            final(self).spec_transport() == old(self).spec_transport(),
            final(self).outbox() == old(self).outbox(),
            final(self).sent() == old(self).sent(),
            final(self).inbox() == old(self).inbox(),
            final(self).acked() == old(self).acked(),
            final(self).delivered() == old(self).delivered() + r@,
            r@ == pending_stream(old(self).buffered(), old(self).spec_ack()),
            (final(self).spec_ack() as int) >= (old(self).spec_ack() as int),
            final(self).spec_ack() == old(self).spec_ack() ==> r@.len() == 0,
            old(self).spec_ack() < u64::MAX && old(self).buffered().contains_key(
                old(self).spec_ack(),
            ) ==> (final(self).spec_ack() as int) > (old(self).spec_ack() as int),
    {
        let ghost entry_delivered = self.delivered@;
        let ghost entry_buf = self.recv_buffer@;
        let ghost entry_ack = self.ack;
        let mut ready: Vec<u8> = Vec::new();
        proof {
            assert(Seq::<u8>::empty() + pending_stream(entry_buf, entry_ack) =~= pending_stream(
                entry_buf,
                entry_ack,
            ));
        }
        loop
            invariant
                self.wf(),
                self.id == old(self).id,
                self.seq == old(self).seq,
                self.transport == old(self).transport,
                self.outbox@ == old(self).outbox@,
                self.sent@ == old(self).sent@,
                self.inbox@ == old(self).inbox@,
                self.acked@ == old(self).acked@,
                (self.ack as int) >= (old(self).ack as int),
                self.ack == old(self).ack ==> ready@.len() == 0,
                self.ack == old(self).ack ==> self.recv_buffer@ == old(self).recv_buffer@,
                self.delivered@ == entry_delivered + ready@,
                entry_delivered == old(self).delivered@,
                entry_buf == old(self).recv_buffer@,
                entry_ack == old(self).ack,
                pending_stream(entry_buf, entry_ack) == ready@ + pending_stream(
                    self.recv_buffer@,
                    self.ack,
                ),
            ensures
                self.wf(),
                self.id == old(self).id,
                self.seq == old(self).seq,
                self.transport == old(self).transport,
                self.outbox@ == old(self).outbox@,
                self.sent@ == old(self).sent@,
                self.inbox@ == old(self).inbox@,
                self.acked@ == old(self).acked@,
                (self.ack as int) >= (old(self).ack as int),
                self.ack == old(self).ack ==> ready@.len() == 0,
                self.delivered@ == entry_delivered + ready@,
                ready@ == pending_stream(old(self).recv_buffer@, old(self).ack),
                old(self).ack < u64::MAX && old(self).recv_buffer@.contains_key(old(self).ack)
                    ==> (self.ack as int) > (old(self).ack as int),
            decreases self.recv_buffer@.dom().len(),
        {
            if self.ack == u64::MAX || !self.recv_buffer.contains_key(&self.ack) {
                proof {
                    assert(pending_stream(self.recv_buffer@, self.ack) == Seq::<u8>::empty());
                    assert(ready@ + Seq::<u8>::empty() =~= ready@);
                }
                break;
            }
            let ghost prev_buf = self.recv_buffer@;
            let removed = self.recv_buffer.remove(&self.ack);
            let ghost prev_ack = self.ack;
            let ghost prev_ready = ready@;
            match removed {
                Some(packet) => {
                    let ghost pdata = packet.data@;
                    let mut data = packet.into_data();
                    ready.append(&mut data);
                    self.ack = self.ack + 1;
                    proof {
                        assert(buffer_ok(prev_buf, self.inbox@, prev_ack));
                        assert(inbox_covered(self.inbox@, prev_buf, prev_ack));
                        assert(inbox_complete(self.inbox@, prev_ack));
                        assert(prev_buf.contains_key(prev_ack));
                        assert(prev_buf[prev_ack] == packet);
                        assert(pdata == self.inbox@[prev_ack]);
                        assert(stream_of(self.inbox@, self.ack as nat) == stream_of(
                            self.inbox@,
                            prev_ack as nat,
                        ) + self.inbox@[prev_ack]);
                        self.delivered@ = self.delivered@ + pdata;
                        assert(self.delivered@ =~= entry_delivered + ready@);
                        assert(self.delivered@ == stream_of(self.inbox@, self.ack as nat));
                        assert(self.recv_buffer@ == prev_buf.remove(prev_ack));
                        assert(pending_stream(prev_buf, prev_ack) == pdata + pending_stream(
                            prev_buf,
                            self.ack,
                        ));
                        lemma_pending_stream_remove_below(prev_buf, prev_ack, self.ack);
                        assert(pending_stream(entry_buf, entry_ack) =~= ready@ + pending_stream(
                            self.recv_buffer@,
                            self.ack,
                        ));
                        assert forall|t: u64| #[trigger] self.recv_buffer@.contains_key(t) implies
                            (t as int) >= (self.ack as int) && self.inbox@.contains_key(t)
                            && self.recv_buffer@[t].data@ == self.inbox@[t]
                            && !self.recv_buffer@[t].is_ack && self.recv_buffer@[t].seq_num
                            == t by {
                            assert(prev_buf.contains_key(t));
                            assert(t != prev_ack);
                        }
                        assert(buffer_ok(self.recv_buffer@, self.inbox@, self.ack));
                        assert forall|t: u64| #[trigger] self.inbox@.contains_key(t) implies ((t
                            as int) < (self.ack as int) || self.recv_buffer@.contains_key(t)) by {
                            if t != prev_ack && (t as int) >= (self.ack as int) {
                                assert(prev_buf.contains_key(t));
                            }
                        }
                        assert(inbox_covered(self.inbox@, self.recv_buffer@, self.ack));
                        assert forall|t: u64| (t as int) < (self.ack as int) implies self.inbox@
                            .contains_key(t) by {
                            if t != prev_ack {
                                assert((t as int) < (prev_ack as int));
                            }
                        }
                        assert(inbox_complete(self.inbox@, self.ack));
                    }
                },
                None => {
                    proof {
                        assert(false);
                    }
                },
            }
        }
        ready
    }

    /// Return the next in-order bytes, blocking on the transport until
    /// some arrive. Every inbound data fragment seen on the way is
    /// acknowledged and buffered; acknowledgements of our own fragments
    /// are informational here and ignored. Returns a non-empty byte run
    /// that extends `delivered`, or an error with `delivered` unchanged.
    pub fn recv_bytes(&mut self) -> (r: Result<Vec<u8>, Error>)
        requires
            old(self).wf(),
        ensures
            final(self).wf(),
            final(self).spec_id() == old(self).spec_id(),
            final(self).spec_seq() == old(self).spec_seq(),
            final(self).outbox() == old(self).outbox(),
            final(self).sent() == old(self).sent(),
            final(self).acked() == old(self).acked(),
            (final(self).spec_ack() as int) >= (old(self).spec_ack() as int),
            forall|t: u64|
                #[trigger] old(self).inbox().contains_key(t) ==> final(self).inbox().contains_key(
                    t,
                ) && final(self).inbox()[t] == old(self).inbox()[t],
            old(self).spec_transport().log().is_prefix_of(final(self).spec_transport().log()),
            forall|i: int|
                old(self).spec_transport().log().len() <= i
                    < final(self).spec_transport().log().len()
                    ==> (#[trigger] final(self).spec_transport().log()[i]).is_ack
                    && final(self).spec_transport().log()[i].session_id == old(self).spec_id()
                    && final(self).inbox().contains_key(
                    final(self).spec_transport().log()[i].ack_num,
                ),
            match r {
                Ok(bytes) => {
                    &&& bytes@.len() > 0
                    &&& final(self).delivered() == old(self).delivered() + bytes@
                },
                Err(_) => final(self).delivered() == old(self).delivered(),
            },
            pending_stream(old(self).buffered(), old(self).spec_ack()).len() > 0 ==> match r {
                Ok(bytes) => bytes@ == pending_stream(old(self).buffered(), old(self).spec_ack()),
                Err(_) => false,
            },
            old(self).spec_ack() < u64::MAX && old(self).buffered().contains_key(
                old(self).spec_ack(),
            ) && old(self).buffered()[old(self).spec_ack()].data@.len() > 0 ==> r is Ok,
    {
        proof {
            lemma_prefix_refl(self.transport.log());
        }
        let mut rounds: u32 = 0;
        while rounds < MAX_RECV_ROUNDS
            invariant
                self.wf(),
                self.id == old(self).id,
                self.seq == old(self).seq,
                self.outbox@ == old(self).outbox@,
                self.sent@ == old(self).sent@,
                self.acked@ == old(self).acked@,
                self.delivered@ == old(self).delivered@,
                (self.ack as int) >= (old(self).ack as int),
                forall|t: u64|
                    #[trigger] old(self).inbox@.contains_key(t) ==> self.inbox@.contains_key(t)
                        && self.inbox@[t] == old(self).inbox@[t],
                old(self).transport.log().is_prefix_of(self.transport.log()),
                forall|i: int|
                    old(self).transport.log().len() <= i < self.transport.log().len() ==> (
                    #[trigger] self.transport.log()[i]).is_ack && self.transport.log()[i].session_id
                        == old(self).id && self.inbox@.contains_key(
                        self.transport.log()[i].ack_num,
                    ),
                rounds == 0 ==> self.recv_buffer@ == old(self).recv_buffer@ && self.ack == old(
                    self,
                ).ack,
                rounds > 0 ==> pending_stream(old(self).recv_buffer@, old(self).ack).len() == 0,
            decreases MAX_RECV_ROUNDS - rounds,
        {
            let ghost pre_delivered = self.delivered@;
            let ready = self.drain_ready();
            if ready.len() > 0 {
                proof {
                    if rounds == 0 {
                        assert(ready@ == pending_stream(old(self).recv_buffer@, old(self).ack));
                    }
                }
                return Ok(ready);
            }
            proof {
                assert(self.delivered@ =~= pre_delivered);
                if rounds == 0 {
                    assert(pending_stream(old(self).recv_buffer@, old(self).ack).len() == 0);
                }
            }
            let mut packets: Vec<Packet> = Vec::new();
            match self.transport.recv() {
                Ok(ps) => {
                    packets = ps;
                },
                Err(e) => {
                    match e {
                        // One bad datagram must not kill the session:
                        // swallow the codec error and poll again.
                        Error::DecodeEncode(_) => {},
                        other => {
                            return Err(other);
                        },
                    }
                },
            }
            let mut acks: Vec<Packet> = Vec::new();
            while packets.len() > 0
                invariant
                    self.wf(),
                    self.id == old(self).id,
                    self.seq == old(self).seq,
                    self.outbox@ == old(self).outbox@,
                    self.sent@ == old(self).sent@,
                    self.acked@ == old(self).acked@,
                    self.delivered@ == old(self).delivered@,
                    (self.ack as int) >= (old(self).ack as int),
                    forall|t: u64|
                        #[trigger] old(self).inbox@.contains_key(t) ==> self.inbox@.contains_key(
                            t,
                        ) && self.inbox@[t] == old(self).inbox@[t],
                    old(self).transport.log().is_prefix_of(self.transport.log()),
                    forall|i: int|
                        old(self).transport.log().len() <= i < self.transport.log().len() ==> (
                        #[trigger] self.transport.log()[i]).is_ack
                            && self.transport.log()[i].session_id == old(self).id
                            && self.inbox@.contains_key(self.transport.log()[i].ack_num),
                    forall|i: int|
                        0 <= i < acks@.len() ==> fits_on_wire(#[trigger] acks@[i]),
                    forall|i: int|
                        0 <= i < acks@.len() ==> (#[trigger] acks@[i]).is_ack
                            && acks@[i].session_id == old(self).id && self.inbox@.contains_key(
                            acks@[i].ack_num,
                        ),
                    pending_stream(old(self).recv_buffer@, old(self).ack).len() == 0,
                decreases packets@.len(),
            {
                let packet = match packets.pop() {
                    Some(p) => p,
                    None => {
                        proof {
                            assert(false);
                        }
                        return Err(Error::Receive);
                    },
                };
                if packet.session_id() != self.id {
                    // A mis-routed packet is fatal for this session.
                    return Err(Error::Internal("session id mismatch on inbound packet".to_owned()));
                }
                if !packet.is_ack() {
                    acks.push(Packet::new_ack(packet.seq(), self.id));
                    self.insert_recv_buffer(packet);
                }
            }
            let ghost prev_log = self.transport.log();
            match self.transport.send_burst(acks) {
                Ok(()) => {
                    proof {
                        lemma_prefix_extend(old(self).transport.log(), prev_log, acks@);
                        assert forall|i: int|
                            old(self).transport.log().len() <= i < self.transport.log().len()
                                implies (#[trigger] self.transport.log()[i]).is_ack
                                && self.transport.log()[i].session_id == old(self).id
                                && self.inbox@.contains_key(
                                self.transport.log()[i].ack_num,
                            ) by {
                            if i >= prev_log.len() {
                                assert(self.transport.log()[i] == acks@[i - prev_log.len()]);
                            }
                        }
                    }
                },
                Err(e) => {
                    proof {
                        let j2 = choose|j2: int|
                            0 <= j2 <= acks@.len() && self.transport.log() == prev_log
                                + acks@.subrange(0, j2);
                        lemma_prefix_extend(
                            old(self).transport.log(),
                            prev_log,
                            acks@.subrange(0, j2),
                        );
                        assert forall|i: int|
                            old(self).transport.log().len() <= i < self.transport.log().len()
                                implies (#[trigger] self.transport.log()[i]).is_ack
                                && self.transport.log()[i].session_id == old(self).id
                                && self.inbox@.contains_key(
                                self.transport.log()[i].ack_num,
                            ) by {
                            if i >= prev_log.len() {
                                assert(self.transport.log()[i] == acks@.subrange(0, j2)[i
                                    - prev_log.len()]);
                                assert(acks@.subrange(0, j2)[i - prev_log.len()] == acks@[i
                                    - prev_log.len()]);
                            }
                        }
                    }
                    return Err(e);
                },
            }
            rounds = rounds + 1;
        }
        Err(Error::Timeout)
    }

    /// Send a byte run reliably: fragment it, then drive a sliding
    /// window of at most `WINDOW_SIZE` in-flight fragments, posting and
    /// re-posting each fragment until the peer has acknowledged it.
    /// Inbound data seen while polling for acknowledgements is buffered
    /// and acknowledged, never discarded. On success every new fragment
    /// has been acknowledged by the peer; `sent` grows by exactly the
    /// given bytes whatever the outcome.
    pub fn send_bytes(&mut self, bytes: Vec<u8>) -> (r: Result<(), Error>)
        requires
            old(self).wf(),
            bytes@.len() > 0,
            old(self).spec_seq() + bytes@.len() <= u64::MAX,
        ensures
            final(self).wf(),
            final(self).spec_id() == old(self).spec_id(),
            final(self).sent() == old(self).sent() + bytes@,
            (old(self).spec_seq() as int) < (final(self).spec_seq() as int),
            (final(self).spec_seq() as int) <= old(self).spec_seq() + bytes@.len(),
            final(self).spec_ack() == old(self).spec_ack(),
            final(self).delivered() == old(self).delivered(),
            forall|t: u64|
                #[trigger] old(self).outbox().contains_key(t) ==> final(self).outbox().contains_key(t)
                    && final(self).outbox()[t] == old(self).outbox()[t],
            forall|t: u64|
                #[trigger] old(self).inbox().contains_key(t) ==> final(self).inbox().contains_key(
                    t,
                ) && final(self).inbox()[t] == old(self).inbox()[t],
            old(self).acked().subset_of(final(self).acked()),
            old(self).spec_transport().log().is_prefix_of(final(self).spec_transport().log()),
            forall|i: int|
                old(self).spec_transport().log().len() <= i
                    < final(self).spec_transport().log().len()
                    ==> (#[trigger] final(self).spec_transport().log()[i]).session_id
                    == old(self).spec_id() && (!final(self).spec_transport().log()[i].is_ack
                    ==> (old(self).spec_seq() as int)
                    <= (final(self).spec_transport().log()[i].seq_num as int)
                    < (final(self).spec_seq() as int)
                    && final(self).spec_transport().log()[i].data@
                    == final(self).outbox()[final(self).spec_transport().log()[i].seq_num])
                    && (final(self).spec_transport().log()[i].is_ack
                    ==> final(self).inbox().contains_key(
                    final(self).spec_transport().log()[i].ack_num,
                )),
            r is Ok ==> forall|s: u64|
                (old(self).spec_seq() as int) <= (s as int) < (final(self).spec_seq() as int)
                    ==> final(self).acked().contains(s),
    {
        let ghost s0 = old(self).spec_seq();
        let packets = self.make_packets(bytes);
        let n = packets.len();
        let ghost og_outbox = self.outbox@;
        proof {
            lemma_prefix_refl(self.transport.log());
        }

        // The set of fragments not yet acknowledged by the peer.
        let mut waiting: BTreeSet<u64> = BTreeSet::new();
        let mut i: usize = 0;
        while i < n
            invariant
                i <= n,
                n == packets@.len(),
                s0 + n <= u64::MAX,
                forall|j: int|
                    0 <= j < n ==> (#[trigger] packets@[j]).seq_num == (s0 + j) as u64,
                forall|s: u64|
                    #[trigger] waiting@.contains(s) <==> (s0 as int) <= (s as int) < (s0 as int)
                        + i,
            decreases n - i,
        {
            let p = slice_index_get(packets.as_slice(), i);
            let ghost prev_waiting = waiting@;
            waiting.insert(p.seq());
            proof {
                assert(waiting@ == prev_waiting.insert(p.seq_num));
                assert forall|s: u64|
                    #[trigger] waiting@.contains(s) <==> (s0 as int) <= (s as int) < (s0 as int)
                        + i + 1 by {
                    if s == p.seq_num {
                        assert(waiting@.contains(s));
                    }
                }
            }
            i = i + 1;
        }

        let mut window = SlidingWindow::new(packets.as_slice(), WINDOW_SIZE);
        let mut total_rounds: u32 = 0;
        while total_rounds < MAX_SEND_ROUNDS
            invariant
                self.wf(),
                self.id == old(self).id,
                self.ack == old(self).ack,
                self.delivered@ == old(self).delivered@,
                self.sent@ == old(self).sent@ + bytes@,
                self.outbox@ == og_outbox,
                forall|t: u64|
                    #[trigger] old(self).outbox@.contains_key(t) ==> og_outbox.contains_key(t)
                        && og_outbox[t] == old(self).outbox@[t],
                forall|t: u64|
                    #[trigger] old(self).inbox@.contains_key(t) ==> self.inbox@.contains_key(t)
                        && self.inbox@[t] == old(self).inbox@[t],
                old(self).acked@.subset_of(self.acked@),
                n == packets@.len(),
                0 < n,
                s0 == old(self).seq,
                s0 + n <= u64::MAX,
                self.seq == (s0 + n) as u64,
                (old(self).seq as int) < (self.seq as int) <= (old(self).seq as int)
                    + bytes@.len(),
                forall|j: int|
                    0 <= j < n ==> {
                        &&& (#[trigger] packets@[j]).seq_num == (s0 + j) as u64
                        &&& !packets@[j].is_ack
                        &&& packets@[j].session_id == old(self).id
                        &&& 0 < packets@[j].data@.len() <= MAX_DATA_BYTES
                        &&& og_outbox[packets@[j].seq_num] == packets@[j].data@
                    },
                old(self).transport.log().is_prefix_of(self.transport.log()),
                forall|i: int|
                    old(self).transport.log().len() <= i < self.transport.log().len() ==> (
                    #[trigger] self.transport.log()[i]).session_id == old(self).id && (
                    !self.transport.log()[i].is_ack ==> (s0 as int)
                        <= (self.transport.log()[i].seq_num as int) < (s0 as int) + n
                        && self.transport.log()[i].data@ == og_outbox[self.transport.log()[i].seq_num])
                        && (self.transport.log()[i].is_ack ==> self.inbox@.contains_key(
                        self.transport.log()[i].ack_num,
                    )),
                window.wf(),
                window.contents() == packets@,
                window.capacity() == WINDOW_SIZE,
                window.pos() < n,
                forall|s: u64|
                    #[trigger] waiting@.contains(s) ==> (s0 as int) + window.pos() <= (s as int)
                        < (s0 as int) + n,
                waiting@.contains(packets@[window.pos() as int].seq_num),
                forall|s: u64|
                    (s0 as int) <= (s as int) < (s0 as int) + n && !waiting@.contains(s)
                        ==> #[trigger] self.acked@.contains(s),
            decreases MAX_SEND_ROUNDS - total_rounds,
        {
            // Post every fragment in the window that is still waiting;
            // first posts and retransmissions share this path.
            let win = window.get();
            let mut to_send: Vec<Packet> = Vec::new();
            let mut k: usize = 0;
            while k < win.len()
                invariant
                    k <= win@.len(),
                    win@ == window.contents().subrange(
                        window.pos() as int,
                        window.upper() as int,
                    ),
                    window.wf(),
                    window.contents() == packets@,
                    window.pos() < n,
                    n == packets@.len(),
                    s0 + n <= u64::MAX,
                    forall|j: int|
                        0 <= j < n ==> {
                            &&& (#[trigger] packets@[j]).seq_num == (s0 + j) as u64
                            &&& !packets@[j].is_ack
                            &&& packets@[j].session_id == old(self).id
                            &&& 0 < packets@[j].data@.len() <= MAX_DATA_BYTES
                            &&& og_outbox[packets@[j].seq_num] == packets@[j].data@
                        },
                    waiting@.contains(packets@[window.pos() as int].seq_num),
                    forall|j: int| 0 <= j < to_send@.len() ==> fits_on_wire(#[trigger] to_send@[j]),
                    forall|j: int|
                        0 <= j < to_send@.len() ==> !(#[trigger] to_send@[j]).is_ack
                            && to_send@[j].session_id == old(self).id && (s0 as int) <= (
                        to_send@[j].seq_num as int) < (s0 as int) + n && to_send@[j].data@
                            == og_outbox[to_send@[j].seq_num],
                    k > 0 ==> to_send@.len() > 0,
                decreases win@.len() - k,
            {
                let p = slice_index_get(win, k);
                if waiting.contains(&p.seq()) {
                    to_send.push(p.clone());
                }
                proof {
                    if k == 0 {
                        assert(win@[0] == packets@[window.pos() as int]);
                        assert(waiting@.contains(p.seq_num));
                    }
                }
                k = k + 1;
            }
            assert(to_send.len() > 0);
            let ghost to_send_view = to_send@;
            let ghost prev_log = self.transport.log();
            match self.transport.send_burst(to_send) {
                Ok(()) => {
                    proof {
                        lemma_prefix_extend(old(self).transport.log(), prev_log, to_send_view);
                        assert forall|i: int|
                            old(self).transport.log().len() <= i < self.transport.log().len()
                                implies (#[trigger] self.transport.log()[i]).session_id == old(
                                self,
                            ).id && (!self.transport.log()[i].is_ack ==> (s0 as int)
                                <= (self.transport.log()[i].seq_num as int) < (s0 as int) + n
                                && self.transport.log()[i].data@
                                == og_outbox[self.transport.log()[i].seq_num]) && (
                            self.transport.log()[i].is_ack ==> self.inbox@.contains_key(
                                self.transport.log()[i].ack_num,
                            )) by {
                            if i >= prev_log.len() {
                                assert(self.transport.log()[i] == to_send_view[i
                                    - prev_log.len()]);
                            }
                        }
                    }
                },
                Err(e) => {
                    proof {
                        let j2 = choose|j2: int|
                            0 <= j2 <= to_send_view.len() && self.transport.log() == prev_log
                                + to_send_view.subrange(0, j2);
                        lemma_prefix_extend(
                            old(self).transport.log(),
                            prev_log,
                            to_send_view.subrange(0, j2),
                        );
                        assert forall|i: int|
                            old(self).transport.log().len() <= i < self.transport.log().len()
                                implies (#[trigger] self.transport.log()[i]).session_id == old(
                                self,
                            ).id && (!self.transport.log()[i].is_ack ==> (s0 as int)
                                <= (self.transport.log()[i].seq_num as int) < (s0 as int) + n
                                && self.transport.log()[i].data@
                                == og_outbox[self.transport.log()[i].seq_num]) && (
                            self.transport.log()[i].is_ack ==> self.inbox@.contains_key(
                                self.transport.log()[i].ack_num,
                            )) by {
                            if i >= prev_log.len() {
                                assert(self.transport.log()[i] == to_send_view.subrange(0, j2)[i
                                    - prev_log.len()]);
                                assert(to_send_view.subrange(0, j2)[i - prev_log.len()]
                                    == to_send_view[i - prev_log.len()]);
                            }
                        }
                    }
                    return Err(e);
                },
            }

            // Poll for acknowledgements, buffering and acknowledging any
            // inbound data seen on the way; slide the window over every
            // acknowledged front fragment, and repost newly exposed ones.
            let mut round: u32 = 0;
            while round < MAX_POLL_CQ_RETRY
                invariant
                    self.wf(),
                    self.id == old(self).id,
                    self.ack == old(self).ack,
                    self.delivered@ == old(self).delivered@,
                    self.sent@ == old(self).sent@ + bytes@,
                    self.outbox@ == og_outbox,
                    forall|t: u64|
                        #[trigger] old(self).inbox@.contains_key(t) ==> self.inbox@.contains_key(
                            t,
                        ) && self.inbox@[t] == old(self).inbox@[t],
                    old(self).acked@.subset_of(self.acked@),
                    n == packets@.len(),
                    0 < n,
                    n <= bytes@.len(),
                    s0 == old(self).seq,
                    s0 + n <= u64::MAX,
                    self.seq == (s0 + n) as u64,
                    forall|t: u64|
                        #[trigger] old(self).outbox@.contains_key(t) ==> og_outbox.contains_key(t)
                            && og_outbox[t] == old(self).outbox@[t],
                    forall|j: int|
                        0 <= j < n ==> {
                            &&& (#[trigger] packets@[j]).seq_num == (s0 + j) as u64
                            &&& !packets@[j].is_ack
                            &&& packets@[j].session_id == old(self).id
                            &&& 0 < packets@[j].data@.len() <= MAX_DATA_BYTES
                            &&& og_outbox[packets@[j].seq_num] == packets@[j].data@
                        },
                    old(self).transport.log().is_prefix_of(self.transport.log()),
                    forall|i: int|
                        old(self).transport.log().len() <= i < self.transport.log().len() ==> (
                        #[trigger] self.transport.log()[i]).session_id == old(self).id && (
                        !self.transport.log()[i].is_ack ==> (s0 as int)
                            <= (self.transport.log()[i].seq_num as int) < (s0 as int) + n
                            && self.transport.log()[i].data@
                            == og_outbox[self.transport.log()[i].seq_num]) && (
                        self.transport.log()[i].is_ack ==> self.inbox@.contains_key(
                            self.transport.log()[i].ack_num,
                        )),
                    window.wf(),
                    window.contents() == packets@,
                    window.capacity() == WINDOW_SIZE,
                    window.pos() < n,
                    forall|s: u64|
                        #[trigger] waiting@.contains(s) ==> (s0 as int) + window.pos() <= (s
                            as int) < (s0 as int) + n,
                    waiting@.contains(packets@[window.pos() as int].seq_num),
                    forall|s: u64|
                        (s0 as int) <= (s as int) < (s0 as int) + n && !waiting@.contains(s)
                            ==> #[trigger] self.acked@.contains(s),
                decreases n - window.pos(), MAX_POLL_CQ_RETRY - round,
            {
                let mut inbound: Vec<Packet> = Vec::new();
                match self.transport.poll_recv(POLL_INTERVAL as u64) {
                    Ok(ps) => {
                        inbound = ps;
                    },
                    Err(e) => {
                        match e {
                            // One bad datagram must not kill the
                            // session: poll again next round.
                            Error::DecodeEncode(_) => {},
                            other => {
                                return Err(other);
                            },
                        }
                    },
                }
                let mut acks_out: Vec<Packet> = Vec::new();
                while inbound.len() > 0
                    invariant
                        self.wf(),
                        self.id == old(self).id,
                        self.ack == old(self).ack,
                        self.delivered@ == old(self).delivered@,
                        self.sent@ == old(self).sent@ + bytes@,
                        self.outbox@ == og_outbox,
                        forall|t: u64|
                            #[trigger] old(self).inbox@.contains_key(t)
                                ==> self.inbox@.contains_key(t) && self.inbox@[t] == old(
                                self,
                            ).inbox@[t],
                        old(self).acked@.subset_of(self.acked@),
                        n == packets@.len(),
                        0 < n,
                        n <= bytes@.len(),
                        s0 == old(self).seq,
                        s0 + n <= u64::MAX,
                        self.seq == (s0 + n) as u64,
                        forall|t: u64|
                            #[trigger] old(self).outbox@.contains_key(t)
                                ==> og_outbox.contains_key(t) && og_outbox[t] == old(
                                self,
                            ).outbox@[t],
                        forall|s: u64|
                            #[trigger] waiting@.contains(s) ==> (s0 as int) + window.pos() <= (s
                                as int) < (s0 as int) + n,
                        forall|s: u64|
                            (s0 as int) <= (s as int) < (s0 as int) + n && !waiting@.contains(s)
                                ==> #[trigger] self.acked@.contains(s),
                        forall|j: int|
                            0 <= j < acks_out@.len() ==> fits_on_wire(#[trigger] acks_out@[j]),
                        forall|j: int|
                            0 <= j < acks_out@.len() ==> (#[trigger] acks_out@[j]).is_ack
                                && acks_out@[j].session_id == old(self).id
                                && self.inbox@.contains_key(acks_out@[j].ack_num),
                        old(self).transport.log().is_prefix_of(self.transport.log()),
                        forall|i: int|
                            old(self).transport.log().len() <= i < self.transport.log().len()
                                ==> (#[trigger] self.transport.log()[i]).session_id == old(
                                self,
                            ).id && (!self.transport.log()[i].is_ack ==> (s0 as int)
                                <= (self.transport.log()[i].seq_num as int) < (s0 as int) + n
                                && self.transport.log()[i].data@
                                == og_outbox[self.transport.log()[i].seq_num]) && (
                            self.transport.log()[i].is_ack ==> self.inbox@.contains_key(
                                self.transport.log()[i].ack_num,
                            )),
                    decreases inbound@.len(),
                {
                    let packet = match inbound.pop() {
                        Some(p) => p,
                        None => {
                            proof {
                                assert(false);
                            }
                            return Err(Error::Receive);
                        },
                    };
                    if packet.session_id() != self.id {
                        // A mis-routed packet is fatal for this session.
                        return Err(
                            Error::Internal("session id mismatch on inbound packet".to_owned()),
                        );
                    }
                    if packet.is_ack() {
                        let a = packet.ack();
                        let ghost prev_waiting = waiting@;
                        let ghost prev_acked = self.acked@;
                        proof {
                            self.acked@ = self.acked@.insert(a);
                        }
                        waiting.remove(&a);
                        proof {
                            assert(waiting@ == prev_waiting.remove(a));
                            assert forall|s: u64|
                                (s0 as int) <= (s as int) < (s0 as int) + n && !waiting@.contains(
                                    s,
                                ) implies #[trigger] self.acked@.contains(s) by {
                                if s != a {
                                    assert(!prev_waiting.contains(s));
                                    assert(prev_acked.contains(s));
                                }
                            }
                        }
                    } else {
                        acks_out.push(Packet::new_ack(packet.seq(), self.id));
                        self.insert_recv_buffer(packet);
                    }
                }
                let ghost acks_view = acks_out@;
                let ghost prev_log2 = self.transport.log();
                match self.transport.send_burst(acks_out) {
                    Ok(()) => {
                        proof {
                            lemma_prefix_extend(old(self).transport.log(), prev_log2, acks_view);
                            assert forall|i: int|
                                old(self).transport.log().len() <= i < self.transport.log().len()
                                    implies (#[trigger] self.transport.log()[i]).session_id
                                    == old(self).id && (!self.transport.log()[i].is_ack ==> (s0
                                    as int) <= (self.transport.log()[i].seq_num as int) < (s0
                                    as int) + n && self.transport.log()[i].data@
                                    == og_outbox[self.transport.log()[i].seq_num]) && (
                                self.transport.log()[i].is_ack ==> self.inbox@.contains_key(
                                    self.transport.log()[i].ack_num,
                                )) by {
                                if i >= prev_log2.len() {
                                    assert(self.transport.log()[i] == acks_view[i
                                        - prev_log2.len()]);
                                }
                            }
                        }
                    },
                    Err(e) => {
                        proof {
                            let j2 = choose|j2: int|
                                0 <= j2 <= acks_view.len() && self.transport.log() == prev_log2
                                    + acks_view.subrange(0, j2);
                            lemma_prefix_extend(
                                old(self).transport.log(),
                                prev_log2,
                                acks_view.subrange(0, j2),
                            );
                            assert forall|i: int|
                                old(self).transport.log().len() <= i < self.transport.log().len()
                                    implies (#[trigger] self.transport.log()[i]).session_id
                                    == old(self).id && (!self.transport.log()[i].is_ack ==> (s0
                                    as int) <= (self.transport.log()[i].seq_num as int) < (s0
                                    as int) + n && self.transport.log()[i].data@
                                    == og_outbox[self.transport.log()[i].seq_num]) && (
                                self.transport.log()[i].is_ack ==> self.inbox@.contains_key(
                                    self.transport.log()[i].ack_num,
                                )) by {
                                if i >= prev_log2.len() {
                                    assert(self.transport.log()[i] == acks_view.subrange(
                                        0,
                                        j2,
                                    )[i - prev_log2.len()]);
                                    assert(acks_view.subrange(0, j2)[i - prev_log2.len()]
                                        == acks_view[i - prev_log2.len()]);
                                }
                            }
                        }
                        return Err(e);
                    },
                }

                // Advance the window past everything acknowledged at the
                // front; if it closes, every fragment has been
                // acknowledged and the send is complete.
                let last_sent_seq = window.last().seq();
                while !waiting.contains(&window.first().seq())
                    invariant
                        self.wf(),
                        self.id == old(self).id,
                        self.ack == old(self).ack,
                        self.delivered@ == old(self).delivered@,
                        self.sent@ == old(self).sent@ + bytes@,
                        self.outbox@ == og_outbox,
                        forall|t: u64|
                            #[trigger] old(self).outbox@.contains_key(t)
                                ==> og_outbox.contains_key(t) && og_outbox[t] == old(
                                self,
                            ).outbox@[t],
                        forall|t: u64|
                            #[trigger] old(self).inbox@.contains_key(t)
                                ==> self.inbox@.contains_key(t) && self.inbox@[t] == old(
                                self,
                            ).inbox@[t],
                        old(self).acked@.subset_of(self.acked@),
                        0 < n,
                        n <= bytes@.len(),
                        s0 == old(self).seq,
                        self.seq == (s0 + n) as u64,
                        window.wf(),
                        window.contents() == packets@,
                        window.capacity() == WINDOW_SIZE,
                        window.pos() < n,
                        n == packets@.len(),
                        s0 + n <= u64::MAX,
                        forall|j: int|
                            0 <= j < n ==> (#[trigger] packets@[j]).seq_num == (s0 + j) as u64,
                        forall|s: u64|
                            #[trigger] waiting@.contains(s) ==> (s0 as int) + window.pos() <= (s
                                as int) < (s0 as int) + n,
                        forall|s: u64|
                            (s0 as int) <= (s as int) < (s0 as int) + n && !waiting@.contains(s)
                                ==> #[trigger] self.acked@.contains(s),
                        old(self).transport.log().is_prefix_of(self.transport.log()),
                        forall|i: int|
                            old(self).transport.log().len() <= i < self.transport.log().len()
                                ==> (#[trigger] self.transport.log()[i]).session_id == old(
                                self,
                            ).id && (!self.transport.log()[i].is_ack ==> (s0 as int)
                                <= (self.transport.log()[i].seq_num as int) < (s0 as int) + n
                                && self.transport.log()[i].data@
                                == og_outbox[self.transport.log()[i].seq_num]) && (
                            self.transport.log()[i].is_ack ==> self.inbox@.contains_key(
                                self.transport.log()[i].ack_num,
                            )),
                    decreases n - window.pos(),
                {
                    window.slide();
                    if window.is_closed() {
                        proof {
                            assert forall|s: u64|
                                (old(self).spec_seq() as int) <= (s as int) < (self.seq as int)
                                    implies self.acked@.contains(s) by {
                                assert(!waiting@.contains(s));
                            }
                        }
                        return Ok(());
                    }
                    proof {
                        assert forall|s: u64| #[trigger] waiting@.contains(s) implies (s0 as int)
                            + window.pos() <= (s as int) < (s0 as int) + n by {
                            assert((s as int) != (s0 as int) + (window.pos() - 1));
                        }
                    }
                }

                proof {
                    // At most a window of fragments is unacknowledged
                    // on the wire at this point.
                    crate::laws::lemma_window_bound(
                        waiting@,
                        s0,
                        window.pos() as int,
                        window.upper() as int,
                        n as int,
                    );
                }

                // If the window moved, expose and post the fresh
                // fragments at once and reset the stall counter.
                if window.last().seq() > last_sent_seq {
                    round = 0;
                    let win2 = window.get();
                    let mut fresh: Vec<Packet> = Vec::new();
                    let mut k2: usize = 0;
                    while k2 < win2.len()
                        invariant
                            k2 <= win2@.len(),
                            win2@ == window.contents().subrange(
                                window.pos() as int,
                                window.upper() as int,
                            ),
                            window.wf(),
                            window.contents() == packets@,
                            window.pos() < n,
                            n == packets@.len(),
                            s0 + n <= u64::MAX,
                            forall|j: int|
                                0 <= j < n ==> {
                                    &&& (#[trigger] packets@[j]).seq_num == (s0 + j) as u64
                                    &&& !packets@[j].is_ack
                                    &&& packets@[j].session_id == old(self).id
                                    &&& 0 < packets@[j].data@.len() <= MAX_DATA_BYTES
                                    &&& og_outbox[packets@[j].seq_num] == packets@[j].data@
                                },
                            forall|j: int|
                                0 <= j < fresh@.len() ==> fits_on_wire(#[trigger] fresh@[j]),
                            forall|j: int|
                                0 <= j < fresh@.len() ==> !(#[trigger] fresh@[j]).is_ack
                                    && fresh@[j].session_id == old(self).id && (s0 as int) <= (
                                fresh@[j].seq_num as int) < (s0 as int) + n && fresh@[j].data@
                                    == og_outbox[fresh@[j].seq_num],
                        decreases win2@.len() - k2,
                    {
                        let p = slice_index_get(win2, k2);
                        if p.seq() > last_sent_seq {
                            fresh.push(p.clone());
                        }
                        k2 = k2 + 1;
                    }
                    let ghost fresh_view = fresh@;
                    let ghost prev_log3 = self.transport.log();
                    match self.transport.send_burst(fresh) {
                        Ok(()) => {
                            proof {
                                lemma_prefix_extend(
                                    old(self).transport.log(),
                                    prev_log3,
                                    fresh_view,
                                );
                                assert forall|i: int|
                                    old(self).transport.log().len() <= i
                                        < self.transport.log().len() implies (
                                    #[trigger] self.transport.log()[i]).session_id == old(
                                        self,
                                    ).id && (!self.transport.log()[i].is_ack ==> (s0 as int)
                                        <= (self.transport.log()[i].seq_num as int) < (s0
                                        as int) + n && self.transport.log()[i].data@
                                        == og_outbox[self.transport.log()[i].seq_num]) && (
                                    self.transport.log()[i].is_ack
                                        ==> self.inbox@.contains_key(
                                        self.transport.log()[i].ack_num,
                                    )) by {
                                    if i >= prev_log3.len() {
                                        assert(self.transport.log()[i] == fresh_view[i
                                            - prev_log3.len()]);
                                    }
                                }
                            }
                        },
                        Err(e) => {
                            proof {
                                let j2 = choose|j2: int|
                                    0 <= j2 <= fresh_view.len() && self.transport.log()
                                        == prev_log3 + fresh_view.subrange(0, j2);
                                lemma_prefix_extend(
                                    old(self).transport.log(),
                                    prev_log3,
                                    fresh_view.subrange(0, j2),
                                );
                                assert forall|i: int|
                                    old(self).transport.log().len() <= i
                                        < self.transport.log().len() implies (
                                    #[trigger] self.transport.log()[i]).session_id == old(
                                        self,
                                    ).id && (!self.transport.log()[i].is_ack ==> (s0 as int)
                                        <= (self.transport.log()[i].seq_num as int) < (s0
                                        as int) + n && self.transport.log()[i].data@
                                        == og_outbox[self.transport.log()[i].seq_num]) && (
                                    self.transport.log()[i].is_ack
                                        ==> self.inbox@.contains_key(
                                        self.transport.log()[i].ack_num,
                                    )) by {
                                    if i >= prev_log3.len() {
                                        assert(self.transport.log()[i] == fresh_view.subrange(
                                            0,
                                            j2,
                                        )[i - prev_log3.len()]);
                                        assert(fresh_view.subrange(0, j2)[i - prev_log3.len()]
                                            == fresh_view[i - prev_log3.len()]);
                                    }
                                }
                            }
                            return Err(e);
                        },
                    }
                } else {
                    round = round + 1;
                }
            }
            total_rounds = total_rounds + 1;
        }
        Err(Error::Timeout)
    }

    /// Send one framed message: the serialised value behind an
    /// eight-byte big-endian length prefix. On success the peer has
    /// acknowledged every fragment of the framed message.
    pub fn send(&mut self, payload: Vec<u8>) -> (r: Result<(), Error>)
        requires
            old(self).wf(),
            payload@.len() + FRAME_PREFIX_BYTES <= usize::MAX,
            old(self).spec_seq() + payload@.len() + FRAME_PREFIX_BYTES <= u64::MAX,
        ensures
            final(self).wf(),
            final(self).spec_id() == old(self).spec_id(),
            final(self).sent() == old(self).sent() + spec_frame(payload@),
            final(self).spec_ack() == old(self).spec_ack(),
            final(self).delivered() == old(self).delivered(),
            forall|t: u64|
                #[trigger] old(self).inbox().contains_key(t) ==> final(self).inbox().contains_key(
                    t,
                ) && final(self).inbox()[t] == old(self).inbox()[t],
            (old(self).spec_seq() as int) < (final(self).spec_seq() as int),
    {
        let framed = frame_message(payload);
        self.send_bytes(framed)
    }

    /// Whether a complete length-prefixed frame already sits in the
    /// reorder buffer: the contiguous run at the delivery counter opens
    /// with a length prefix the machine can hold and carries at least
    /// that many payload bytes, so one `recv` is owed success without
    /// touching the transport.
    pub open spec fn frame_ready(&self) -> bool {
        &&& pending_stream(self.buffered(), self.spec_ack()).len() >= FRAME_PREFIX_BYTES
        &&& (spec_u64_from_be_bytes(
            pending_stream(self.buffered(), self.spec_ack()).subrange(0, 8),
        ) as int) <= usize::MAX - FRAME_PREFIX_BYTES
        &&& FRAME_PREFIX_BYTES + (spec_u64_from_be_bytes(
            pending_stream(self.buffered(), self.spec_ack()).subrange(0, 8),
        ) as int) <= pending_stream(self.buffered(), self.spec_ack()).len()
    }

    /// Receive one framed message: gather in-order bytes until the
    /// length prefix and the full payload are in, then hand the payload
    /// back. Bytes delivered beyond the frame are discarded, as message
    /// boundaries are the frame's concern alone.
    pub fn recv(&mut self) -> (r: Result<Vec<u8>, Error>)
        requires
            old(self).wf(),
        ensures
            final(self).wf(),
            final(self).spec_id() == old(self).spec_id(),
            final(self).spec_seq() == old(self).spec_seq(),
            final(self).outbox() == old(self).outbox(),
            final(self).sent() == old(self).sent(),
            (final(self).spec_ack() as int) >= (old(self).spec_ack() as int),
            old(self).frame_ready() ==> r is Ok,
            old(self).delivered().is_prefix_of(final(self).delivered()),
            match r {
                Ok(payload) => {
                    let gathered = final(self).delivered().skip(
                        old(self).delivered().len() as int,
                    );
                    &&& gathered.len() >= FRAME_PREFIX_BYTES
                    &&& (spec_u64_from_be_bytes(gathered.subrange(0, 8)) as int) + 8
                        <= gathered.len()
                    &&& payload@ == gathered.subrange(
                        8,
                        8 + spec_u64_from_be_bytes(gathered.subrange(0, 8)) as int,
                    )
                },
                Err(_) => true,
            },
    {
        let mut bytes = match self.recv_bytes() {
            Ok(b) => b,
            Err(e) => {
                proof {
                    if old(self).frame_ready() {
                        assert(pending_stream(old(self).recv_buffer@, old(self).ack).len() > 0);
                        assert(false);
                    }
                    assert(old(self).delivered().is_prefix_of(self.delivered@)) by {
                        assert(self.delivered@.subrange(0, self.delivered@.len() as int)
                            =~= self.delivered@);
                    }
                }
                return Err(e);
            },
        };
        while bytes.len() < FRAME_PREFIX_BYTES
            invariant
                self.wf(),
                self.id == old(self).id,
                self.seq == old(self).seq,
                self.outbox@ == old(self).outbox@,
                self.sent@ == old(self).sent@,
                self.delivered@ == old(self).delivered@ + bytes@,
                bytes@.len() > 0,
                (self.ack as int) >= (old(self).ack as int),
                old(self).frame_ready() ==> bytes@ == pending_stream(
                    old(self).recv_buffer@,
                    old(self).ack,
                ),
            decreases still_missing(FRAME_PREFIX_BYTES as int, bytes@.len() as int),
        {
            let mut more = match self.recv_bytes() {
                Ok(b) => b,
                Err(e) => {
                    proof {
                        assert(old(self).delivered().is_prefix_of(self.delivered@)) by {
                            assert((old(self).delivered@ + bytes@).subrange(
                                0,
                                old(self).delivered@.len() as int,
                            ) =~= old(self).delivered@);
                        }
                    }
                    return Err(e);
                },
            };
            bytes.append(&mut more);
            proof {
                assert(self.delivered@ =~= old(self).delivered@ + bytes@);
            }
        }
        let size = u64_from_be_bytes(slice_subrange(bytes.as_slice(), 0, 8));
        if size > (usize::MAX - FRAME_PREFIX_BYTES) as u64 {
            proof {
                if old(self).frame_ready() {
                    assert(bytes@.subrange(0, 8) == pending_stream(
                        old(self).recv_buffer@,
                        old(self).ack,
                    ).subrange(0, 8));
                    assert(false);
                }
                assert(old(self).delivered().is_prefix_of(self.delivered@)) by {
                    assert((old(self).delivered@ + bytes@).subrange(
                        0,
                        old(self).delivered@.len() as int,
                    ) =~= old(self).delivered@);
                }
            }
            return Err(Error::DecodeEncode("length prefix exceeds address space".to_owned()));
        }
        let total = size as usize + FRAME_PREFIX_BYTES;
        while bytes.len() < total
            invariant
                self.wf(),
                self.id == old(self).id,
                self.seq == old(self).seq,
                self.outbox@ == old(self).outbox@,
                self.sent@ == old(self).sent@,
                self.delivered@ == old(self).delivered@ + bytes@,
                bytes@.len() >= FRAME_PREFIX_BYTES,
                total == size as int + FRAME_PREFIX_BYTES,
                size == spec_u64_from_be_bytes(bytes@.subrange(0, 8)),
                (self.ack as int) >= (old(self).ack as int),
                old(self).frame_ready() ==> bytes@ == pending_stream(
                    old(self).recv_buffer@,
                    old(self).ack,
                ),
            decreases still_missing(total as int, bytes@.len() as int),
        {
            let ghost prev_bytes = bytes@;
            let mut more = match self.recv_bytes() {
                Ok(b) => b,
                Err(e) => {
                    proof {
                        assert(old(self).delivered().is_prefix_of(self.delivered@)) by {
                            assert((old(self).delivered@ + bytes@).subrange(
                                0,
                                old(self).delivered@.len() as int,
                            ) =~= old(self).delivered@);
                        }
                    }
                    return Err(e);
                },
            };
            bytes.append(&mut more);
            proof {
                assert(bytes@.subrange(0, 8) =~= prev_bytes.subrange(0, 8));
                assert(self.delivered@ =~= old(self).delivered@ + bytes@);
            }
        }
        let mut payload: Vec<u8> = Vec::new();
        let mut idx: usize = FRAME_PREFIX_BYTES;
        while idx < total
            invariant
                FRAME_PREFIX_BYTES <= idx <= total,
                total <= bytes@.len(),
                payload@ == bytes@.subrange(8, idx as int),
            decreases total - idx,
        {
            let b = *slice_index_get(bytes.as_slice(), idx);
            payload.push(b);
            proof {
                assert(payload@ =~= bytes@.subrange(8, idx + 1 as int));
            }
            idx = idx + 1;
        }
        proof {
            assert(old(self).delivered().is_prefix_of(self.delivered@)) by {
                assert((old(self).delivered@ + bytes@).subrange(
                    0,
                    old(self).delivered@.len() as int,
                ) =~= old(self).delivered@);
            }
            let gathered = self.delivered@.skip(old(self).delivered@.len() as int);
            assert(gathered =~= bytes@);
            assert(gathered.subrange(0, 8) == bytes@.subrange(0, 8));
            assert(payload@ == gathered.subrange(8, 8 + size as int));
        }
        Ok(payload)
    }
}

} // verus!
