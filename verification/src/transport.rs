//! The datagram transport: moves whole packets to and from one remote
//! endpoint, harvesting completions and recycling buffers.
//!
//! Each posted datagram is tagged with the id of the buffer it was
//! serialised into, which decouples the completion stream from any
//! application-level sequencing. The send pool's used set always equals
//! the set of ids awaiting a harvested completion, and every receive
//! buffer is always posted; together with the pool contracts this is the
//! buffer-conservation argument: an id handed out is given back exactly
//! once, when its completion is seen.

use crate::error::Error;
use crate::messages::QPInfo;
use crate::packet::{copy_bytes, encode_packet, spec_encode, Packet, PACKET_HEADER_BYTES};
use crate::pool::BufferPool;
use crate::wire::{wire_pair, wire_recv, wire_recv_timeout, wire_send, wire_try_recv};
use vstd::prelude::*;
use vstd::slice::slice_index_get;

verus! {

/// Size of one datagram buffer.
pub const MTU: usize = 1024;

/// Bytes reserved at the start of a received datagram for the fabric's
/// routing header.
pub const UD_DATA_OFFSET: usize = 40;

/// The largest encoded packet that fits a datagram.
pub const MAX_PACKET_BYTES: usize = MTU - UD_DATA_OFFSET;

/// The largest payload one packet may carry.
pub const MAX_DATA_BYTES: usize = MAX_PACKET_BYTES - PACKET_HEADER_BYTES;

/// Buffers per pool; must exceed the largest in-flight set a caller
/// holds, and does: the session's window is smaller.
pub const POOL_SIZE: usize = 64;

/// Whether a packet's encoding fits one datagram.
pub open spec fn fits_on_wire(p: Packet) -> bool {
    p.data@.len() <= MAX_DATA_BYTES
}

/// One directed datagram path to a fixed remote endpoint, with its send
/// and receive buffer pools.
pub struct Transport {
    tx: crossbeam::channel::Sender<Vec<u8>>,
    rx: crossbeam::channel::Receiver<Vec<u8>>,
    send_pool: BufferPool,
    recv_pool: BufferPool,
    /// Send buffer ids posted and not yet harvested, oldest first.
    pending: Vec<u64>,
    /// Receive buffer ids posted to the hardware, oldest first.
    posted: Vec<u64>,
    local: QPInfo,
    /// Every packet ever handed to the wire, in order.
    log: Ghost<Seq<Packet>>,
}

impl Transport {
    /// The packets this transport has handed to the wire, in order.
    pub closed spec fn log(&self) -> Seq<Packet> {
        self.log@
    }

    /// The endpoint description this transport presents to peers.
    pub closed spec fn spec_local(&self) -> QPInfo {
        self.local
    }

    /// The buffer-lifecycle invariant. A send buffer is used exactly
    /// while its id awaits a harvested completion, the pending ids are
    /// distinct, every receive buffer is posted, and the posted ids are
    /// a permutation of the pool.
    pub closed spec fn wf(&self) -> bool {
        &&& self.send_pool.size() == POOL_SIZE
        &&& self.recv_pool.size() == POOL_SIZE
        &&& forall|i: int|
            0 <= i < self.pending@.len() ==> (self.pending@[i] as int) < (POOL_SIZE as int)
        &&& forall|i: int, j: int|
            0 <= i < j < self.pending@.len() ==> self.pending@[i] != self.pending@[j]
        &&& forall|id: u64|
            (id as int) < (POOL_SIZE as int)
                ==> (self.send_pool.is_used(id as int) <==> self.pending@.contains(id))
        &&& self.posted@.len() == POOL_SIZE
        &&& forall|i: int|
            0 <= i < self.posted@.len() ==> (self.posted@[i] as int) < (POOL_SIZE as int)
        &&& forall|i: int, j: int|
            0 <= i < j < self.posted@.len() ==> self.posted@[i] != self.posted@[j]
        &&& forall|id: u64|
            (id as int) < (POOL_SIZE as int) ==> self.recv_pool.is_used(id as int)
    }

    /// Build a transport over one outbound and one inbound wire
    /// endpoint, allocating both pools and posting every receive buffer.
    pub fn new(
        tx: crossbeam::channel::Sender<Vec<u8>>,
        rx: crossbeam::channel::Receiver<Vec<u8>>,
        local: QPInfo,
    ) -> (t: Transport)
        ensures
            t.wf(),
            t.log() == Seq::<Packet>::empty(),
            t.spec_local() == local,
            t.pending_ids() == Seq::<u64>::empty(),
            forall|id: u64|
                (id as int) < (POOL_SIZE as int) ==> !t.send_buffer_used(id as int),
    {
        let send_pool = BufferPool::new(POOL_SIZE);
        let mut recv_pool = BufferPool::new(POOL_SIZE);
        let mut posted: Vec<u64> = Vec::new();
        let mut i: usize = 0;
        while i < POOL_SIZE
            invariant
                i <= POOL_SIZE,
                recv_pool.size() == POOL_SIZE,
                posted@.len() == i,
                forall|j: int| 0 <= j < i ==> posted@[j] == j,
                forall|id: int| 0 <= id < i ==> recv_pool.is_used(id),
                forall|id: int| i <= id < POOL_SIZE ==> !recv_pool.is_used(id),
            decreases POOL_SIZE - i,
        {
            let ghost prev_pool = recv_pool;
            match recv_pool.acquire_free() {
                Some(id) => {
                    proof {
                        if (id as int) < i as int {
                            assert(prev_pool.is_used(id as int));
                            assert(false);
                        }
                        if (id as int) > i as int {
                            assert(prev_pool.is_used(i as int));
                            assert(false);
                        }
                        assert(id as int == i as int);
                    }
                    posted.push(id);
                },
                None => {
                    proof {
                        assert(prev_pool.is_used(i as int));
                        assert(false);
                    }
                },
            }
            i = i + 1;
        }
        Transport {
            tx,
            rx,
            send_pool,
            recv_pool,
            pending: Vec::new(),
            posted,
            local,
            log: Ghost(Seq::empty()),
        }
    }

    /// Two transports wired back to back: what one sends the other may
    /// receive. The pair stands in for two queues brought up on the same
    /// fabric.
    pub fn new_pair(local_a: QPInfo, local_b: QPInfo) -> (r: (Transport, Transport))
        ensures
            r.0.wf(),
            r.1.wf(),
            r.0.log() == Seq::<Packet>::empty(),
            r.1.log() == Seq::<Packet>::empty(),
            r.0.spec_local() == local_a,
            r.1.spec_local() == local_b,
            r.0.pending_ids() == Seq::<u64>::empty(),
            r.1.pending_ids() == Seq::<u64>::empty(),
    {
        let (tx_ab, rx_ab) = wire_pair();
        let (tx_ba, rx_ba) = wire_pair();
        (Transport::new(tx_ab, rx_ba, local_a), Transport::new(tx_ba, rx_ab, local_b))
    }

    /// The send buffer ids whose completion has not been harvested.
    pub closed spec fn pending_ids(&self) -> Seq<u64> {
        self.pending@
    }

    /// The receive buffer ids currently posted, oldest first.
    pub closed spec fn posted_ids(&self) -> Seq<u64> {
        self.posted@
    }

    /// Whether the send buffer with this id is in flight.
    pub closed spec fn send_buffer_used(&self, id: int) -> bool {
        self.send_pool.is_used(id)
    }

    /// Whether the receive buffer with this id is in flight.
    pub closed spec fn recv_buffer_used(&self, id: int) -> bool {
        self.recv_pool.is_used(id)
    }

    /// Buffer conservation: a send buffer is in use exactly while its
    /// id awaits one harvested completion — the pending ids are
    /// distinct, so each acquired buffer is given back exactly once —
    /// and every receive buffer is always posted, the posted ids being
    /// a permutation of the pool.
    pub proof fn lemma_buffer_conservation(&self)
        requires
            self.wf(),
        ensures
            forall|id: u64|
                (id as int) < (POOL_SIZE as int)
                    ==> (self.send_buffer_used(id as int) <==> self.pending_ids().contains(id)),
            forall|i: int, j: int|
                0 <= i < j < self.pending_ids().len() ==> self.pending_ids()[i]
                    != self.pending_ids()[j],
            self.posted_ids().len() == POOL_SIZE,
            forall|i: int, j: int|
                0 <= i < j < self.posted_ids().len() ==> self.posted_ids()[i]
                    != self.posted_ids()[j],
            forall|id: u64|
                (id as int) < (POOL_SIZE as int) ==> self.recv_buffer_used(id as int),
    {
    }

    /// The endpoint description of this transport.
    pub fn qp_info(&self) -> (r: QPInfo)
        ensures
            r == self.spec_local(),
    {
        self.local
    }

    /// Post as many of `packets` as free send buffers allow, after
    /// harvesting the completions of everything posted earlier. Returns
    /// how many packets of the tail could not be posted; when any were
    /// given, at least one is posted.
    pub fn send(&mut self, packets: &[Packet]) -> (r: Result<usize, Error>)
        requires
            old(self).wf(),
            forall|i: int| 0 <= i < packets@.len() ==> fits_on_wire(#[trigger] packets@[i]),
        ensures
            final(self).wf(),
            final(self).spec_local() == old(self).spec_local(),
            match r {
                Ok(k) => {
                    &&& k <= packets@.len()
                    &&& packets@.len() > 0 ==> k < packets@.len()
                    &&& final(self).log() == old(self).log() + packets@.subrange(
                        0,
                        packets@.len() - k,
                    )
                },
                Err(_) => exists|j: int|
                    0 <= j <= packets@.len() && final(self).log() == old(self).log()
                        + packets@.subrange(0, j),
            },
    {
        self.harvest_completions();

        // Post: serialise each packet into a fresh buffer and hand it to
        // the wire; stop when the pool runs dry.
        let n = packets.len();
        let mut j: usize = 0;
        while j < n
            invariant
                j <= n,
                n == packets@.len(),
                forall|x: int| 0 <= x < packets@.len() ==> fits_on_wire(#[trigger] packets@[x]),
                self.wf(),
                self.log@ == old(self).log@ + packets@.subrange(0, j as int),
                self.recv_pool == old(self).recv_pool,
                self.posted@ == old(self).posted@,
                self.tx == old(self).tx,
                self.rx == old(self).rx,
                self.local == old(self).local,
                j < POOL_SIZE ==> self.pending@.len() == j,
            decreases n - j,
        {
            let ghost pool_at_entry = self.send_pool;
            let ghost pending_at_entry = self.pending@;
            match self.send_pool.acquire_free() {
                None => {
                    proof {
                        if j == 0 {
                            assert(pool_at_entry.is_used(0));
                            assert(pending_at_entry.contains(0u64));
                            assert(false);
                        }
                    }
                    return Ok(n - j);
                },
                Some(id) => {
                    let packet = slice_index_get(packets, j);
                    let bytes = encode_packet(packet);
                    let stored = copy_bytes(&bytes);
                    self.send_pool.store(id, stored);
                    let ok = wire_send(&self.tx, bytes);
                    if !ok {
                        let freed = self.send_pool.mark_free(id);
                        proof {
                            assert(freed.is_ok());
                            assert forall|x: u64| (x as int) < (POOL_SIZE as int) implies (
                            self.send_pool.is_used(x as int) <==> self.pending@.contains(x)) by {
                                assert(self.send_pool.is_used(x as int) == (x != id
                                    && pool_at_entry.is_used(x as int)));
                            }
                            assert(self.log@ == old(self).log@ + packets@.subrange(0, j as int));
                        }
                        return Err(Error::Internal("the wire rejected a datagram".to_owned()));
                    }
                    self.pending.push(id);
                    proof {
                        self.log@ = self.log@.push(packets@[j as int]);
                        assert(self.log@ =~= old(self).log@ + packets@.subrange(0, j + 1 as int));
                        assert forall|x: u64| (x as int) < (POOL_SIZE as int) implies (
                        self.send_pool.is_used(x as int) <==> self.pending@.contains(x)) by {
                            assert(self.pending@ == pending_at_entry.push(id));
                            if x == id {
                                assert(self.pending@.last() == id);
                                assert(self.pending@.contains(x));
                                assert(self.send_pool.is_used(id as int));
                            } else {
                                assert(self.send_pool.is_used(x as int) == pool_at_entry.is_used(
                                    x as int,
                                ));
                                if self.pending@.contains(x) {
                                    let w = choose|w: int|
                                        0 <= w < self.pending@.len() && self.pending@[w] == x;
                                    assert(w < self.pending@.len() - 1);
                                    assert(pending_at_entry[w] == x);
                                    assert(pending_at_entry.contains(x));
                                } else {
                                    if pending_at_entry.contains(x) {
                                        let w = choose|w: int|
                                            0 <= w < pending_at_entry.len() && pending_at_entry[w]
                                                == x;
                                        assert(self.pending@[w] == x);
                                        assert(self.pending@.contains(x));
                                        assert(false);
                                    }
                                }
                            }
                        }
                        assert forall|a: int, b: int|
                            0 <= a < b < self.pending@.len() implies self.pending@[a]
                            != self.pending@[b] by {
                            if b == self.pending@.len() - 1 {
                                assert(self.pending@[a] == pending_at_entry[a]);
                                assert(pending_at_entry.contains(pending_at_entry[a]));
                                assert(pool_at_entry.is_used(pending_at_entry[a] as int));
                            }
                        }
                    }
                    j = j + 1;
                },
            }
        }
        proof {
            assert(packets@.subrange(0, n as int) =~= packets@);
        }
        Ok(0)
    }

    /// Reclaim every send buffer whose datagram the wire has already
    /// taken; with a synchronous wire that is all of them.
    fn harvest_completions(&mut self)
        requires
            old(self).wf(),
        ensures
            final(self).wf(),
            final(self).pending@.len() == 0,
            final(self).recv_pool == old(self).recv_pool,
            final(self).posted@ == old(self).posted@,
            final(self).tx == old(self).tx,
            final(self).rx == old(self).rx,
            final(self).local == old(self).local,
            final(self).log@ == old(self).log@,
            final(self).send_pool.size() == POOL_SIZE,
            forall|id: u64| (id as int) < (POOL_SIZE as int) ==> !final(self).send_pool.is_used(
                id as int,
            ),
    {
        let ghost entry_pending = self.pending@;
        proof {
            assert(entry_pending.subrange(0, entry_pending.len() as int) =~= entry_pending);
        }
        let mut i: usize = 0;
        let n = self.pending.len();
        while i < n
            invariant
                i <= n,
                n == self.pending@.len(),
                self.pending@ == entry_pending,
                self.send_pool.size() == POOL_SIZE,
                forall|j: int|
                    0 <= j < entry_pending.len() ==> (entry_pending[j] as int) < (POOL_SIZE
                        as int),
                forall|j: int, k: int|
                    0 <= j < k < entry_pending.len() ==> entry_pending[j] != entry_pending[k],
                forall|id: u64|
                    (id as int) < (POOL_SIZE as int)
                        ==> (self.send_pool.is_used(id as int) <==> entry_pending.subrange(
                        i as int,
                        entry_pending.len() as int,
                    ).contains(id)),
                self.recv_pool == old(self).recv_pool,
                self.posted@ == old(self).posted@,
                self.tx == old(self).tx,
                self.rx == old(self).rx,
                self.local == old(self).local,
                self.log@ == old(self).log@,
                old(self).wf(),
            decreases n - i,
        {
            let id = self.pending[i];
            let ghost pool_at_entry = self.send_pool;
            proof {
                let tail = entry_pending.subrange(i as int, entry_pending.len() as int);
                assert(tail[0] == id);
                assert(tail.contains(id));
            }
            let freed = self.send_pool.mark_free(id);
            proof {
                assert(freed.is_ok());
                let old_tail = entry_pending.subrange(i as int, entry_pending.len() as int);
                let new_tail = entry_pending.subrange(i + 1, entry_pending.len() as int);
                assert forall|x: u64| (x as int) < (POOL_SIZE as int) implies (
                self.send_pool.is_used(x as int) <==> new_tail.contains(x)) by {
                    if new_tail.contains(x) {
                        let w = choose|w: int| 0 <= w < new_tail.len() && new_tail[w] == x;
                        assert(old_tail[w + 1] == x);
                        assert(old_tail.contains(x));
                        assert(entry_pending[i + 1 + w] == x);
                        assert(entry_pending[i as int] == id);
                        assert(x != id);
                        assert(self.send_pool.is_used(x as int) == pool_at_entry.is_used(
                            x as int,
                        ));
                    } else {
                        if self.send_pool.is_used(x as int) {
                            assert(x != id);
                            assert(pool_at_entry.is_used(x as int));
                            assert(old_tail.contains(x));
                            let w = choose|w: int| 0 <= w < old_tail.len() && old_tail[w] == x;
                            assert(w != 0);
                            assert(new_tail[w - 1] == x);
                            assert(new_tail.contains(x));
                            assert(false);
                        }
                    }
                }
            }
            i = i + 1;
        }
        self.pending.clear();
        proof {
            assert forall|id: u64| (id as int) < (POOL_SIZE as int) implies !self.send_pool.is_used(
                id as int,
            ) by {
                assert(!entry_pending.subrange(
                    entry_pending.len() as int,
                    entry_pending.len() as int,
                ).contains(id));
            }
            assert(self.pending@.len() == 0);
            assert forall|x: u64| (x as int) < (POOL_SIZE as int) implies (
            self.send_pool.is_used(x as int) <==> self.pending@.contains(x)) by {
                if self.pending@.contains(x) {
                    let w = choose|w: int| 0 <= w < self.pending@.len() && self.pending@[w] == x;
                    assert(false);
                }
            }
        }
    }

    /// Take one datagram off the wire into the oldest posted receive
    /// buffer, parse a packet out of it, and re-post the buffer whatever
    /// the outcome.
    fn process_datagram(&mut self, datagram: Vec<u8>) -> (r: Result<Packet, Error>)
        requires
            old(self).wf(),
        ensures
            final(self).wf(),
            final(self).spec_local() == old(self).spec_local(),
            final(self).log() == old(self).log(),
            match r {
                Ok(p) => datagram@ == spec_encode(p),
                Err(_) => true,
            },
    {
        let id = self.posted.remove(0);
        let decoded = if datagram.len() <= MTU {
            self.recv_pool.store(id, datagram);
            let buffer = match self.recv_pool.get(id) {
                Ok(b) => b,
                Err(_) => {
                    return Err(Error::Unknown(id));
                },
            };
            decode_wrapper(buffer)
        } else {
            // An oversized datagram cannot have come from a conforming
            // sender; drop it without touching the buffer contents.
            None
        };
        self.posted.push(id);
        proof {
            let entry_posted = old(self).posted@;
            assert(self.posted@ =~= entry_posted.subrange(1, entry_posted.len() as int).push(
                entry_posted[0],
            ));
            assert forall|a: int, b: int|
                0 <= a < b < self.posted@.len() implies self.posted@[a] != self.posted@[b] by {
                if b < self.posted@.len() - 1 {
                    assert(entry_posted[a + 1] != entry_posted[b + 1]);
                } else {
                    assert(entry_posted[a + 1] != entry_posted[0]);
                }
            }
        }
        match decoded {
            Some(p) => Ok(p),
            None => Err(Error::DecodeEncode("malformed datagram".to_owned())),
        }
    }

    /// Block until at least one datagram arrives, then drain everything
    /// already waiting, one packet per datagram. Never returns an empty
    /// batch.
    pub fn recv(&mut self) -> (r: Result<Vec<Packet>, Error>)
        requires
            old(self).wf(),
        ensures
            final(self).wf(),
            final(self).spec_local() == old(self).spec_local(),
            final(self).log() == old(self).log(),
            match r {
                Ok(ps) => ps@.len() > 0,
                Err(_) => true,
            },
    {
        let first = match wire_recv(&self.rx) {
            None => {
                return Err(Error::Receive);
            },
            Some(d) => d,
        };
        let mut out: Vec<Packet> = Vec::new();
        match self.process_datagram(first) {
            Ok(p) => out.push(p),
            Err(e) => {
                return Err(e);
            },
        }
        let mut i: usize = 1;
        let mut more = true;
        while i < POOL_SIZE && more
            invariant
                out@.len() >= 1,
                self.wf(),
                self.spec_local() == old(self).spec_local(),
                self.log() == old(self).log(),
            decreases POOL_SIZE - i,
        {
            match wire_try_recv(&self.rx) {
                None => {
                    more = false;
                },
                Some(d) => {
                    match self.process_datagram(d) {
                        Ok(p) => out.push(p),
                        Err(e) => {
                            return Err(e);
                        },
                    }
                },
            }
            i = i + 1;
        }
        Ok(out)
    }

    /// One non-blocking poll: drain whatever datagrams are already
    /// waiting. May return an empty batch; never blocks.
    pub fn try_recv(&mut self) -> (r: Result<Vec<Packet>, Error>)
        requires
            old(self).wf(),
        ensures
            final(self).wf(),
            final(self).spec_local() == old(self).spec_local(),
            final(self).log() == old(self).log(),
    {
        let mut out: Vec<Packet> = Vec::new();
        let mut i: usize = 0;
        let mut more = true;
        while i < POOL_SIZE && more
            invariant
                self.wf(),
                self.spec_local() == old(self).spec_local(),
                self.log() == old(self).log(),
            decreases POOL_SIZE - i,
        {
            match wire_try_recv(&self.rx) {
                None => {
                    more = false;
                },
                Some(d) => {
                    match self.process_datagram(d) {
                        Ok(p) => out.push(p),
                        Err(e) => {
                            return Err(e);
                        },
                    }
                },
            }
            i = i + 1;
        }
        Ok(out)
    }

    /// Like `try_recv`, but waits up to `millis` milliseconds for the
    /// first datagram; the session's poll-with-interval primitive.
    pub fn poll_recv(&mut self, millis: u64) -> (r: Result<Vec<Packet>, Error>)
        requires
            old(self).wf(),
        ensures
            final(self).wf(),
            final(self).spec_local() == old(self).spec_local(),
            final(self).log() == old(self).log(),
    {
        let mut out: Vec<Packet> = Vec::new();
        let first = match wire_recv_timeout(&self.rx, millis) {
            None => {
                return Ok(out);
            },
            Some(d) => d,
        };
        match self.process_datagram(first) {
            Ok(p) => out.push(p),
            Err(e) => {
                return Err(e);
            },
        }
        let mut i: usize = 1;
        let mut more = true;
        while i < POOL_SIZE && more
            invariant
                self.wf(),
                self.spec_local() == old(self).spec_local(),
                self.log() == old(self).log(),
            decreases POOL_SIZE - i,
        {
            match wire_try_recv(&self.rx) {
                None => {
                    more = false;
                },
                Some(d) => {
                    match self.process_datagram(d) {
                        Ok(p) => out.push(p),
                        Err(e) => {
                            return Err(e);
                        },
                    }
                },
            }
            i = i + 1;
        }
        Ok(out)
    }

    /// Post every packet of the burst, looping until the pool has made
    /// room for all of them.
    pub fn send_burst(&mut self, packets: Vec<Packet>) -> (r: Result<(), Error>)
        requires
            old(self).wf(),
            forall|i: int| 0 <= i < packets@.len() ==> fits_on_wire(#[trigger] packets@[i]),
        ensures
            final(self).wf(),
            final(self).spec_local() == old(self).spec_local(),
            match r {
                Ok(()) => final(self).log() == old(self).log() + packets@,
                Err(_) => exists|j: int|
                    0 <= j <= packets@.len() && final(self).log() == old(self).log()
                        + packets@.subrange(0, j),
            },
    {
        let len = packets.len();
        let mut left: usize = len;
        while left > 0
            invariant
                left <= len,
                len == packets@.len(),
                forall|i: int| 0 <= i < packets@.len() ==> fits_on_wire(#[trigger] packets@[i]),
                self.wf(),
                self.spec_local() == old(self).spec_local(),
                self.log() == old(self).log() + packets@.subrange(0, len - left),
            decreases left,
        {
            let start = len - left;
            let ghost prev_log = self.log@;
            let tail = vstd::slice::slice_subrange(packets.as_slice(), start, len);
            match self.send(tail) {
                Ok(k) => {
                    proof {
                        assert(self.log() =~= old(self).log() + packets@.subrange(
                            0,
                            len - k,
                        ));
                    }
                    left = k;
                },
                Err(e) => {
                    proof {
                        let j2 = choose|j2: int|
                            0 <= j2 <= tail@.len() && self.log@ == prev_log + tail@.subrange(
                                0,
                                j2,
                            );
                        assert(tail@.subrange(0, j2) =~= packets@.subrange(
                            start as int,
                            start + j2,
                        ));
                        assert(self.log@ =~= old(self).log@ + packets@.subrange(
                            0,
                            start + j2,
                        ));
                    }
                    return Err(e);
                },
            }
        }
        proof {
            assert(packets@.subrange(0, len as int) =~= packets@);
        }
        Ok(())
    }
}

/// Parse a packet out of a filled receive buffer.
fn decode_wrapper(buffer: &Vec<u8>) -> (r: Option<Packet>)
    ensures
        match r {
            Some(p) => buffer@ == spec_encode(p),
            None => forall|p: Packet| buffer@ != spec_encode(p),
        },
{
    crate::packet::decode_packet(buffer.as_slice())
}

} // verus!
