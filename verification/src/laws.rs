//! The protocol-level guarantees, proved from the session invariants.
//!
//! Each lemma here is a statement about every reachable pair of session
//! states, not about one run: together they say that whatever the wire
//! loses, duplicates or reorders, the bytes a reader sees are exactly a
//! prefix of the bytes the peer sent, in order, and that the sender
//! never floods the wire with more than a window of unacknowledged
//! fragments.

use crate::session::{lemma_stream_agree, lemma_stream_prefix, stream_of, Session, WINDOW_SIZE};
use vstd::prelude::*;

verus! {

/// No lost bytes, and in order: whenever every fragment a receiver has
/// accepted below its delivery counter is the fragment its peer
/// created under that sequence number — which is all the wire can ever
/// hand it, however datagrams are lost, duplicated or reordered — the
/// bytes the receiver has delivered are exactly a prefix of the
/// concatenation, in call order, of everything the peer sent.
pub proof fn lemma_delivered_prefix_of_sent(a: Session, b: Session)
    requires
        a.wf(),
        b.wf(),
        (b.spec_ack() as int) <= (a.spec_seq() as int),
        forall|s: u64|
            (s as int) < (b.spec_ack() as int) ==> #[trigger] b.inbox()[s] == a.outbox()[s],
    ensures
        b.delivered().is_prefix_of(a.sent()),
{
    assert forall|s: u64| (s as nat) < b.spec_ack() as nat implies b.inbox().contains_key(s)
        && a.outbox().contains_key(s) && b.inbox()[s] == a.outbox()[s] by {
        assert((s as int) < (b.spec_ack() as int));
        assert(b.inbox().contains_key(s));
        assert(a.outbox().contains_key(s));
    }
    lemma_stream_agree(b.inbox(), a.outbox(), b.spec_ack() as nat);
    lemma_stream_prefix(a.outbox(), b.spec_ack() as nat, a.spec_seq() as nat);
}

/// Duplicate tolerance: accepting a fragment at or above the delivery
/// counter again — or for the first time — never changes the bytes
/// already delivered, and a fragment below the counter is dropped
/// outright. Together with the idempotent reorder buffer this is why an
/// arbitrarily duplicating wire cannot corrupt the stream.
pub proof fn lemma_duplicate_insert_preserves_delivered(
    inbox: Map<u64, Seq<u8>>,
    ack: u64,
    s: u64,
    payload: Seq<u8>,
)
    requires
        (s as int) >= (ack as int),
        forall|t: u64| (t as int) < (ack as int) ==> #[trigger] inbox.contains_key(t),
    ensures
        stream_of(inbox.insert(s, payload), ack as nat) == stream_of(inbox, ack as nat),
{
    assert forall|t: u64| (t as nat) < ack as nat implies inbox.contains_key(t) && inbox.insert(
        s,
        payload,
    ).contains_key(t) && inbox[t] == inbox.insert(s, payload)[t] by {
        assert(inbox.contains_key(t));
        assert(t != s);
    }
    lemma_stream_agree(inbox, inbox.insert(s, payload), ack as nat);
}

/// A set of `u64` whose elements lie in `[lo, hi)` is finite and has at
/// most `hi - lo` elements.
pub proof fn lemma_bounded_set_len(s: Set<u64>, lo: int, hi: int)
    requires
        0 <= lo <= hi,
        hi <= u64::MAX as int + 1,
        forall|x: u64| #[trigger] s.contains(x) ==> lo <= (x as int) < hi,
    ensures
        s.finite(),
        s.len() <= hi - lo,
    decreases hi - lo,
{
    if hi == lo {
        assert(s =~= Set::empty());
    } else {
        let top = (hi - 1) as u64;
        if s.contains(top) {
            let rest = s.remove(top);
            assert forall|x: u64| #[trigger] rest.contains(x) implies lo <= (x as int) < hi
                - 1 by {
                assert(s.contains(x));
                assert(x != top);
            }
            lemma_bounded_set_len(rest, lo, hi - 1);
            assert(s =~= rest.insert(top));
        } else {
            assert forall|x: u64| #[trigger] s.contains(x) implies lo <= (x as int) < hi - 1 by {
                assert(x != top);
            }
            lemma_bounded_set_len(s, lo, hi - 1);
        }
    }
}

/// Window bound: at any point of the drive loop, the fragments that can
/// be in flight are the still-waiting sequence numbers among those the
/// window has exposed, and there are never more than `WINDOW_SIZE` of
/// them. `pos` is the window's left edge, `upper` its exclusive right
/// edge, and `hi` the end of the packet plan, all relative to the first
/// sequence number `s0`.
pub proof fn lemma_window_bound(waiting: Set<u64>, s0: u64, pos: int, upper: int, hi: int)
    requires
        0 <= pos <= upper,
        upper <= pos + WINDOW_SIZE,
        upper <= hi,
        (s0 as int) + hi <= u64::MAX as int + 1,
        forall|x: u64|
            #[trigger] waiting.contains(x) ==> (s0 as int) + pos <= (x as int) < (s0 as int) + hi,
    ensures
        in_flight(waiting, s0, upper).finite(),
        in_flight(waiting, s0, upper).len() <= WINDOW_SIZE,
{
    let posted = in_flight(waiting, s0, upper);
    assert forall|x: u64| #[trigger] posted.contains(x) implies (s0 as int) + pos <= (x as int) < (
    s0 as int) + upper by {
        assert(waiting.contains(x));
    }
    lemma_bounded_set_len(posted, (s0 as int) + pos, (s0 as int) + upper);
}

/// The unacknowledged fragments the sender may have on the wire: the
/// waiting sequence numbers the window has already exposed.
pub open spec fn in_flight(waiting: Set<u64>, s0: u64, upper: int) -> Set<u64> {
    waiting.intersect(Set::new(|x: u64| (s0 as int) <= (x as int) < (s0 as int) + upper))
}

} // verus!
