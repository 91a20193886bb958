//! A fixed-count pool of packet buffers, each identified by the integer
//! tag that the transport uses as its work-request id.
//!
//! The pool hands out free buffers (`acquire_free`), reclaims them when
//! the matching completion is harvested (`mark_free`), and lets the
//! receive path read a filled buffer back (`get`). Selection is first-fit
//! on the lowest free id, so the order is deterministic and a buffer
//! freed early is reused before higher ids are touched.

use crate::error::Error;
use vstd::prelude::*;
use vstd::std_specs::vec::vec_index_mut;

verus! {

/// One slot of the pool: the buffer contents and whether the slot is
/// currently in flight.
struct Buffer {
    data: Vec<u8>,
    used: bool,
}

/// A fixed-count set of packet buffers with integer ids.
pub struct BufferPool {
    bufs: Vec<Buffer>,
}

impl BufferPool {
    /// The number of buffers; fixed at construction.
    pub closed spec fn size(&self) -> nat {
        self.bufs@.len()
    }

    /// Whether the buffer with this id is in flight.
    pub closed spec fn is_used(&self, id: int) -> bool {
        self.bufs@[id].used
    }

    /// The bytes currently held by the buffer with this id.
    pub closed spec fn data_at(&self, id: int) -> Seq<u8> {
        self.bufs@[id].data@
    }

    /// A pool of `n` empty, free buffers.
    pub fn new(n: usize) -> (p: BufferPool)
        ensures
            p.size() == n,
            forall|id: int| 0 <= id < n ==> !p.is_used(id),
            forall|id: int| 0 <= id < n ==> p.data_at(id).len() == 0,
    {
        let mut bufs: Vec<Buffer> = Vec::new();
        let mut i: usize = 0;
        while i < n
            invariant
                i <= n,
                bufs@.len() == i,
                forall|id: int| 0 <= id < i ==> !bufs@[id].used,
                forall|id: int| 0 <= id < i ==> bufs@[id].data@.len() == 0,
            decreases n - i,
        {
            bufs.push(Buffer { data: Vec::new(), used: false });
            i = i + 1;
        }
        BufferPool { bufs }
    }

    /// Hand out the lowest-id free buffer, marking it used; `None` when
    /// every buffer is in flight (back pressure, not an error).
    pub fn acquire_free(&mut self) -> (r: Option<u64>)
        ensures
            final(self).size() == old(self).size(),
            match r {
                Some(id) => {
                    &&& id < old(self).size()
                    &&& !old(self).is_used(id as int)
                    &&& final(self).is_used(id as int)
                    &&& forall|j: int| 0 <= j < id ==> old(self).is_used(j)
                    &&& forall|j: int|
                        0 <= j < old(self).size() && j != id ==> final(self).is_used(j) == old(
                            self,
                        ).is_used(j)
                    &&& forall|j: int|
                        0 <= j < old(self).size() ==> final(self).data_at(j) == old(self).data_at(
                            j,
                        )
                },
                None => {
                    &&& *final(self) == *old(self)
                    &&& forall|j: int| 0 <= j < old(self).size() ==> old(self).is_used(j)
                },
            },
    {
        let n = self.bufs.len();
        let mut i: usize = 0;
        while i < n
            invariant
                i <= n,
                n == self.bufs@.len(),
                *self == *old(self),
                forall|j: int| 0 <= j < i ==> self.bufs@[j].used,
            decreases n - i,
        {
            if !self.bufs[i].used {
                let slot = vec_index_mut(&mut self.bufs, i);
                slot.used = true;
                return Some(i as u64);
            }
            i = i + 1;
        }
        None
    }

    /// Mark the buffer with this id as no longer in flight. Fails with
    /// `Unknown` exactly when the id was never handed out by this pool.
    pub fn mark_free(&mut self, id: u64) -> (r: Result<(), Error>)
        ensures
            final(self).size() == old(self).size(),
            match r {
                Ok(()) => {
                    &&& id < old(self).size()
                    &&& !final(self).is_used(id as int)
                    &&& forall|j: int|
                        0 <= j < old(self).size() && j != id ==> final(self).is_used(j) == old(
                            self,
                        ).is_used(j)
                    &&& forall|j: int|
                        0 <= j < old(self).size() ==> final(self).data_at(j) == old(self).data_at(
                            j,
                        )
                },
                Err(e) => {
                    &&& id >= old(self).size()
                    &&& e == Error::Unknown(id)
                    &&& *final(self) == *old(self)
                },
            },
    {
        if id >= self.bufs.len() as u64 {
            return Err(Error::Unknown(id));
        }
        let slot = vec_index_mut(&mut self.bufs, id as usize);
        slot.used = false;
        Ok(())
    }

    /// Replace the contents of the buffer with this id; the receive and
    /// send paths use it to model the hardware filling or draining a
    /// registered buffer.
    pub fn store(&mut self, id: u64, bytes: Vec<u8>)
        requires
            id < old(self).size(),
        ensures
            final(self).size() == old(self).size(),
            final(self).data_at(id as int) == bytes@,
            final(self).is_used(id as int) == old(self).is_used(id as int),
            forall|j: int|
                0 <= j < old(self).size() && j != id ==> final(self).is_used(j) == old(
                    self,
                ).is_used(j) && final(self).data_at(j) == old(self).data_at(j),
    {
        let n = self.bufs.len();
        assert(id < n as u64);
        let slot = vec_index_mut(&mut self.bufs, id as usize);
        slot.data = bytes;
    }

    /// A read-only handle on the buffer with this id. Fails with
    /// `Unknown` exactly when the id was never handed out by this pool.
    pub fn get(&self, id: u64) -> (r: Result<&Vec<u8>, Error>)
        ensures
            match r {
                Ok(v) => id < self.size() && v@ == self.data_at(id as int),
                Err(e) => id >= self.size() && e == Error::Unknown(id),
            },
    {
        if id >= self.bufs.len() as u64 {
            return Err(Error::Unknown(id));
        }
        Ok(&self.bufs[id as usize].data)
    }
}

} // verus!
