//! A simple growable byte buffer with a fixed capacity, and the
//! allocator abstraction a kernel port would implement.
//!
//! The buffer refuses to grow past the capacity chosen at construction
//! (`NoSpace` is the back-pressure signal), so a caller that sizes it
//! for one message can never be handed more than it planned for.

use vstd::prelude::*;

verus! {

/// Errors of the byte buffer.
#[derive(Debug)]
pub enum BufferError {
    /// No space left in the buffer; create one with a larger capacity.
    NoSpace,
    /// The underlying allocation failed.
    Allocate(String),
}

/// A byte run with a hard capacity chosen at construction.
pub struct BytesMut {
    data: Vec<u8>,
    capacity: usize,
}

/// Allocate `BytesMut` storage from different sources (a kernel port
/// substitutes its own allocator here).
pub trait Allocator {

}

impl BytesMut {
    /// The bytes currently held.
    pub closed spec fn bytes(&self) -> Seq<u8> {
        self.data@
    }

    /// The fixed capacity.
    pub closed spec fn spec_capacity(&self) -> nat {
        self.capacity as nat
    }

    /// The length never exceeds the capacity.
    pub open spec fn wf(&self) -> bool {
        self.bytes().len() <= self.spec_capacity()
    }

    /// An empty buffer able to hold `size` bytes.
    pub fn with_capacity(size: usize) -> (r: Result<BytesMut, BufferError>)
        ensures
            match r {
                Ok(b) => b.wf() && b.bytes().len() == 0 && b.spec_capacity() == size,
                Err(_) => false,
            },
    {
        Ok(BytesMut { data: Vec::new(), capacity: size })
    }

    /// Set the length. Growing fills with zero bytes; shrinking keeps a
    /// prefix. Fails with `NoSpace` exactly when the length would
    /// exceed the capacity.
    pub fn resize(&mut self, len: usize) -> (r: Result<(), BufferError>)
        requires
            old(self).wf(),
        ensures
            final(self).wf(),
            final(self).spec_capacity() == old(self).spec_capacity(),
            match r {
                Ok(()) => {
                    &&& len <= old(self).spec_capacity()
                    &&& final(self).bytes().len() == len
                    &&& len <= old(self).bytes().len() ==> final(self).bytes() == old(
                        self,
                    ).bytes().subrange(0, len as int)
                    &&& len > old(self).bytes().len() ==> final(self).bytes().subrange(
                        0,
                        old(self).bytes().len() as int,
                    ) == old(self).bytes() && (forall|i: int|
                        old(self).bytes().len() <= i < len ==> final(self).bytes()[i] == 0u8)
                },
                Err(e) => {
                    &&& len > old(self).spec_capacity()
                    &&& e is NoSpace
                    &&& final(self).bytes() == old(self).bytes()
                },
            },
    {
        if self.capacity < len {
            Err(BufferError::NoSpace)
        } else {
            self.data.resize(len, 0u8);
            Ok(())
        }
    }

    /// Append a byte run. Fails with `NoSpace` exactly when it would
    /// not fit, leaving the buffer unchanged.
    pub fn write(&mut self, buf: &[u8]) -> (r: Result<(), BufferError>)
        requires
            old(self).wf(),
        ensures
            final(self).wf(),
            final(self).spec_capacity() == old(self).spec_capacity(),
            match r {
                Ok(()) => {
                    &&& old(self).bytes().len() + buf@.len() <= old(self).spec_capacity()
                    &&& final(self).bytes() == old(self).bytes() + buf@
                },
                Err(e) => {
                    &&& old(self).bytes().len() + buf@.len() > old(self).spec_capacity()
                    &&& e is NoSpace
                    &&& final(self).bytes() == old(self).bytes()
                },
            },
    {
        if buf.len() > self.capacity - self.data.len() {
            Err(BufferError::NoSpace)
        } else {
            self.data.extend_from_slice(buf);
            proof {
                assert(self.data@ =~= old(self).data@ + buf@);
            }
            Ok(())
        }
    }

    /// The bytes currently held, as a slice.
    pub fn as_slice(&self) -> (r: &[u8])
        ensures
            r@ == self.bytes(),
    {
        self.data.as_slice()
    }
}

} // verus!
