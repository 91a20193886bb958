//! A sliding window: a read-only view over a fixed slice with a movable
//! left edge and a bounded right edge.
//!
//! The sender of the session layer uses it as a cursor over its packet
//! plan: the window exposes at most `size` consecutive elements starting
//! at the current position, and `slide` advances the position one step.

use vstd::prelude::*;
use vstd::slice::slice_subrange;

verus! {

broadcast use vstd::slice::axiom_spec_len;

/// A bounded view over a borrowed slice.
///
/// The window is *closed* once its position has moved past the last
/// element. Methods other than `is_closed` must not be called on a
/// closed window (`first` and `last` additionally need one element in
/// view), which their preconditions enforce.
pub struct SlidingWindow<'a, T> {
    size: usize,
    slice: &'a [T],
    p: usize,
}

impl<'a, T> SlidingWindow<'a, T> {
    /// The elements the window ranges over.
    pub closed spec fn contents(&self) -> Seq<T> {
        self.slice@
    }

    /// The capacity of the window.
    pub closed spec fn capacity(&self) -> nat {
        self.size as nat
    }

    /// The current left edge.
    pub closed spec fn pos(&self) -> nat {
        self.p as nat
    }

    /// The exclusive right edge of the current view.
    pub open spec fn upper(&self) -> nat {
        if self.pos() + self.capacity() < self.contents().len() {
            self.pos() + self.capacity()
        } else {
            self.contents().len()
        }
    }

    /// The window position never moves past the end of the slice.
    pub open spec fn wf(&self) -> bool {
        self.pos() <= self.contents().len()
    }

    /// The elements currently in view.
    pub open spec fn in_view(&self) -> Seq<T> {
        self.contents().subrange(self.pos() as int, self.upper() as int)
    }

    pub fn new(slice: &'a [T], size: usize) -> (w: Self)
        ensures
            w.contents() == slice@,
            w.capacity() == size,
            w.pos() == 0,
            w.wf(),
    {
        Self { size, slice, p: 0 }
    }

    /// The slice of elements currently in view: at most `size` elements
    /// starting at the position.
    pub fn get(&self) -> (r: &'a [T])
        requires
            self.wf(),
            self.pos() < self.contents().len(),
        ensures
            r@ == self.in_view(),
            r@.len() <= self.capacity(),
    {
        let base = self.p;
        let upper = if self.slice.len() - self.p > self.size {
            self.p + self.size
        } else {
            self.slice.len()
        };
        slice_subrange(self.slice, base, upper)
    }

    /// The element at the left edge of the view.
    pub fn first(&self) -> (r: &'a T)
        requires
            self.wf(),
            self.pos() < self.contents().len(),
        ensures
            *r == self.contents()[self.pos() as int],
    {
        vstd::slice::slice_index_get(self.slice, self.p)
    }

    /// The element at the right edge of the view.
    pub fn last(&self) -> (r: &'a T)
        requires
            self.wf(),
            self.pos() < self.contents().len(),
            self.capacity() > 0,
        ensures
            *r == self.contents()[self.upper() - 1],
    {
        let upper = if self.slice.len() - self.p > self.size {
            self.p + self.size
        } else {
            self.slice.len()
        };
        vstd::slice::slice_index_get(self.slice, upper - 1)
    }

    /// Advance the left edge by one element.
    pub fn slide(&mut self)
        requires
            old(self).wf(),
            old(self).pos() < old(self).contents().len(),
        ensures
            final(self).contents() == old(self).contents(),
            final(self).capacity() == old(self).capacity(),
            final(self).pos() == old(self).pos() + 1,
            final(self).wf(),
    {
        let n = self.slice.len();
        assert(self.p < n);
        self.p = self.p + 1;
    }

    /// Whether the position has reached the end of the slice.
    pub fn is_closed(&self) -> (r: bool)
        requires
            self.wf(),
        ensures
            r == (self.pos() == self.contents().len()),
    {
        self.p == self.slice.len()
    }
}

} // verus!
