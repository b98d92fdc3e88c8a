//! A window `start .. end` onto a shared byte buffer, split without copying
//! the bytes out.
use vstd::prelude::*;

verus! {

pub struct Segment {
    inner: Vec<u8>,
    start: usize,
    end: usize,
}

impl View for Segment {
    type V = Seq<u8>;

    /// The bytes in the window.
    closed spec fn view(&self) -> Seq<u8> {
        self.inner@.subrange(self.start as int, self.end as int)
    }
}

impl Segment {
    #[verifier::type_invariant]
    spec fn inv(self) -> bool {
        self.start <= self.end <= self.inner@.len()
    }

    /// The whole buffer seen through the window.
    pub closed spec fn buffer(&self) -> Seq<u8> {
        self.inner@
    }

    /// A window onto all of `inner`.
    pub fn new(inner: Vec<u8>) -> (r: Segment)
        ensures
            r@ == inner@,
            r.buffer() == inner@,
    {
        let end = inner.len();
        assert(inner@.subrange(0, end as int) =~= inner@);
        Segment { inner, start: 0, end }
    }

    /// The bytes in the window.
    pub fn as_slice(&self) -> (r: &[u8])
        ensures
            r@ == self@,
    {
        proof {
            use_type_invariant(self);
        }
        vstd::slice::slice_subrange(self.inner.as_slice(), self.start, self.end)
    }

    pub fn len(&self) -> (r: usize)
        ensures
            r == self@.len(),
    {
        proof {
            use_type_invariant(self);
        }
        self.end - self.start
    }

    /// The whole buffer, outside the window too.
    pub fn into_inner(self) -> (r: Vec<u8>)
        ensures
            r@ == self.buffer(),
    {
        self.inner
    }

    /// Keeps the first `at` bytes in this window and returns a window onto
    /// the rest, over a copy of the same buffer.
    pub fn split_off(&mut self, at: usize) -> (r: Segment)
        requires
            at <= old(self)@.len(),
        ensures
            final(self)@ == old(self)@.subrange(0, at as int),
            r@ == old(self)@.subrange(at as int, old(self)@.len() as int),
            final(self).buffer() == old(self).buffer(),
            r.buffer() == old(self).buffer(),
    {
        proof {
            use_type_invariant(&*self);
        }
        let new = Segment { inner: self.inner.clone(), start: self.start + at, end: self.end };
        self.end = self.start + at;
        assert(self@ =~= old(self)@.subrange(0, at as int));
        assert(new@ =~= old(self)@.subrange(at as int, old(self)@.len() as int));
        new
    }
}

} // verus!
