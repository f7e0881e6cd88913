use vstd::prelude::*;

verus! {

/// A container together with a flag telling whether it was written since the flag
/// was last cleared. Reads go through `get`; every write goes through `get_mut`,
/// which raises the flag.
pub struct MutationTracker<T> {
    inner: T,
    dirty: bool,
}

impl<T> MutationTracker<T> {
    /// The wrapped container.
    pub closed spec fn value(&self) -> T {
        self.inner
    }

    /// Whether the container was written since the flag was last cleared.
    pub closed spec fn is_dirty(&self) -> bool {
        self.dirty
    }

    /// `after` and `r` are what `clear_dirty` leaves and returns when called on `before`.
    pub open spec fn clear_dirty_outcome(before: Self, after: Self, r: bool) -> bool {
        &&& r == before.is_dirty()
        &&& !after.is_dirty()
        &&& after.value() == before.value()
    }

    /// Wraps a container; it starts clean.
    pub fn new(inner: T) -> (r: Self)
        ensures
            r.value() == inner,
            !r.is_dirty(),
    {
        MutationTracker { inner, dirty: false }
    }

    /// Read access; does not touch the flag.
    pub fn get(&self) -> (r: &T)
        ensures
            *r == self.value(),
    {
        &self.inner
    }

    /// Write access; raises the flag.
    pub fn get_mut(&mut self) -> (r: &mut T)
        ensures
            *r == old(self).value(),
            final(self).value() == *final(r),
            final(self).is_dirty(),
    {
        self.dirty = true;
        &mut self.inner
    }

    /// Whether the container was written since the last call; clears the flag.
    pub fn clear_dirty(&mut self) -> (r: bool)
        ensures
            Self::clear_dirty_outcome(*old(self), *final(self), r),
    {
        let was = self.dirty;
        self.dirty = false;
        was
    }

    /// Clearing twice with no write in between reports a change at most once:
    /// the second call returns false and the contents are untouched.
    pub proof fn lemma_clear_dirty_twice(t0: Self, t1: Self, t2: Self, r1: bool, r2: bool)
        requires
            Self::clear_dirty_outcome(t0, t1, r1),
            Self::clear_dirty_outcome(t1, t2, r2),
        ensures
            !r2,
            t2.value() == t0.value(),
            !t2.is_dirty(),
    {
    }
}

} // verus!
