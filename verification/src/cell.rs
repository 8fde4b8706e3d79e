//! An unchecked, externally-synchronized value holder.
//!
//! `SPtr` owns exactly one logical value and exposes direct load / store /
//! swap with no internal synchronization.  It exists purely as the payload
//! that a lock-guarded critical section wraps: at most one logical writer may
//! mutate the cell at a time, and that discipline is the caller's obligation
//! (typically discharged by holding a `TryLock` around every access), never
//! enforced by the cell itself.

use vstd::prelude::*;

verus! {

#[derive(Clone, Debug)]
pub struct SPtr<T> {
    value: T,
}

impl<T> View for SPtr<T> {
    type V = T;

    closed spec fn view(&self) -> T {
        self.value
    }
}

impl<T> SPtr<T> {
    /// Creates a cell holding `val`.
    pub fn new(val: T) -> (r: Self)
        ensures
            r@ == val,
    {
        SPtr { value: val }
    }

    /// Overwrites the slot with `val`.  The previous value is replaced
    /// wholesale; a caller that must observe or dispose of it explicitly
    /// should use `swap` instead.
    pub fn store(&mut self, val: T)
        ensures
            final(self)@ == val,
    {
        self.value = val;
    }

    /// Replaces the held value with `val` and returns the previous value,
    /// transferring its ownership to the caller.
    pub fn swap(&mut self, val: T) -> (r: T)
        ensures
            r == old(self)@,
            final(self)@ == val,
    {
        let mut taken = val;
        core::mem::swap(&mut self.value, &mut taken);
        taken
    }
}

impl<T: Copy> SPtr<T> {
    /// Reads the held value by bitwise copy.
    pub fn load(&self) -> (r: T)
        ensures
            r == self@,
    {
        self.value
    }
}

} // verus!
