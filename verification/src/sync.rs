//! Exclusive access to shared kernel state.

use vstd::prelude::*;

verus! {

/// A cell for state that the kernel shares across its entry points on a
/// single processor. The value inside is reached through the cell alone, and
/// changing it takes exclusive access to the cell, so that no two parts of the
/// kernel can change it at once.
pub struct UPSafeCell<T> {
    inner: T,
}

impl<T> UPSafeCell<T> {
    /// The value inside the cell.
    pub closed spec fn view(&self) -> T {
        self.inner
    }

    /// A cell that holds `value`.
    pub fn new(value: T) -> (cell: Self)
        ensures
            cell@ == value,
    {
        UPSafeCell { inner: value }
    }

    /// The value inside, to read.
    pub fn borrow(&self) -> (value: &T)
        ensures
            *value == self@,
    {
        &self.inner
    }

    /// The value inside, to change. What the cell holds afterwards is what
    /// the caller leaves behind the reference.
    pub fn exclusive_access(&mut self) -> (value: &mut T)
        ensures
            *value == old(self)@,
            final(self)@ == *final(value),
    {
        &mut self.inner
    }

    /// Takes the cell apart and returns the value inside.
    pub fn into_inner(self) -> (value: T)
        ensures
            value == self@,
    {
        self.inner
    }
}

} // verus!
