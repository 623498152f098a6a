//! The executor's picture of a kernel handle.

use vstd::prelude::*;

verus! {

/// A reference to a kernel object that can be signaled and waited upon.
///
/// The executor never looks behind a handle. It compares handles, and it
/// records the raw number of a handle in the list of waits of a task. Two
/// references are equal exactly when their raw numbers are.
#[derive(Clone, Copy, PartialEq, Eq, Structural, Debug)]
pub struct HandleRef {
    pub raw: u32,
}

impl HandleRef {
    /// A reference to the kernel object with the given raw number.
    pub fn new(raw: u32) -> (handle: HandleRef)
        ensures
            handle.raw == raw,
    {
        HandleRef { raw }
    }

    /// The raw number of the kernel object.
    pub fn get(&self) -> (raw: u32)
        ensures
            raw == self.raw,
    {
        self.raw
    }
}

} // verus!
