//! A monotonically advancing task-id dispenser.

use vstd::prelude::*;

verus! {

/// Hands out successive identifiers, wrapping around at the top of the
/// `u32` range.
#[derive(Debug)]
pub struct Counter {
    pub value: u32,
}

impl Counter {
    /// A counter whose next identifier is `start`.
    pub fn new(start: u32) -> (r: Self)
        ensures
            r.value == start,
    {
        Counter { value: start }
    }

    /// Returns the current identifier and advances, wrapping on
    /// overflow.
    pub fn next(&mut self) -> (r: u32)
        ensures
            r == old(self).value,
            final(self).value == if old(self).value == u32::MAX {
                0u32
            } else {
                (old(self).value + 1) as u32
            },
    {
        let r = self.value;
        self.value = if self.value == u32::MAX {
            0
        } else {
            self.value + 1
        };
        r
    }
}

impl Default for Counter {
    /// A counter starting at zero.
    fn default() -> (r: Self)
        ensures
            r.value == 0,
    {
        Counter { value: 0 }
    }
}

} // verus!
