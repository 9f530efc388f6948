//! Random draws.
use vstd::prelude::*;

verus! {

pub struct Random {}

impl Random {
    /// The value between zero and `max` (excluded) that a clock reading of `nanos`
    /// nanoseconds (within the current second) gives: its remainder by `max`.
    pub fn poor_random_from(nanos: u32, max: u32) -> (r: u32)
        requires
            max > 0,
        ensures
            r == nanos % max,
            r < max,
    {
        nanos % max
    }
}

} // verus!
