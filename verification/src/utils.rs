//! A payload together with the instant (in milliseconds) at which it was
//! placed into its current list.

use vstd::prelude::*;

verus! {

/// A value tagged with the time, in milliseconds, at which it entered the
/// list that currently holds it.  Re-insertion after a state transition
/// resets the tag to the current time.
pub struct Timed<T> {
    pub value: T,
    pub timestamp_ms: u64,
}

impl<T> Timed<T> {
    /// Tag `value` with the current time `now_ms`.
    pub fn new(value: T, now_ms: u64) -> (r: Self)
        ensures
            r.value == value,
            r.timestamp_ms == now_ms,
    {
        Self { value, timestamp_ms: now_ms }
    }
}

} // verus!
