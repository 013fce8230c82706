//! Request and response schemas of the transport-level interface.
//!
//! The transport layer itself (routing, HTTP, JSON) lives outside the
//! library; these are the plain payload shapes it exchanges with the
//! queue, carried here so that the core can be exercised without it.

use vstd::prelude::*;

verus! {

/// What a worker reports downstream when a task completes.
#[derive(Clone, Debug)]
pub struct QueueTaskCompletion {
    pub submission_id: String,
    pub info: String,
}

/// A request to enqueue one task by its submission identifier.
#[derive(Clone, Debug)]
pub struct QueueAddTask {
    pub submission_id: String,
}

} // verus!
