//! What a runner and its workers say to each other.

pub mod codec;
pub mod message;

use vstd::prelude::*;

use crate::time::Duration;

verus! {

/// How often a busy worker emits a heartbeat, so the runner can tell a
/// slow-but-alive worker from a hung or dead one.
pub fn heartbeat_interval() -> (r: Duration)
    ensures
        r == Duration::of_secs(2),
        r@ == 2_000_000_000,
{
    Duration::from_secs(2)
}

/// How long the runner waits for any frame (a heartbeat or a real message)
/// before deeming the worker unresponsive. Several intervals, to tolerate
/// scheduling and IPC jitter.
pub fn heartbeat_timeout() -> (r: Duration)
    ensures
        r == Duration::of_secs(10),
        r@ == 10_000_000_000,
{
    Duration::from_secs(10)
}

} // verus!
