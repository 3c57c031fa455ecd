//! How a node listens to others and makes itself known.

use vstd::prelude::*;

verus! {

/// What waiting for a connection gave.
#[derive(Clone, Copy, Debug, PartialEq, Eq, Structural)]
pub enum Accepted {
    /// A node is connecting.
    Connecting,
    /// The endpoint is closed.
    Closed,
    /// This node is to shut down.
    Preempted,
}

/// What is done then.
#[derive(Clone, Copy, Debug, PartialEq, Eq, Structural)]
pub enum AcceptStep {
    /// Handle the connection and wait for the next one.
    Handle,
    /// Wait no more.
    Stop,
    /// Wait no more, and let the endpoint go idle and close it.
    Shutdown,
}

/// Decides what follows when waiting for a connection is over.
pub fn on_accept(accepted: Accepted) -> (step: AcceptStep)
    ensures
        step == (match accepted {
            Accepted::Connecting => AcceptStep::Handle,
            Accepted::Closed => AcceptStep::Stop,
            Accepted::Preempted => AcceptStep::Shutdown,
        }),
{
    match accepted {
        Accepted::Connecting => AcceptStep::Handle,
        Accepted::Closed => AcceptStep::Stop,
        Accepted::Preempted => AcceptStep::Shutdown,
    }
}

/// How long to wait before this node announces itself again: as long as the backoff
/// says, and a fixed time once that has run out. Both are in nanoseconds.
pub fn announce_delay(backoff: Option<u128>, announce_interval: u128) -> (delay: u128)
    ensures
        delay == (match backoff {
            Some(delay) => delay,
            None => announce_interval,
        }),
{
    match backoff {
        Some(delay) => delay,
        None => announce_interval,
    }
}

} // verus!
