//! The command register's values.
use vstd::prelude::*;

verus! {

/// What the command register holds: the next action for the supervisor, or
/// `Idle` when nothing is pending.
#[derive(Clone, Copy, Debug, PartialEq, Eq, Structural)]
pub enum Command {
    /// Kill every mirror process and stop.
    Quit,
    /// Show the tracked devices.
    ListDevices,
    /// Restart the mirror process of the device that waits in the restart
    /// queue.
    RestartDevice,
    /// Nothing is pending.
    Idle,
}

/// Seconds between two polls, in the poller and in the supervisor.
pub const POLL_INTERVAL_SECS: u64 = 5;

/// Seconds between killing a mirror process and starting its replacement.
pub const RESTART_GRACE_SECS: u64 = 2;

} // verus!
