//! The signals that this program sends and is sent.

use vstd::prelude::*;

verus! {

#[derive(Debug, Clone, Copy, PartialEq, Eq, Structural)]
pub enum Signal {
    Interrupt,
    Terminate,
    Hangup,
    /// The signal by which one launcher asks another to stop its sandbox.
    ForceStop,
    Kill,
}

/// Whether a launcher that is sent a signal passes it on to the process group of its program. A
/// lost terminal and a request to stop the sandbox are for the launcher alone.
pub fn handle_signal(signal: Signal, process_group: i32) -> (r: bool)
    ensures
        r == (process_group > 0 && signal != Signal::Hangup && signal != Signal::ForceStop),
{
    match signal {
        Signal::Hangup => false,
        Signal::ForceStop => false,
        _ => process_group > 0,
    }
}

/// Whether the signal that was last received asks the launcher to end the sandbox's processes.
pub fn requests_termination(last: Option<Signal>) -> (r: bool)
    ensures
        r == (last == Some(Signal::Interrupt) || last == Some(Signal::Terminate)),
{
    match last {
        Some(Signal::Interrupt) => true,
        Some(Signal::Terminate) => true,
        _ => false,
    }
}

} // verus!
