//! The host thread's decisions.
//!
//! The host owns the registry, forwards events the frame thread sends it,
//! and watches for a wedged frame thread: after enough consecutive receive
//! timeouts with no dispatch activity — or a dead channel, or a termination
//! notice — it shuts the runtime down and unwinds the plugins. Receiving
//! itself is the host program's loop; the decision for each received thing
//! is made here.

use vstd::prelude::*;

verus! {

/// The conventional timeout budget: how many consecutive receive timeouts
/// a host tolerates before it treats the frame thread as wedged. The
/// budget is a parameter of [`manage_step`]; this is the value a plain
/// host passes.
pub const MAX_TIMEOUTS: u64 = 20;

/// What the host's bounded receive came back with.
pub enum HostEvent<E> {
    /// The frame thread asks for `e` to be broadcast through the registry.
    Dispatch(E),
    /// The frame thread announced its own termination.
    Terminate,
    /// The receive timed out; `core_alive` is whether the frame thread is
    /// still running.
    Timeout { core_alive: bool },
    /// The channel from the frame thread is gone.
    Disconnected,
}

/// What the host should do with what it received.
pub enum HostAction<E> {
    /// Broadcast the event through the registry and keep going.
    Forward(E),
    /// Nothing to do this round; keep going.
    Continue,
    /// Tear down: unload every plugin and exit.
    Shutdown,
}

/// One step of the host loop: dispatch activity resets the timeout count;
/// a timeout raises it, and a dead frame thread or the configured budget
/// running out — like a termination notice or a dead channel — means
/// shutdown.
pub fn manage_step<E>(timeouts: &mut u64, budget: u64, event: HostEvent<E>) -> (r: HostAction<E>)
    ensures
        match event {
            HostEvent::Dispatch(e) => *final(timeouts) == 0 && r == HostAction::Forward(e),
            HostEvent::Terminate => r is Shutdown && *final(timeouts) == *old(timeouts),
            HostEvent::Disconnected => r is Shutdown && *final(timeouts) == *old(timeouts),
            HostEvent::Timeout { core_alive } => {
                &&& *final(timeouts) == if *old(timeouts) < u64::MAX {
                    *old(timeouts) + 1
                } else {
                    u64::MAX as int
                }
                &&& r == if !core_alive || *final(timeouts) >= budget {
                    HostAction::<E>::Shutdown
                } else {
                    HostAction::<E>::Continue
                }
            },
        },
{
    match event {
        HostEvent::Dispatch(e) => {
            *timeouts = 0;
            HostAction::Forward(e)
        },
        HostEvent::Terminate => HostAction::Shutdown,
        HostEvent::Disconnected => HostAction::Shutdown,
        HostEvent::Timeout { core_alive } => {
            *timeouts = timeouts.saturating_add(1);
            if !core_alive || *timeouts >= budget {
                HostAction::Shutdown
            } else {
                HostAction::Continue
            }
        },
    }
}

} // verus!
