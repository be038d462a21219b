//! What a peer is allowed to do once connected.

use vstd::prelude::*;

verus! {

/// Capability granted to a connected peer.
#[derive(Debug, Clone, Copy, PartialEq, Eq, Structural)]
pub enum Scope {
    /// Create and drive sessions and answer tool-permission prompts. This is
    /// effectively remote shell access to the host.
    Control,
    /// Attach to an existing live session and control it.
    Attach,
    /// Observe session activity without approving tool permissions or changing
    /// state.
    Observe,
}

impl Default for Scope {
    /// An accepted peer gets full control unless a narrower scope is chosen.
    fn default() -> (r: Scope)
        ensures
            r == Scope::Control,
    {
        Scope::Control
    }
}

} // verus!
