//! Tenant lifetime gate.
//!
//! Every spill file holds a guard taken from its tenant's gate, so that a
//! tenant teardown cannot complete while any such file is still open: the
//! gate's close only completes once every outstanding guard has been
//! returned.

use vstd::prelude::*;

verus! {

/// A tenant-scoped gate counting outstanding guards.
pub struct Gate {
    guards: usize,
}

/// Proof of entry into a [`Gate`]; handed back once its holder is done.
pub struct GateGuard {
    // only Gate::enter constructs a guard
    entered: bool,
}

impl Gate {
    /// The number of outstanding guards.
    pub closed spec fn guard_count(self) -> nat {
        self.guards as nat
    }

    /// Whether a tenant teardown can complete now.
    pub open spec fn spec_close_ready(self) -> bool {
        self.guard_count() == 0
    }

    /// A fresh gate with no guards outstanding.
    pub fn new() -> (g: Gate)
        ensures
            g.guard_count() == 0,
    {
        Gate { guards: 0 }
    }

    /// Enter, taking a guard that keeps a close from completing.
    pub fn enter(&mut self) -> (r: GateGuard)
        requires
            old(self).guard_count() < usize::MAX,
        ensures
            final(self).guard_count() == old(self).guard_count() + 1,
    {
        self.guards = self.guards + 1;
        GateGuard { entered: true }
    }

    /// Hand a guard back.
    pub fn leave(&mut self, guard: GateGuard)
        requires
            old(self).guard_count() >= 1,
        ensures
            final(self).guard_count() == old(self).guard_count() - 1,
    {
        let _ = guard;
        self.guards = self.guards - 1;
    }

    /// Whether a close can complete now: only once every guard
    /// taken by [`Gate::enter`] has been returned by [`Gate::leave`].
    pub fn close_ready(&self) -> (r: bool)
        ensures
            r == self.spec_close_ready(),
    {
        self.guards == 0
    }
}

/// Gate safety: after an `enter`, a close cannot complete until the matching
/// `leave`; once the last outstanding guard is returned, it completes.
///
/// The three arguments are the states before the `enter`, after it, and after
/// the matching `leave`, constrained exactly as the contracts of
/// [`Gate::enter`] and [`Gate::leave`] leave them.
pub proof fn lemma_gate_safety(before: Gate, entered: Gate, left: Gate)
    requires
        entered.guard_count() == before.guard_count() + 1,
        left.guard_count() == entered.guard_count() - 1,
        before.guard_count() == 0,
    ensures
        !entered.spec_close_ready(),
        left.spec_close_ready(),
{
}

} // verus!
