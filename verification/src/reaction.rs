//! A one-shot latch: an effect guarded by a `Reaction` fires exactly once,
//! however often the guard is consulted, until a fresh latch replaces it.

use vstd::prelude::*;

verus! {

/// A one-shot guard.  It records whether its effect has already fired, so
/// that callers can make the effect happen exactly once.
#[derive(Copy, Clone, Debug, PartialEq, Eq, Structural)]
pub struct Reaction(bool);

/// The latch whose effect counts as fired exactly when `reacted` holds: how
/// specifications name a latch value.
pub closed spec fn reaction_with(reacted: bool) -> Reaction {
    Reaction(reacted)
}

/// `reaction_with` means what its argument says.
pub broadcast proof fn lemma_reaction_with(reacted: bool)
    ensures
        (#[trigger] reaction_with(reacted)).reacted() == reacted,
{
}

impl Reaction {
    /// Whether the guarded effect has fired.
    pub closed spec fn reacted(&self) -> bool {
        self.0
    }

    /// A fresh latch: the effect has not fired.
    pub fn new() -> (r: Reaction)
        ensures
            r == reaction_with(false),
            !r.reacted(),
    {
        Reaction(false)
    }

    /// A latch in a chosen state: `reacted` says the effect counts as
    /// already fired.
    pub fn new_reacted(reacted: bool) -> (r: Reaction)
        ensures
            r == reaction_with(reacted),
            r.reacted() == reacted,
    {
        Reaction(reacted)
    }

    /// Fires the guarded effect at most once: returns true (the caller
    /// should perform the effect) exactly on the first call, and latches.
    pub fn react_once(&mut self) -> (fired: bool)
        ensures
            fired == !old(self).reacted(),
            *final(self) == reaction_with(true),
            final(self).reacted(),
    {
        if !self.0 {
            self.0 = true;
            true
        } else {
            false
        }
    }
}

} // verus!
