//! The session's phases.
//!
//! Exactly one phase is live at a time, and phases never regress: Accepting
//! gives way to Countdown, Countdown to Running, each constructed from data
//! the previous phase exported.  The driver holds the active phase as one
//! tagged variant and matches it explicitly.

use vstd::prelude::*;

use crate::just_created::JustCreatedGame;
use crate::just_created::JustCreatedModel;
use crate::ready_to_start::ReadyToStartGame;
use crate::ready_to_start::ReadyToStartModel;
use crate::running::RunningGame;
use crate::running::RunningModel;
use crate::users::Users;

verus! {

/// The active phase of the session: the three ordered phases, each with its
/// own per-client sub-state.
pub enum Phase {
    Accepting(JustCreatedGame),
    Countdown(ReadyToStartGame),
    Running(RunningGame),
}

/// The mathematical content of a `Phase`.
#[verifier::ext_equal]
pub ghost enum PhaseModel {
    Accepting(JustCreatedModel),
    Countdown(ReadyToStartModel),
    Running(RunningModel),
}

impl View for Phase {
    type V = PhaseModel;

    open spec fn view(&self) -> PhaseModel {
        match self {
            Phase::Accepting(g) => PhaseModel::Accepting(g@),
            Phase::Countdown(g) => PhaseModel::Countdown(g@),
            Phase::Running(g) => PhaseModel::Running(g@),
        }
    }
}

/// The model of an optional phase, as a transition returns it.
pub open spec fn view_phase_opt(r: Option<Phase>) -> Option<PhaseModel> {
    match r {
        Some(p) => Some(p@),
        None => None,
    }
}

/// What every phase offers the driver: a time-advance that may yield the
/// next phase, and a rate-limited io-exchange against the bridge.  The
/// exact contracts live on each phase's implementation; every phase keeps
/// its own invariant and the bridge's well-formedness.
pub trait GameState: Sized {
    /// The phase's internal invariant.
    spec fn inv(&self) -> bool;

    /// Advances simulated time by the elapsed milliseconds; `Some` carries
    /// the next phase, to replace this one exactly once and irreversibly.
    fn elapsed(&mut self, elapsed_ms: u64) -> (r: Option<Phase>)
        requires
            old(self).inv(),
        ensures
            final(self).inv(),
            r matches Some(p) ==> phase_inv(&p),
    ;

    /// Drains and produces network traffic for this phase against the
    /// connected clients' queues.
    fn io_updates(&mut self, users: &mut Users)
        requires
            old(self).inv(),
            old(users).wf(),
        ensures
            final(self).inv(),
            final(users).wf(),
    ;
}

/// The invariant of a phase's model: each client appears once in its
/// sub-state, and every chat text fits a string field.
pub open spec fn phase_model_inv(p: PhaseModel) -> bool {
    match p {
        PhaseModel::Accepting(m) => crate::just_created::jc_wf(m),
        PhaseModel::Countdown(m) => m.users.no_duplicates(),
        PhaseModel::Running(_) => true,
    }
}

/// The invariant of whichever phase is live.
pub open spec fn phase_inv(p: &Phase) -> bool {
    phase_model_inv(p@)
}

/// Addition that stops at the top of the counter instead of wrapping: how
/// the phases accumulate elapsed time.
pub open spec fn sat_add(a: u64, b: u64) -> u64 {
    if a + b > u64::MAX {
        u64::MAX
    } else {
        (a + b) as u64
    }
}

/// Saturating addition on elapsed-time counters.
pub fn sat_add_u64(a: u64, b: u64) -> (r: u64)
    ensures
        r == sat_add(a, b),
{
    if b > u64::MAX - a {
        u64::MAX
    } else {
        a + b
    }
}

} // verus!
