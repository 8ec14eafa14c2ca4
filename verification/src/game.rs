//! The game driver.
//!
//! It owns the registry and the active phase.  A surrounding loop calls
//! `elapsed` every iteration and `io_updates` at a fixed, slower rate; any
//! phase transition the time-advance yields replaces the active phase, and
//! phases never regress.

use vstd::prelude::*;

use crate::just_created::accepting_elapsed_f;
use crate::just_created::accepting_io_f;
use crate::ready_to_start::countdown_io_f;
use crate::ready_to_start::countdown_tick;
use crate::ready_to_start::CountdownState;
use crate::ready_to_start::ReadyToStartModel;
use crate::running::initial_running_states;
use crate::running::running_elapsed_states;
use crate::running::running_io_f;
use crate::running::RunningModel;
use crate::state::phase_inv;
use crate::state::GameState;
use crate::state::Phase;
use crate::state::PhaseModel;
use crate::users::UserEntryModel;
use crate::users::Users;

verus! {

/// The mathematical content of the driver: the bridge entries and the live
/// phase.
#[verifier::ext_equal]
pub ghost struct GameModel {
    pub users: Seq<UserEntryModel>,
    pub state: PhaseModel,
}

/// The driver: the registry with its queue pairs, and exactly one live
/// phase.
pub struct Game {
    users: Users,
    game_state: Phase,
}

impl View for Game {
    type V = GameModel;

    closed spec fn view(&self) -> GameModel {
        GameModel { users: self.users@, state: self.game_state@ }
    }
}

/// One time advance of the whole driver: the live phase advances, and a
/// yielded transition replaces it, exactly once and irreversibly.
pub open spec fn game_elapsed_f(g: GameModel, ms: u64) -> GameModel {
    match g.state {
        PhaseModel::Accepting(m) => {
            let r = accepting_elapsed_f(m);
            GameModel {
                users: g.users,
                state: match r.1 {
                    Some(p) => p,
                    None => PhaseModel::Accepting(r.0),
                },
            }
        },
        PhaseModel::Countdown(m) => match m.state {
            CountdownState::SecondsLeft(_, _, _) => GameModel {
                users: g.users,
                state: PhaseModel::Countdown(
                    (ReadyToStartModel {
                        state: countdown_tick(m.state, ms),
                        users: m.users,
                        chat: m.chat,
                    }),
                ),
            },
            CountdownState::Starting(sent) => {
                if sent {
                    GameModel {
                        users: g.users,
                        state: PhaseModel::Running(
                            (RunningModel { users: initial_running_states(m.users) }),
                        ),
                    }
                } else {
                    g
                }
            },
        },
        PhaseModel::Running(m) => GameModel {
            users: g.users,
            state: PhaseModel::Running(
                (RunningModel { users: running_elapsed_states(m.users, ms) }),
            ),
        },
    }
}

/// One io-exchange of the whole driver: the live phase drains and produces
/// traffic against the bridge.
pub open spec fn game_io_f(g: GameModel) -> GameModel {
    match g.state {
        PhaseModel::Accepting(m) => {
            let r = accepting_io_f(m, g.users);
            GameModel { users: r.1, state: PhaseModel::Accepting(r.0) }
        },
        PhaseModel::Countdown(m) => {
            let r = countdown_io_f(m, g.users);
            GameModel { users: r.1, state: PhaseModel::Countdown(r.0) }
        },
        PhaseModel::Running(m) => {
            let r = running_io_f(m.users, g.users);
            GameModel { users: r.1, state: PhaseModel::Running((RunningModel { users: r.0 })) }
        },
    }
}

/// Whether the connection factory should pause taking new connections:
/// written by the accepting phase's latch logic, permanent once the
/// accepting phase is over.
pub open spec fn spec_pause_accepting(g: GameModel) -> bool {
    match g.state {
        PhaseModel::Accepting(m) => m.pause,
        _ => true,
    }
}

/// Whether the connection factory should stop taking new connections for
/// good.
pub open spec fn spec_stop_accepting(g: GameModel) -> bool {
    match g.state {
        PhaseModel::Accepting(m) => m.stop,
        _ => true,
    }
}

/// The registry is well-formed and the live phase keeps its invariant.
pub open spec fn game_wf(g: GameModel) -> bool {
    crate::users::wf_entries(g.users) && crate::state::phase_model_inv(g.state)
}

impl Game {
    /// The registry is well-formed and the live phase keeps its invariant.
    pub open spec fn wf(&self) -> bool {
        game_wf(self@)
    }

    /// A driver over a registry and an initial phase.
    pub fn new(users: Users, game_state: Phase) -> (r: Game)
        requires
            users.wf(),
            phase_inv(&game_state),
        ensures
            r.wf(),
            r@.users == users@,
            r@.state == game_state@,
    {
        Game { users, game_state }
    }

    /// Advances simulated time; a transition the phase yields replaces it.
    pub fn elapsed(&mut self, elapsed_ms: u64)
        requires
            old(self).wf(),
        ensures
            final(self).wf(),
            final(self)@ == game_elapsed_f(old(self)@, elapsed_ms),
    {
        let transition = match &mut self.game_state {
            Phase::Accepting(g) => g.elapsed(elapsed_ms),
            Phase::Countdown(g) => g.elapsed(elapsed_ms),
            Phase::Running(g) => g.elapsed(elapsed_ms),
        };
        match transition {
            Some(new_state) => {
                self.game_state = new_state;
            },
            None => {},
        }
        proof {
            assert(self@ =~~= game_elapsed_f(old(self)@, elapsed_ms));
        }
    }

    /// Drains and produces network traffic for the live phase.
    pub fn io_updates(&mut self)
        requires
            old(self).wf(),
        ensures
            final(self).wf(),
            final(self)@ == game_io_f(old(self)@),
    {
        match &mut self.game_state {
            Phase::Accepting(g) => g.io_updates(&mut self.users),
            Phase::Countdown(g) => g.io_updates(&mut self.users),
            Phase::Running(g) => g.io_updates(&mut self.users),
        }
        proof {
            assert(self@ =~~= game_io_f(old(self)@));
        }
    }

    /// The registry, for the connection factory and the pumps: adding and
    /// releasing clients and moving queue contents happens through it.
    pub fn users_mut(&mut self) -> (r: &mut Users)
        ensures
            r@ == old(self)@.users,
            final(self)@.users == final(r)@,
            final(self)@.state == old(self)@.state,
    {
        &mut self.users
    }

    /// Whether the accepting phase has paused taking new connections.
    pub fn pause_accepting(&self) -> (r: bool)
        ensures
            r == spec_pause_accepting(self@),
    {
        match &self.game_state {
            Phase::Accepting(g) => g.pause_accepting(),
            _ => true,
        }
    }

    /// Whether taking new connections has stopped for good.
    pub fn stop_accepting(&self) -> (r: bool)
        ensures
            r == spec_stop_accepting(self@),
    {
        match &self.game_state {
            Phase::Accepting(g) => g.stop_accepting(),
            _ => true,
        }
    }
}

} // verus!
