//! The countdown phase.
//!
//! Time accumulates; each full unit the remaining count drops and one
//! announcement is flagged.  The io-exchange sends every client one
//! `GameAboutToStart` with the remaining count whenever one is flagged, and
//! once the count reaches zero one `GameStarting`, after which time-advance
//! yields the running phase.  All inbound traffic during the countdown is
//! drained and discarded, never an error.

use vstd::prelude::*;

use crate::chat::Chat;
use crate::chat::ChatModel;
use crate::message::Message;
use crate::message::MessageType;
use crate::message::MessageView;
use crate::running::initial_running_states;
use crate::running::RunningGame;
use crate::running::RunningModel;
use crate::state::sat_add;
use crate::state::sat_add_u64;
use crate::state::GameState;
use crate::state::Phase;
use crate::state::PhaseModel;
use crate::users::spec_drain_each;
use crate::users::UserEntryModel;
use crate::users::spec_send_to_each;
use crate::users::Users;

verus! {

/// How many full time units the countdown runs.
pub const COUNTDOWN_SECONDS: u8 = 10;

/// One countdown time unit, in milliseconds.
pub const TIME_UNIT_MS: u64 = 1000;

/// Where the countdown stands: counting seconds down, or starting.  Each
/// variant carries a `sent` flag, the one-shot guard of its announcement.
#[derive(Copy, Clone, PartialEq, Eq, Structural)]
pub enum CountdownState {
    /// Seconds remaining, milliseconds accumulated toward the next full
    /// unit, and whether the current remaining count has been announced.
    SecondsLeft(u8, u64, bool),
    /// The countdown has run out; the flag says whether `GameStarting` went
    /// out yet.
    Starting(bool),
}

/// The mathematical content of the countdown phase.
#[verifier::ext_equal]
pub ghost struct ReadyToStartModel {
    pub state: CountdownState,
    pub users: Seq<i32>,
    pub chat: ChatModel,
}

/// The countdown phase: the confirmed roster, the carried chat ledger, and
/// the countdown's own state.
pub struct ReadyToStartGame {
    state: CountdownState,
    users: Vec<i32>,
    chat: Chat,
}

impl View for ReadyToStartGame {
    type V = ReadyToStartModel;

    closed spec fn view(&self) -> ReadyToStartModel {
        ReadyToStartModel { state: self.state, users: self.users@, chat: self.chat@ }
    }
}

/// One time advance of the countdown state: elapsed time accumulates
/// (saturating), and each time the accumulator passes a full unit the
/// remaining count drops by one and its announcement is flagged.
pub open spec fn countdown_tick(st: CountdownState, ms: u64) -> CountdownState {
    match st {
        CountdownState::SecondsLeft(s, acc, sent) => {
            let acc2 = sat_add(acc, ms);
            if acc2 > TIME_UNIT_MS {
                if s > 0 {
                    CountdownState::SecondsLeft((s - 1) as u8, (acc2 - TIME_UNIT_MS) as u64, false)
                } else {
                    CountdownState::SecondsLeft(s, (acc2 - TIME_UNIT_MS) as u64, sent)
                }
            } else {
                CountdownState::SecondsLeft(s, acc2, sent)
            }
        },
        CountdownState::Starting(sent) => CountdownState::Starting(sent),
    }
}

/// The announcement carrying the remaining count.
pub open spec fn game_about_to_start_view(s: u8) -> MessageView {
    MessageView { message_type: MessageType::GameAboutToStart, data: seq![s] }
}

/// The single start announcement.
pub open spec fn game_starting_view() -> MessageView {
    MessageView { message_type: MessageType::GameStarting, data: Seq::empty() }
}

/// One io-exchange of the countdown: the flagged announcement (the
/// remaining count, or `GameStarting` at zero) goes to every client on the
/// roster, then everything the clients sent is drained and discarded.
pub open spec fn countdown_io_f(m: ReadyToStartModel, entries: Seq<UserEntryModel>) -> (
    ReadyToStartModel,
    Seq<UserEntryModel>,
) {
    match m.state {
        CountdownState::SecondsLeft(s, acc, sent) => {
            let announced = if !sent {
                spec_send_to_each(entries, m.users, game_about_to_start_view(s))
            } else {
                entries
            };
            let st2 = if !sent {
                if s == 0 {
                    CountdownState::Starting(false)
                } else {
                    CountdownState::SecondsLeft(s, acc, true)
                }
            } else {
                m.state
            };
            (
                (ReadyToStartModel { state: st2, users: m.users, chat: m.chat }),
                spec_drain_each(announced, m.users),
            )
        },
        CountdownState::Starting(sent) => {
            let announced = if !sent {
                spec_send_to_each(entries, m.users, game_starting_view())
            } else {
                entries
            };
            (
                (ReadyToStartModel {
                    state: CountdownState::Starting(true),
                    users: m.users,
                    chat: m.chat,
                }),
                spec_drain_each(announced, m.users),
            )
        },
    }
}

impl ReadyToStartGame {
    /// The roster holds each client once; what the accepting phase exports.
    pub open spec fn wf(&self) -> bool {
        self@.users.no_duplicates()
    }

    /// A fresh countdown over the confirmed roster, carrying the chat
    /// ledger forward.  Nothing is flagged for announcement yet: the first
    /// announcement goes out when the first full unit passes.
    pub fn new(users: Vec<i32>, chat: Chat) -> (r: ReadyToStartGame)
        requires
            users@.no_duplicates(),
        ensures
            r.wf(),
            r@.state == CountdownState::SecondsLeft(COUNTDOWN_SECONDS, 0u64, true),
            r@.users == users@,
            r@.chat == chat@,
    {
        ReadyToStartGame {
            state: CountdownState::SecondsLeft(COUNTDOWN_SECONDS, 0, true),
            users,
            chat,
        }
    }
}

impl GameState for ReadyToStartGame {
    /// The roster holds each client once.
    open spec fn inv(&self) -> bool {
        self.wf()
    }

    /// Time advance: accumulate elapsed time, drop the remaining count once
    /// per full unit, and once `GameStarting` has gone out yield the running
    /// phase, built from the roster.
    fn elapsed(&mut self, elapsed_ms: u64) -> (r: Option<Phase>)
        ensures
            match old(self)@.state {
                CountdownState::SecondsLeft(_, _, _) => r is None && final(self)@
                    == (ReadyToStartModel {
                    state: countdown_tick(old(self)@.state, elapsed_ms),
                    users: old(self)@.users,
                    chat: old(self)@.chat,
                }),
                CountdownState::Starting(sent) => {
                    if sent {
                        r matches Some(p) && p@ == PhaseModel::Running(
                            (RunningModel { users: initial_running_states(old(self)@.users) }),
                        )
                    } else {
                        r is None && final(self)@ == old(self)@
                    }
                },
            },
    {
        match self.state {
            CountdownState::SecondsLeft(s, acc, sent) => {
                let acc2 = sat_add_u64(acc, elapsed_ms);
                if acc2 > TIME_UNIT_MS {
                    if s > 0 {
                        self.state = CountdownState::SecondsLeft(s - 1, acc2 - TIME_UNIT_MS, false);
                    } else {
                        self.state = CountdownState::SecondsLeft(s, acc2 - TIME_UNIT_MS, sent);
                    }
                } else {
                    self.state = CountdownState::SecondsLeft(s, acc2, sent);
                }
                None
            },
            CountdownState::Starting(sent) => {
                if sent {
                    let mut roster_taken: Vec<i32> = Vec::new();
                    core::mem::swap(&mut self.users, &mut roster_taken);
                    Some(Phase::Running(RunningGame::new(roster_taken)))
                } else {
                    None
                }
            },
        }
    }

    /// Io-exchange: send the flagged announcement (the remaining count, or
    /// `GameStarting` at zero) to every client on the roster, then drain and
    /// discard everything the clients sent.
    fn io_updates(&mut self, users: &mut Users)
        ensures
            (final(self)@, final(users)@) == countdown_io_f(old(self)@, old(users)@),
    {
        let ghost roster = self@.users;
        let ghost e0 = old(users)@;
        match self.state {
            CountdownState::SecondsLeft(s, acc, sent) => {
                if !sent {
                    let n = self.users.len();
                    let mut i: usize = 0;
                    while i < n
                        invariant
                            n == self.users@.len(),
                            i <= n,
                            roster == self.users@,
                            users.wf(),
                            users@ =~= spec_send_to_each(
                                e0,
                                roster.subrange(0, i as int),
                                game_about_to_start_view(s),
                            ),
                        decreases n - i,
                    {
                        let mut game_about_to_start = Message::new(MessageType::GameAboutToStart);
                        game_about_to_start.push_u8(s);
                        proof {
                            assert(game_about_to_start@.data =~= seq![s]);
                            assert(roster.subrange(0, i + 1).drop_last() =~= roster.subrange(
                                0,
                                i as int,
                            ));
                        }
                        let u = self.users[i];
                        users.send_to(u, game_about_to_start);
                        i = i + 1;
                    }
                    proof {
                        assert(roster.subrange(0, n as int) =~= roster);
                    }
                    if s == 0 {
                        self.state = CountdownState::Starting(false);
                    } else {
                        self.state = CountdownState::SecondsLeft(s, acc, true);
                    }
                }
            },
            CountdownState::Starting(sent) => {
                if !sent {
                    let n = self.users.len();
                    let mut i: usize = 0;
                    while i < n
                        invariant
                            n == self.users@.len(),
                            i <= n,
                            roster == self.users@,
                            users.wf(),
                            users@ =~= spec_send_to_each(
                                e0,
                                roster.subrange(0, i as int),
                                game_starting_view(),
                            ),
                        decreases n - i,
                    {
                        let game_starting = Message::new(MessageType::GameStarting);
                        proof {
                            assert(game_starting@.data =~= Seq::<u8>::empty());
                            assert(roster.subrange(0, i + 1).drop_last() =~= roster.subrange(
                                0,
                                i as int,
                            ));
                        }
                        let u = self.users[i];
                        users.send_to(u, game_starting);
                        i = i + 1;
                    }
                    proof {
                        assert(roster.subrange(0, n as int) =~= roster);
                    }
                    self.state = CountdownState::Starting(true);
                }
            },
        }
        let ghost announced = users@;
        let n = self.users.len();
        let mut i: usize = 0;
        while i < n
            invariant
                n == self.users@.len(),
                i <= n,
                roster == self.users@,
                users.wf(),
                users@ =~= spec_drain_each(announced, roster.subrange(0, i as int)),
            decreases n - i,
        {
            proof {
                assert(roster.subrange(0, i + 1).drop_last() =~= roster.subrange(0, i as int));
            }
            let u = self.users[i];
            let _discarded = users.drain_inbound(u);
            i = i + 1;
        }
        proof {
            assert(roster.subrange(0, n as int) =~= roster);
        }
    }
}


/// The countdown announces a strictly decreasing remaining count, exactly
/// once per full time unit and per client: from remaining count `s` with the
/// previous announcement out, one time-advance crossing a full unit and the
/// following io-exchange append exactly one `GameAboutToStart` carrying
/// `s - 1` to every roster client's outbound queue, and leave remaining
/// count `s - 1` announced (or the start state once zero is announced).
pub proof fn lemma_countdown_round(
    m: ReadyToStartModel,
    entries: Seq<UserEntryModel>,
    s: u8,
    acc: u64,
    ms: u64,
    b: i32,
)
    requires
        crate::users::wf_entries(entries),
        m.users.no_duplicates(),
        m.state == CountdownState::SecondsLeft(s, acc, true),
        s > 0,
        acc + ms > TIME_UNIT_MS,
        acc + ms <= u64::MAX,
        m.users.contains(b),
        crate::users::ids_of(entries).contains(b),
    ensures
        ({
            let ticked = (ReadyToStartModel {
                state: countdown_tick(m.state, ms),
                users: m.users,
                chat: m.chat,
            });
            let r = countdown_io_f(ticked, entries);
            &&& ticked.state == CountdownState::SecondsLeft(
                (s - 1) as u8,
                (acc + ms - TIME_UNIT_MS) as u64,
                false,
            )
            &&& crate::users::outbox_of(r.1, b) == crate::users::outbox_of(entries, b).push(
                game_about_to_start_view((s - 1) as u8),
            )
            &&& r.0.state == (if s == 1 {
                CountdownState::Starting(false)
            } else {
                CountdownState::SecondsLeft((s - 1) as u8, (acc + ms - TIME_UNIT_MS) as u64, true)
            })
            &&& r.0.users == m.users
            &&& r.0.chat == m.chat
            &&& crate::users::ids_of(r.1) == crate::users::ids_of(entries)
        }),
{
    let announced = spec_send_to_each(entries, m.users, game_about_to_start_view((s - 1) as u8));
    crate::users::lemma_send_each_effect(entries, m.users, game_about_to_start_view(
        (s - 1) as u8,
    ), b);
    crate::users::lemma_queue_op_keeps_unique(entries, announced);
    crate::users::lemma_drain_each_effect(announced, m.users, b);
}

/// Exactly one `GameStarting` follows the countdown: once zero was
/// announced, the next io-exchange sends every roster client one
/// `GameStarting` and latches, and the next time-advance yields the running
/// phase; a latched start state never announces again.
pub proof fn lemma_countdown_start_round(
    m: ReadyToStartModel,
    entries: Seq<UserEntryModel>,
    b: i32,
)
    requires
        crate::users::wf_entries(entries),
        m.users.no_duplicates(),
        m.state == CountdownState::Starting(false),
        m.users.contains(b),
        crate::users::ids_of(entries).contains(b),
    ensures
        ({
            let r = countdown_io_f(m, entries);
            &&& crate::users::outbox_of(r.1, b) == crate::users::outbox_of(entries, b).push(
                game_starting_view(),
            )
            &&& r.0.state == CountdownState::Starting(true)
            &&& countdown_io_f(r.0, countdown_io_f(m, entries).1).1 == spec_drain_each(
                countdown_io_f(m, entries).1,
                m.users,
            )
        }),
{
    let announced = spec_send_to_each(entries, m.users, game_starting_view());
    crate::users::lemma_send_each_effect(entries, m.users, game_starting_view(), b);
    crate::users::lemma_queue_op_keeps_unique(entries, announced);
    crate::users::lemma_drain_each_effect(announced, m.users, b);
}


/// One whole driver round of the countdown: a time advance, then the
/// io-exchange.
pub open spec fn countdown_round_f(
    m: ReadyToStartModel,
    entries: Seq<UserEntryModel>,
    ms: u64,
) -> (ReadyToStartModel, Seq<UserEntryModel>) {
    countdown_io_f(
        (ReadyToStartModel { state: countdown_tick(m.state, ms), users: m.users, chat: m.chat }),
        entries,
    )
}

/// `k` whole driver rounds of the countdown, each of `ms` elapsed time.
pub open spec fn countdown_rounds_f(
    m: ReadyToStartModel,
    entries: Seq<UserEntryModel>,
    ms: u64,
    k: nat,
) -> (ReadyToStartModel, Seq<UserEntryModel>)
    decreases k,
{
    if k == 0 {
        (m, entries)
    } else {
        let prev = countdown_rounds_f(m, entries, ms, (k - 1) as nat);
        countdown_round_f(prev.0, prev.1, ms)
    }
}

/// The first `count` announcements of a countdown from `from`: remaining
/// counts `from - 1`, `from - 2`, ..., `from - count`, strictly decreasing.
pub open spec fn announcements(from: int, count: nat) -> Seq<MessageView>
    recommends
        count <= from,
    decreases count,
{
    if count == 0 {
        Seq::empty()
    } else {
        announcements(from, (count - 1) as nat).push(game_about_to_start_view((from - count) as u8))
    }
}

/// The countdown emits exactly one announcement per client and per full time
/// unit, the remaining counts strictly decreasing down to zero: after `k`
/// rounds each crossing one unit, every roster client's outbound queue has
/// gained exactly the announcements `N - 1`, ..., `N - k`, and the countdown
/// stands at `N - k` (at zero: about to start).
pub proof fn lemma_countdown_emits_exactly_n(
    m: ReadyToStartModel,
    entries: Seq<UserEntryModel>,
    ms: u64,
    k: nat,
    b: i32,
)
    requires
        crate::users::wf_entries(entries),
        m.users.no_duplicates(),
        m.state == CountdownState::SecondsLeft(COUNTDOWN_SECONDS, 0u64, true),
        TIME_UNIT_MS < ms <= 2 * TIME_UNIT_MS,
        1 <= k <= COUNTDOWN_SECONDS,
        m.users.contains(b),
        crate::users::ids_of(entries).contains(b),
    ensures
        ({
            let r = countdown_rounds_f(m, entries, ms, k);
            &&& crate::users::outbox_of(r.1, b) == crate::users::outbox_of(entries, b)
                + announcements(COUNTDOWN_SECONDS as int, k)
            &&& r.0.state == (if k == COUNTDOWN_SECONDS {
                CountdownState::Starting(false)
            } else {
                CountdownState::SecondsLeft(
                    (COUNTDOWN_SECONDS - k) as u8,
                    (k * (ms - TIME_UNIT_MS)) as u64,
                    true,
                )
            })
            &&& r.0.users == m.users
            &&& r.0.chat == m.chat
            &&& crate::users::ids_of(r.1) == crate::users::ids_of(entries)
        }),
    decreases k,
{
    assert(k * (ms - TIME_UNIT_MS) <= k * TIME_UNIT_MS <= COUNTDOWN_SECONDS * TIME_UNIT_MS)
        by (nonlinear_arith)
        requires
            1 <= k <= COUNTDOWN_SECONDS,
            TIME_UNIT_MS < ms <= 2 * TIME_UNIT_MS,
    ;
    if k == 1 {
        assert(countdown_rounds_f(m, entries, ms, 0) == (m, entries));
        assert(announcements(COUNTDOWN_SECONDS as int, 0) == Seq::<MessageView>::empty());
        assert(k * (ms - TIME_UNIT_MS) == ms - TIME_UNIT_MS) by (nonlinear_arith)
            requires
                k == 1,
        ;
        lemma_countdown_round(m, entries, COUNTDOWN_SECONDS, 0u64, ms, b);
        let r = countdown_rounds_f(m, entries, ms, 1);
        assert(crate::users::outbox_of(r.1, b) =~= crate::users::outbox_of(entries, b)
            + announcements(COUNTDOWN_SECONDS as int, 1));
    } else {
        lemma_countdown_emits_exactly_n(m, entries, ms, (k - 1) as nat, b);
        let prev = countdown_rounds_f(m, entries, ms, (k - 1) as nat);
        let d = (ms - TIME_UNIT_MS) as int;
        assert((k as int - 1) * d + d == (k as int) * d && 0 <= (k as int - 1) * d)
            by (nonlinear_arith)
            requires
                1 <= k,
                0 <= d,
        ;
        assert(((k - 1) as nat) * (ms - TIME_UNIT_MS) + (ms - TIME_UNIT_MS) == k * (ms
            - TIME_UNIT_MS));
        let s = (COUNTDOWN_SECONDS - (k - 1)) as u8;
        let acc = (((k - 1) as nat) * (ms - TIME_UNIT_MS)) as u64;
        crate::users::lemma_same_ids_keep_wf(entries, prev.1);
        lemma_countdown_round(prev.0, prev.1, s, acc, ms, b);
        let r = countdown_rounds_f(m, entries, ms, k);
        assert(crate::users::outbox_of(r.1, b) =~= crate::users::outbox_of(entries, b)
            + announcements(COUNTDOWN_SECONDS as int, k));
    }
}

/// After the countdown has announced zero, the next round sends every roster
/// client exactly one `GameStarting` and latches, never to announce again:
/// the whole trace a client sees is the `N` strictly decreasing
/// announcements, then one `GameStarting`.
pub proof fn lemma_countdown_completes(
    m: ReadyToStartModel,
    entries: Seq<UserEntryModel>,
    ms: u64,
    b: i32,
)
    requires
        crate::users::wf_entries(entries),
        m.users.no_duplicates(),
        m.state == CountdownState::SecondsLeft(COUNTDOWN_SECONDS, 0u64, true),
        TIME_UNIT_MS < ms <= 2 * TIME_UNIT_MS,
        m.users.contains(b),
        crate::users::ids_of(entries).contains(b),
    ensures
        ({
            let r = countdown_rounds_f(m, entries, ms, (COUNTDOWN_SECONDS + 1) as nat);
            &&& crate::users::outbox_of(r.1, b) == crate::users::outbox_of(entries, b)
                + announcements(COUNTDOWN_SECONDS as int, COUNTDOWN_SECONDS as nat).push(
                game_starting_view(),
            )
            &&& r.0.state == CountdownState::Starting(true)
            &&& r.0.users == m.users
        }),
{
    lemma_countdown_emits_exactly_n(m, entries, ms, COUNTDOWN_SECONDS as nat, b);
    let prev = countdown_rounds_f(m, entries, ms, COUNTDOWN_SECONDS as nat);
    crate::users::lemma_same_ids_keep_wf(entries, prev.1);
    // the time advance of the final round leaves the about-to-start state
    // untouched; its io-exchange is the single GameStarting broadcast
    let ticked = (ReadyToStartModel {
        state: countdown_tick(prev.0.state, ms),
        users: prev.0.users,
        chat: prev.0.chat,
    });
    assert(ticked == prev.0);
    lemma_countdown_start_round(prev.0, prev.1, b);
    let r = countdown_rounds_f(m, entries, ms, (COUNTDOWN_SECONDS + 1) as nat);
    assert(crate::users::outbox_of(r.1, b) =~= crate::users::outbox_of(entries, b)
        + announcements(COUNTDOWN_SECONDS as int, COUNTDOWN_SECONDS as nat).push(
        game_starting_view(),
    ));
}

} // verus!
