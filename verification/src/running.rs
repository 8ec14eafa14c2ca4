//! The running phase.
//!
//! Each client cycles between waiting for an application message and holding
//! one: an inbound application payload is captured while waiting, a
//! per-client timer accumulates while one is held, and once the dwell
//! threshold passes a reply is sent and the client waits again.  The
//! "received" side effect fires exactly once per captured payload, through a
//! one-shot latch.

use vstd::prelude::*;

use crate::message::lemma_encode_utf8_len;
use crate::message::parse_counted_texts;
use crate::message::spec_parse_texts;
use crate::message::str_field;
use crate::message::Message;
use crate::message::MessageType;
use crate::message::MessageView;
use crate::reaction::Reaction;
use crate::state::sat_add;
use crate::state::sat_add_u64;
use crate::state::GameState;
use crate::state::Phase;
use crate::users::inbox_of;
use crate::users::spec_drain_one;
use crate::users::spec_send_to;
use crate::users::UserEntryModel;
use crate::users::Users;

verus! {

/// How long a captured payload dwells, in milliseconds, before the reply
/// goes out.
pub const DWELL_MS: u64 = 2000;

/// One client's sub-state in the running phase.
pub enum RunningUserState {
    /// Waiting for the client's next application message.
    WaitingForStub,
    /// Holding a captured payload: its texts, the dwell timer, and the
    /// one-shot latch for the "received" side effect.
    StubAccepted(Vec<String>, u64, Reaction),
}

/// The mathematical content of one client's running sub-state.
#[verifier::ext_equal]
pub ghost enum RunningUserModel {
    WaitingForStub,
    StubAccepted(Seq<Seq<char>>, u64, bool),
}

impl View for RunningUserState {
    type V = RunningUserModel;

    open spec fn view(&self) -> RunningUserModel {
        match self {
            RunningUserState::WaitingForStub => RunningUserModel::WaitingForStub,
            RunningUserState::StubAccepted(m, d, re) => RunningUserModel::StubAccepted(
                m@.map_values(|s: String| s@),
                *d,
                re.reacted(),
            ),
        }
    }
}

/// The mathematical content of the running phase: each client's sub-state,
/// in roster order.
#[verifier::ext_equal]
pub ghost struct RunningModel {
    pub users: Seq<(i32, RunningUserModel)>,
}

/// The running phase: per-client sub-state keyed by client id.
pub struct RunningGame {
    user_to_user_state: Vec<(i32, RunningUserState)>,
}

/// The model of a sub-state vector: each entry's id and sub-state model.
pub open spec fn states_view(s: Seq<(i32, RunningUserState)>) -> Seq<(i32, RunningUserModel)> {
    s.map_values(|p: (i32, RunningUserState)| (p.0, p.1@))
}

impl View for RunningGame {
    type V = RunningModel;

    closed spec fn view(&self) -> RunningModel {
        RunningModel { users: states_view(self.user_to_user_state@) }
    }
}

/// The io-exchange touches one sub-state per client: the roster's length is
/// kept.
pub proof fn lemma_running_io_len(s: Seq<(i32, RunningUserModel)>, entries: Seq<UserEntryModel>)
    ensures
        running_io_f(s, entries).0.len() == s.len(),
    decreases s.len(),
{
    if s.len() > 0 {
        lemma_running_io_len(s.drop_last(), entries);
    }
}

/// The sub-state every client starts the running phase in: an empty
/// captured payload whose "received" effect already counts as fired.
pub open spec fn initial_running_states(users: Seq<i32>) -> Seq<(i32, RunningUserModel)> {
    users.map_values(
        |u: i32| (u, RunningUserModel::StubAccepted(Seq::<Seq<char>>::empty(), 0u64, true)),
    )
}

/// Time advancing by `ms` for every client: a held payload's dwell timer
/// accumulates and its one-shot "received" effect latches; waiting clients
/// are untouched.
pub open spec fn running_elapsed_states(s: Seq<(i32, RunningUserModel)>, ms: u64) -> Seq<
    (i32, RunningUserModel),
> {
    s.map_values(
        |p: (i32, RunningUserModel)|
            (
                p.0,
                match p.1 {
                    RunningUserModel::WaitingForStub => RunningUserModel::WaitingForStub,
                    RunningUserModel::StubAccepted(m, d, _) => RunningUserModel::StubAccepted(
                        m,
                        sat_add(d, ms),
                        true,
                    ),
                },
            ),
    )
}

/// What a waiting client's drained inbox leaves it holding: each
/// application message with a well-formed counted-texts payload captures
/// that payload, the last one winning; anything else is skipped, a
/// malformed payload dropping that one message only.
pub open spec fn fold_stub(st: RunningUserModel, msgs: Seq<MessageView>) -> RunningUserModel
    decreases msgs.len(),
{
    if msgs.len() == 0 {
        st
    } else {
        let st2 = if msgs[0].message_type == MessageType::StubMessage {
            match spec_parse_texts(msgs[0].data) {
                Some(ts) => RunningUserModel::StubAccepted(ts, 0u64, false),
                None => st,
            }
        } else {
            st
        };
        fold_stub(st2, msgs.drop_first())
    }
}

/// The reply sent after the dwell: a fixed two-line application payload.
pub open spec fn stub_reply_payload() -> Seq<u8> {
    str_field("Hello from the other siiiiiiiiiide!"@) + str_field(
        "At least I can say that I've triiiiiiiiiiied!"@,
    ) + seq![2u8]
}

/// The reply message's content.
pub open spec fn stub_reply_view() -> MessageView {
    MessageView { message_type: MessageType::StubMessage, data: stub_reply_payload() }
}

/// One io-exchange over the whole roster, client by client in roster order:
/// a waiting client's inbound queue is drained exhaustively and folded into
/// its sub-state; a client past the dwell threshold is sent the reply and
/// set waiting again.
pub open spec fn running_io_f(
    s: Seq<(i32, RunningUserModel)>,
    entries: Seq<UserEntryModel>,
) -> (Seq<(i32, RunningUserModel)>, Seq<UserEntryModel>)
    decreases s.len(),
{
    if s.len() == 0 {
        (s, entries)
    } else {
        let prev = running_io_f(s.drop_last(), entries);
        let p = s.last();
        match p.1 {
            RunningUserModel::WaitingForStub => {
                (
                    prev.0 + seq![
                        (
                            p.0,
                            fold_stub(
                                RunningUserModel::WaitingForStub,
                                inbox_of(prev.1, p.0),
                            ),
                        ),
                    ],
                    spec_drain_one(prev.1, p.0),
                )
            },
            RunningUserModel::StubAccepted(m, d, re) => {
                if d > DWELL_MS {
                    (
                        prev.0 + seq![(p.0, RunningUserModel::WaitingForStub)],
                        spec_send_to(prev.1, p.0, stub_reply_view()),
                    )
                } else {
                    (prev.0 + seq![p], prev.1)
                }
            },
        }
    }
}

impl RunningGame {
    /// A fresh running phase over the confirmed roster.
    pub fn new(users: Vec<i32>) -> (r: RunningGame)
        ensures
            r@.users == initial_running_states(users@),
    {
        let mut states: Vec<(i32, RunningUserState)> = Vec::new();
        let n = users.len();
        let mut i: usize = 0;
        while i < n
            invariant
                n == users@.len(),
                i <= n,
                states_view(states@) == initial_running_states(users@.subrange(0, i as int)),
            decreases n - i,
        {
            let u = users[i];
            let re = Reaction::new_reacted(true);
            let entry = (u, RunningUserState::StubAccepted(Vec::new(), 0, re));
            proof {
                assert(entry.1@ =~~= RunningUserModel::StubAccepted(
                    Seq::<Seq<char>>::empty(),
                    0u64,
                    true,
                ));
            }
            let ghost sv = states@;
            states.push(entry);
            proof {
                assert(states_view(states@) =~~= states_view(sv).push((u, entry.1@)));
                assert(users@.subrange(0, i + 1) =~= users@.subrange(0, i as int) + seq![
                    users@[i as int],
                ]);
                assert(initial_running_states(users@.subrange(0, i + 1))
                    =~~= initial_running_states(users@.subrange(0, i as int)).push(
                    (
                        users@[i as int],
                        RunningUserModel::StubAccepted(Seq::<Seq<char>>::empty(), 0u64, true),
                    ),
                ));
            }
            i = i + 1;
        }
        proof {
            assert(users@.subrange(0, n as int) =~= users@);
        }
        RunningGame { user_to_user_state: states }
    }

    /// The reply sent once a captured payload has dwelt long enough.
    pub fn create_stub_message() -> (r: Message)
        ensures
            r@ == stub_reply_view(),
    {
        let first = "Hello from the other siiiiiiiiiide!";
        let second = "At least I can say that I've triiiiiiiiiiied!";
        proof {
            reveal_strlit("Hello from the other siiiiiiiiiide!");
            reveal_strlit("At least I can say that I've triiiiiiiiiiied!");
            lemma_encode_utf8_len(first@);
            lemma_encode_utf8_len(second@);
        }
        let mut m = Message::new(MessageType::StubMessage);
        m.push_string(first);
        m.push_string(second);
        m.push_u8(2);
        proof {
            assert(m@.data =~= stub_reply_payload());
        }
        m
    }
}

impl GameState for RunningGame {
    /// The running phase needs no invariant beyond its fields' types.
    open spec fn inv(&self) -> bool {
        true
    }

    /// Time advance: dwell timers accumulate and each captured payload's
    /// one-shot "received" effect latches; the phase never yields a
    /// successor.
    fn elapsed(&mut self, elapsed_ms: u64) -> (r: Option<Phase>)
        ensures
            r is None,
            final(self)@.users == running_elapsed_states(old(self)@.users, elapsed_ms),
    {
        let ghost oldm = old(self)@.users;
        let n = self.user_to_user_state.len();
        let mut i: usize = 0;
        while i < n
            invariant
                n == self.user_to_user_state@.len(),
                i <= n,
                oldm.len() == n,
                self@.users == running_elapsed_states(oldm.subrange(0, i as int), elapsed_ms)
                    + oldm.skip(i as int),
            decreases n - i,
        {
            let ghost vbefore = self.user_to_user_state@;
            let pair = self.user_to_user_state.remove(i);
            let ghost pairv = (pair.0, pair.1@);
            proof {
                assert(states_view(vbefore)[i as int] == pairv);
                assert(pairv == oldm[i as int]);
            }
            let (id, st) = pair;
            let st2 = match st {
                RunningUserState::WaitingForStub => RunningUserState::WaitingForStub,
                RunningUserState::StubAccepted(m, d, re) => {
                    let mut re2 = re;
                    let _fired = re2.react_once();
                    let d2 = sat_add_u64(d, elapsed_ms);
                    RunningUserState::StubAccepted(m, d2, re2)
                },
            };
            let ghost st2v = st2@;
            self.user_to_user_state.insert(i, (id, st2));
            proof {
                assert(self.user_to_user_state@ =~= vbefore.update(i as int, (id, st2)));
                assert(states_view(self.user_to_user_state@) =~~= states_view(vbefore).update(
                    i as int,
                    (pairv.0, st2v),
                ));
                assert(oldm.subrange(0, i + 1).drop_last() =~= oldm.subrange(0, i as int));
                assert(oldm.subrange(0, i + 1).last() == oldm[i as int]);
                assert((pairv.0, st2v) == (
                    oldm[i as int].0,
                    match oldm[i as int].1 {
                        RunningUserModel::WaitingForStub => RunningUserModel::WaitingForStub,
                        RunningUserModel::StubAccepted(m, d, _) => RunningUserModel::StubAccepted(
                            m,
                            sat_add(d, elapsed_ms),
                            true,
                        ),
                    },
                ));
                assert(running_elapsed_states(oldm.subrange(0, i + 1), elapsed_ms) + oldm.skip(
                    i + 1,
                ) =~~= (running_elapsed_states(oldm.subrange(0, i as int), elapsed_ms) + oldm.skip(
                    i as int,
                )).update(i as int, (pairv.0, st2v)));
            }
            i = i + 1;
        }
        proof {
            assert(oldm.subrange(0, n as int) =~= oldm);
        }
        None
    }

    /// Io-exchange: waiting clients capture application payloads from their
    /// drained inbound queues; clients past the dwell threshold receive the
    /// reply and wait again.
    fn io_updates(&mut self, users: &mut Users)
        ensures
            (final(self)@.users, final(users)@) == running_io_f(old(self)@.users, old(users)@),
    {
        let ghost oldm = old(self)@.users;
        let ghost e0 = old(users)@;
        let n = self.user_to_user_state.len();
        let mut i: usize = 0;
        while i < n
            invariant
                n == self.user_to_user_state@.len(),
                i <= n,
                users.wf(),
                oldm.len() == n,
                self@.users == running_io_f(oldm.subrange(0, i as int), e0).0 + oldm.skip(
                    i as int,
                ),
                users@ == running_io_f(oldm.subrange(0, i as int), e0).1,
            decreases n - i,
        {
            let ghost prev = running_io_f(oldm.subrange(0, i as int), e0);
            proof {
                lemma_running_io_len(oldm.subrange(0, i as int), e0);
            }
            let ghost vbefore = self.user_to_user_state@;
            let pair = self.user_to_user_state.remove(i);
            let ghost pairv = (pair.0, pair.1@);
            proof {
                assert(states_view(vbefore)[i as int] == pairv);
                assert(pairv == oldm[i as int]);
            }
            let (id, st) = pair;
            let st2 = match st {
                RunningUserState::WaitingForStub => {
                    let msgs = users.drain_inbound(id);
                    let ghost inbox = msgs@.map_values(|m: Message| m@);
                    proof {
                        assert(inbox =~= inbox_of(prev.1, id));
                        assert(users@ =~~= spec_drain_one(prev.1, id));
                    }
                    let mut cur = RunningUserState::WaitingForStub;
                    proof {
                        assert(inbox.skip(0) =~= inbox);
                    }
                    let k = msgs.len();
                    let mut j: usize = 0;
                    while j < k
                        invariant
                            k == msgs@.len(),
                            j <= k,
                            inbox == msgs@.map_values(|m: Message| m@),
                            fold_stub(RunningUserModel::WaitingForStub, inbox) == fold_stub(
                                cur@,
                                inbox.skip(j as int),
                            ),
                        decreases k - j,
                    {
                        let m = msgs[j].duplicate();
                        proof {
                            assert(inbox[j as int] == msgs@[j as int]@);
                            assert(inbox.skip(j as int).drop_first() =~= inbox.skip(j + 1));
                            assert(inbox.skip(j as int).first() == inbox[j as int]);
                        }
                        match m.message_type() {
                            MessageType::StubMessage => {
                                match parse_counted_texts(m) {
                                    Some(v) => {
                                        cur = RunningUserState::StubAccepted(
                                            v,
                                            0,
                                            Reaction::new(),
                                        );
                                    },
                                    None => {},
                                }
                            },
                            _ => {},
                        }
                        j = j + 1;
                    }
                    proof {
                        assert(inbox.skip(k as int) =~= Seq::<MessageView>::empty());
                    }
                    cur
                },
                RunningUserState::StubAccepted(m, d, re) => {
                    if d > DWELL_MS {
                        users.send_to(id, RunningGame::create_stub_message());
                        proof {
                            assert(users@ =~~= spec_send_to(prev.1, id, stub_reply_view()));
                        }
                        RunningUserState::WaitingForStub
                    } else {
                        RunningUserState::StubAccepted(m, d, re)
                    }
                },
            };
            let ghost st2v = st2@;
            self.user_to_user_state.insert(i, (id, st2));
            proof {
                assert(self.user_to_user_state@ =~= vbefore.update(i as int, (id, st2)));
                assert(states_view(self.user_to_user_state@) =~~= states_view(vbefore).update(
                    i as int,
                    (pairv.0, st2v),
                ));
                assert(oldm.subrange(0, i + 1).drop_last() =~= oldm.subrange(0, i as int));
                assert(oldm.subrange(0, i + 1).last() == oldm[i as int]);
                let stepped = running_io_f(oldm.subrange(0, i + 1), e0);
                assert(stepped.0 == prev.0 + seq![(pairv.0, st2v)] && stepped.1 == users@) by {
                    match oldm[i as int].1 {
                        RunningUserModel::WaitingForStub => {},
                        RunningUserModel::StubAccepted(m2, d2, re2) => {},
                    }
                }
                assert((prev.0 + oldm.skip(i as int)).update(i as int, (pairv.0, st2v))
                    =~~= (prev.0 + seq![(pairv.0, st2v)]) + oldm.skip(i + 1));
            }
            i = i + 1;
        }
        proof {
            assert(oldm.subrange(0, n as int) =~= oldm);
        }
    }
}

} // verus!
