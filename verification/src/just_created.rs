//! The accepting phase.
//!
//! Clients join, request a connection, and flip ready flags; chat runs
//! throughout.  Each io-exchange syncs the per-client sub-state against the
//! connected snapshot (newcomers start Connected, the vanished are removed
//! outright), processes each client's drained inbound queue, promotes
//! requesters to accepted with a roster reply and a one-time chat-history
//! push, and batches roster changes and fresh chat into one broadcast each.
//! Time-advance watches for unanimous readiness and arms a one-shot latch
//! that must survive one further full round before the countdown begins;
//! any non-unanimous reading resets it.

use vstd::prelude::*;
use vstd::pervasive::VecAdditionalExecFns;

use crate::chat::chat_update_bytes;
use crate::chat::credited;
use crate::chat::texts_fit;
use crate::chat::Chat;
use crate::chat::ChatModel;
use crate::message::i32_le;
use crate::message::spec_parse_texts;
use crate::message::Message;
use crate::message::MessageType;
use crate::message::MessageView;
use crate::reaction::reaction_with;
use crate::reaction::Reaction;
use crate::ready_to_start::CountdownState;
use crate::ready_to_start::ReadyToStartGame;
use crate::ready_to_start::ReadyToStartModel;
use crate::ready_to_start::COUNTDOWN_SECONDS;
use crate::state::GameState;
use crate::state::Phase;
use crate::state::PhaseModel;
use crate::users::ids_of;
use crate::users::inbox_of;
use crate::users::spec_send_to;
use crate::users::spec_send_to_each;
use crate::users::spec_drain_one;
use crate::users::UserEntryModel;
use crate::users::Users;

verus! {

/// A roster change announced to the accepted clients.
#[derive(Copy, Clone, PartialEq, Eq, Structural, Debug)]
pub enum UserUpdateStatus {
    Ready,
    NotReady,
    Disconnected,
}

/// The wire byte of each roster-change status.
pub open spec fn status_value(s: UserUpdateStatus) -> u8 {
    match s {
        UserUpdateStatus::Ready => 1,
        UserUpdateStatus::NotReady => 0,
        UserUpdateStatus::Disconnected => 2,
    }
}

impl UserUpdateStatus {
    /// The wire byte of this status.
    pub fn value(&self) -> (r: u8)
        ensures
            r == status_value(*self),
    {
        match self {
            UserUpdateStatus::Ready => 1,
            UserUpdateStatus::NotReady => 0,
            UserUpdateStatus::Disconnected => 2,
        }
    }
}

/// The one-shot latch that guards the move to the countdown: armed when a
/// reading finds everyone ready, confirmed by the io-exchange, and only a
/// confirmed latch lets the next unanimous reading transition.
#[derive(Copy, Clone, PartialEq, Eq, Structural, Debug)]
pub enum FinalCall {
    NotYet,
    AllReady,
    Processed,
}

/// One client's sub-state while the session accepts connections.
#[derive(Copy, Clone, PartialEq, Eq, Structural, Debug)]
pub enum AcceptingUserState {
    /// The socket is up; no connection request has arrived yet.
    Connected,
    /// A connection request arrived; acceptance goes out this round.
    AboutToAccept,
    /// Accepted, with the one-shot "connected" reaction and the ready flag.
    ConnectionAccepted(Reaction, bool),
}

/// Where the accepting phase stands: still gathering clients, or everyone
/// ready and the start announcement under way.
pub enum OverallState {
    AcceptingUsers(Vec<(i32, AcceptingUserState)>, FinalCall),
    AllReady(Vec<i32>, bool),
}

/// The mathematical content of `OverallState`.
#[verifier::ext_equal]
pub ghost enum OverallModel {
    AcceptingUsers(Seq<(i32, AcceptingUserState)>, FinalCall),
    AllReady(Seq<i32>, bool),
}

/// The mathematical content of the accepting phase.
#[verifier::ext_equal]
pub ghost struct JustCreatedModel {
    pub state: OverallModel,
    pub pause: bool,
    pub stop: bool,
    pub chat: ChatModel,
}

/// The accepting phase: per-client sub-state, the transition latch, the two
/// control signals read by the connection factory, and the chat ledger.
pub struct JustCreatedGame {
    state: OverallState,
    pause_accepting_users: bool,
    stop_accepting_users: bool,
    chat: Chat,
}

impl View for JustCreatedGame {
    type V = JustCreatedModel;

    closed spec fn view(&self) -> JustCreatedModel {
        JustCreatedModel {
            state: match &self.state {
                OverallState::AcceptingUsers(m, fc) => OverallModel::AcceptingUsers(m@, *fc),
                OverallState::AllReady(ids, sent) => OverallModel::AllReady(ids@, *sent),
            },
            pause: self.pause_accepting_users,
            stop: self.stop_accepting_users,
            chat: self.chat@,
        }
    }
}

/// The ids of a sub-state map, in map order.
pub open spec fn map_ids(m: Seq<(i32, AcceptingUserState)>) -> Seq<i32> {
    m.map_values(|p: (i32, AcceptingUserState)| p.0)
}

/// The phase's invariant: each client appears once, and every chat text
/// fits a string field.
pub open spec fn jc_wf(m: JustCreatedModel) -> bool {
    &&& match m.state {
        OverallModel::AcceptingUsers(sub, _) => map_ids(sub).no_duplicates(),
        OverallModel::AllReady(ids, _) => ids.no_duplicates(),
    }
    &&& texts_fit(m.chat.log)
    &&& texts_fit(m.chat.pending)
}

/// Every accepted client's one-shot "connected" reaction counts as fired:
/// what one time-advance leaves of the sub-state map.
pub open spec fn mark_reacted(m: Seq<(i32, AcceptingUserState)>) -> Seq<
    (i32, AcceptingUserState),
> {
    m.map_values(
        |p: (i32, AcceptingUserState)|
            (
                p.0,
                match p.1 {
                    AcceptingUserState::ConnectionAccepted(
                        _,
                        rdy,
                    ) => AcceptingUserState::ConnectionAccepted(reaction_with(true), rdy),
                    other => other,
                },
            ),
    )
}

/// Unanimity: every client in the map is accepted and ready.
pub open spec fn all_ready(m: Seq<(i32, AcceptingUserState)>) -> bool {
    forall|i: int|
        0 <= i < m.len() ==> (#[trigger] m[i]).1 matches AcceptingUserState::ConnectionAccepted(
            _,
            true,
        )
}

/// One time-advance of the accepting phase.  A unanimous, non-empty reading
/// walks the latch one step (arming it pauses new connections; a confirmed
/// latch stops them and fixes the roster); any other reading resets the
/// latch and resumes accepting.  Once the start announcement has gone out,
/// the countdown phase is returned, built from the fixed roster and the
/// carried chat.
pub open spec fn accepting_elapsed_f(pre: JustCreatedModel) -> (
    JustCreatedModel,
    Option<PhaseModel>,
) {
    match pre.state {
        OverallModel::AcceptingUsers(m, fc) => {
            let m2 = mark_reacted(m);
            if m.len() > 0 && all_ready(m) {
                match fc {
                    FinalCall::NotYet => (
                        (JustCreatedModel {
                            state: OverallModel::AcceptingUsers(m2, FinalCall::AllReady),
                            pause: true,
                            stop: pre.stop,
                            chat: pre.chat,
                        }),
                        None,
                    ),
                    FinalCall::AllReady => (
                        (JustCreatedModel {
                            state: OverallModel::AcceptingUsers(m2, FinalCall::AllReady),
                            pause: pre.pause,
                            stop: pre.stop,
                            chat: pre.chat,
                        }),
                        None,
                    ),
                    FinalCall::Processed => (
                        (JustCreatedModel {
                            state: OverallModel::AllReady(map_ids(m), false),
                            pause: pre.pause,
                            stop: true,
                            chat: pre.chat,
                        }),
                        None,
                    ),
                }
            } else {
                (
                    (JustCreatedModel {
                        state: OverallModel::AcceptingUsers(m2, FinalCall::NotYet),
                        pause: false,
                        stop: pre.stop,
                        chat: pre.chat,
                    }),
                    None,
                )
            }
        },
        OverallModel::AllReady(ids, sent) => {
            if sent {
                (
                    (JustCreatedModel {
                        state: OverallModel::AllReady(Seq::empty(), true),
                        pause: pre.pause,
                        stop: pre.stop,
                        chat: (ChatModel { log: Seq::empty(), pending: Seq::empty() }),
                    }),
                    Some(
                        PhaseModel::Countdown(
                            (ReadyToStartModel {
                                state: CountdownState::SecondsLeft(COUNTDOWN_SECONDS, 0u64, true),
                                users: ids,
                                chat: pre.chat,
                            }),
                        ),
                    ),
                )
            } else {
                (pre, None)
            }
        },
    }
}

/// The ids the snapshot holds that the map does not, in snapshot order:
/// the newcomers one sync adds.
pub open spec fn newcomers(m_ids: Seq<i32>, snapshot: Seq<i32>) -> Seq<i32>
    decreases snapshot.len(),
{
    if snapshot.len() == 0 {
        Seq::empty()
    } else {
        let rest = newcomers(m_ids, snapshot.drop_last());
        if m_ids.contains(snapshot.last()) {
            rest
        } else {
            rest + seq![snapshot.last()]
        }
    }
}

/// Newcomers come from the snapshot and were not in the map; a duplicate-free
/// snapshot yields duplicate-free newcomers.
pub proof fn lemma_newcomers(m_ids: Seq<i32>, snapshot: Seq<i32>)
    ensures
        forall|x: i32|
            #[trigger] newcomers(m_ids, snapshot).contains(x) ==> snapshot.contains(x)
                && !m_ids.contains(x),
        snapshot.no_duplicates() ==> newcomers(m_ids, snapshot).no_duplicates(),
    decreases snapshot.len(),
{
    if snapshot.len() > 0 {
        let pre = snapshot.drop_last();
        lemma_newcomers(m_ids, pre);
        assert forall|x: i32| #[trigger]
            newcomers(m_ids, snapshot).contains(x) implies snapshot.contains(x) && !m_ids.contains(
            x,
        ) by {
            let ns = newcomers(m_ids, snapshot);
            let j = choose|j: int| 0 <= j < ns.len() && ns[j] == x;
            if m_ids.contains(snapshot.last()) || j < ns.len() - 1 {
                assert(newcomers(m_ids, pre).contains(x));
                assert(pre.contains(x));
                let t = choose|t: int| 0 <= t < pre.len() && pre[t] == x;
                assert(snapshot[t] == x);
            } else {
                assert(x == snapshot.last());
            }
        }
        if snapshot.no_duplicates() {
            assert(pre.no_duplicates());
            if !m_ids.contains(snapshot.last()) {
                if newcomers(m_ids, pre).contains(snapshot.last()) {
                    assert(pre.contains(snapshot.last()));
                    let t = choose|t: int| 0 <= t < pre.len() && pre[t] == snapshot.last();
                    assert(snapshot[t] == snapshot[snapshot.len() - 1]);
                }
                assert(newcomers(m_ids, snapshot) =~= newcomers(m_ids, pre).push(snapshot.last()));
            }
        }
    }
}

/// The map after syncing additions: every snapshot id missing from the map
/// joins at the end as Connected, in snapshot order.
pub open spec fn sync_add(m: Seq<(i32, AcceptingUserState)>, snapshot: Seq<i32>) -> Seq<
    (i32, AcceptingUserState),
> {
    m + newcomers(map_ids(m), snapshot).map_values(
        |u: i32| (u, AcceptingUserState::Connected),
    )
}

/// The map entries whose id the snapshot still holds, in map order.
pub open spec fn retained(m: Seq<(i32, AcceptingUserState)>, snapshot: Seq<i32>) -> Seq<
    (i32, AcceptingUserState),
>
    decreases m.len(),
{
    if m.len() == 0 {
        m
    } else {
        let rest = retained(m.drop_last(), snapshot);
        if snapshot.contains(m.last().0) {
            rest + seq![m.last()]
        } else {
            rest
        }
    }
}

/// The ids the snapshot no longer holds, in map order: the disconnected,
/// removed outright so unanimity is judged only over the still-connected.
pub open spec fn dropped_ids(m: Seq<(i32, AcceptingUserState)>, snapshot: Seq<i32>) -> Seq<i32>
    decreases m.len(),
{
    if m.len() == 0 {
        Seq::empty()
    } else {
        let rest = dropped_ids(m.drop_last(), snapshot);
        if snapshot.contains(m.last().0) {
            rest
        } else {
            rest + seq![m.last().0]
        }
    }
}

/// Retention keeps only entries of the map, in order, so duplicate-free ids
/// stay duplicate-free.
pub proof fn lemma_retained(m: Seq<(i32, AcceptingUserState)>, snapshot: Seq<i32>)
    ensures
        forall|x: i32|
            #[trigger] map_ids(retained(m, snapshot)).contains(x) ==> map_ids(m).contains(x),
        map_ids(m).no_duplicates() ==> map_ids(retained(m, snapshot)).no_duplicates(),
    decreases m.len(),
{
    if m.len() > 0 {
        let pre = m.drop_last();
        lemma_retained(pre, snapshot);
        assert forall|i: int| 0 <= i < pre.len() implies map_ids(pre)[i] == map_ids(m)[i] by {
            assert(pre[i] == m[i]);
        }
        let rp = retained(pre, snapshot);
        if snapshot.contains(m.last().0) {
            assert(retained(m, snapshot) == rp + seq![m.last()]);
            assert(map_ids(retained(m, snapshot)) =~= map_ids(rp).push(m.last().0)) by {
                assert forall|i: int|
                    0 <= i < rp.len() implies map_ids(rp + seq![m.last()])[i] == map_ids(
                    rp,
                )[i] by {
                    assert((rp + seq![m.last()])[i] == rp[i]);
                }
            }
        } else {
            assert(retained(m, snapshot) == rp);
        }
        assert forall|x: i32| #[trigger]
            map_ids(retained(m, snapshot)).contains(x) implies map_ids(m).contains(x) by {
            let ri = map_ids(retained(m, snapshot));
            let j = choose|j: int| 0 <= j < ri.len() && ri[j] == x;
            if j < map_ids(rp).len() {
                assert(map_ids(rp)[j] == x);
                assert(map_ids(rp).contains(x));
                assert(map_ids(pre).contains(x));
                let t = choose|t: int| 0 <= t < map_ids(pre).len() && map_ids(pre)[t] == x;
                assert(map_ids(m)[t] == x);
            } else {
                assert(x == m.last().0);
                assert(map_ids(m)[m.len() - 1] == x);
            }
        }
        if map_ids(m).no_duplicates() {
            assert(map_ids(pre).no_duplicates()) by {
                assert forall|i: int, j: int|
                    0 <= i < j < map_ids(pre).len() implies map_ids(pre)[i] != map_ids(
                    pre,
                )[j] by {
                    assert(map_ids(m)[i] != map_ids(m)[j]);
                }
            }
            if snapshot.contains(m.last().0) {
                if map_ids(rp).contains(m.last().0) {
                    assert(map_ids(pre).contains(m.last().0));
                    let t = choose|t: int|
                        0 <= t < map_ids(pre).len() && map_ids(pre)[t] == m.last().0;
                    assert(map_ids(m)[t] == map_ids(m)[m.len() - 1]);
                    assert(false);
                }
            }
        }
    }
}

/// The ready flag a `ReadyToStartChanged` payload carries: its last byte,
/// read as a boolean, or unready when the payload is empty.
pub open spec fn rtsc_flag(d: Seq<u8>) -> bool {
    if d.len() > 0 {
        d.last() != 0
    } else {
        false
    }
}

/// An accepted client's drained inbox folded into its ready flag and the
/// chat: each `ReadyToStartChanged` overwrites the flag and marks a change;
/// each well-formed `ChatUpdate` appends its texts to the pending chat,
/// credited to the client; anything else is skipped, a malformed chat
/// payload dropping that one message only.
pub open spec fn fold_ready(
    rdy: bool,
    changed: bool,
    pending: Seq<(i32, Seq<char>)>,
    id: i32,
    msgs: Seq<MessageView>,
) -> (bool, bool, Seq<(i32, Seq<char>)>)
    decreases msgs.len(),
{
    if msgs.len() == 0 {
        (rdy, changed, pending)
    } else {
        let m0 = msgs[0];
        let step = if m0.message_type == MessageType::ReadyToStartChanged {
            (rtsc_flag(m0.data), true, pending)
        } else if m0.message_type == MessageType::ChatUpdate {
            match spec_parse_texts(m0.data) {
                Some(ts) => (rdy, changed, pending + credited(id, ts)),
                None => (rdy, changed, pending),
            }
        } else {
            (rdy, changed, pending)
        };
        fold_ready(step.0, step.1, step.2, id, msgs.drop_first())
    }
}

/// Whether a drained inbox holds a connection request.
pub open spec fn has_connection_requested(msgs: Seq<MessageView>) -> bool {
    exists|j: int|
        0 <= j < msgs.len() && (#[trigger] msgs[j]).message_type
            == MessageType::ConnectionRequested
}

/// One pass of inbound processing over the synced map, client by client in
/// map order: a Connected client's drained inbox may hold its connection
/// request; an AboutToAccept client waits untouched (its queue too); an
/// accepted client's inbox folds into its ready flag and the chat, and a
/// changed flag joins the roster-change batch.
pub open spec fn process_pass(
    m: Seq<(i32, AcceptingUserState)>,
    entries: Seq<UserEntryModel>,
    pending: Seq<(i32, Seq<char>)>,
) -> (
    Seq<(i32, AcceptingUserState)>,
    Seq<UserEntryModel>,
    Seq<(i32, Seq<char>)>,
    Seq<(i32, UserUpdateStatus)>,
)
    decreases m.len(),
{
    if m.len() == 0 {
        (m, entries, pending, Seq::empty())
    } else {
        let prev = process_pass(m.drop_last(), entries, pending);
        let p = m.last();
        match p.1 {
            AcceptingUserState::Connected => {
                let st2 = if has_connection_requested(inbox_of(prev.1, p.0)) {
                    AcceptingUserState::AboutToAccept
                } else {
                    AcceptingUserState::Connected
                };
                (prev.0 + seq![(p.0, st2)], spec_drain_one(prev.1, p.0), prev.2, prev.3)
            },
            AcceptingUserState::AboutToAccept => (prev.0 + seq![p], prev.1, prev.2, prev.3),
            AcceptingUserState::ConnectionAccepted(re, rdy) => {
                let folded = fold_ready(rdy, false, prev.2, p.0, inbox_of(prev.1, p.0));
                let st2 = AcceptingUserState::ConnectionAccepted(re, folded.0);
                let upd = if folded.1 {
                    prev.3 + seq![
                        (
                            p.0,
                            if folded.0 {
                                UserUpdateStatus::Ready
                            } else {
                                UserUpdateStatus::NotReady
                            },
                        ),
                    ]
                } else {
                    prev.3
                };
                (prev.0 + seq![(p.0, st2)], spec_drain_one(prev.1, p.0), folded.2, upd)
            },
        }
    }
}

/// Processing changes only each entry's sub-state, never its id.
pub proof fn lemma_process_pass_ids(
    m: Seq<(i32, AcceptingUserState)>,
    entries: Seq<UserEntryModel>,
    pending: Seq<(i32, Seq<char>)>,
)
    ensures
        map_ids(process_pass(m, entries, pending).0) == map_ids(m),
    decreases m.len(),
{
    if m.len() == 0 {
        assert(map_ids(process_pass(m, entries, pending).0) =~= map_ids(m));
    } else {
        lemma_process_pass_ids(m.drop_last(), entries, pending);
        let r = process_pass(m, entries, pending).0;
        let rp = process_pass(m.drop_last(), entries, pending).0;
        assert(map_ids(rp).len() == rp.len());
        assert(map_ids(m.drop_last()).len() == m.drop_last().len());
        assert(rp.len() == m.len() - 1);
        assert(r.len() == m.len());
        assert forall|i: int| 0 <= i < m.len() implies map_ids(r)[i] == map_ids(m)[i] by {
            if i < m.len() - 1 {
                assert(r[i] == rp[i]);
                assert(map_ids(rp)[i] == map_ids(m.drop_last())[i]);
                assert(m.drop_last()[i] == m[i]);
            } else {
                assert(r[i].0 == m.last().0);
            }
        }
        assert(map_ids(process_pass(m, entries, pending).0) =~= map_ids(m));
    }
}

/// Promotion: every client whose request arrived becomes accepted, unready,
/// with a fresh "connected" reaction.
pub open spec fn promote(m: Seq<(i32, AcceptingUserState)>) -> Seq<(i32, AcceptingUserState)> {
    m.map_values(
        |p: (i32, AcceptingUserState)|
            (
                p.0,
                match p.1 {
                    AcceptingUserState::AboutToAccept => AcceptingUserState::ConnectionAccepted(
                        reaction_with(false),
                        false,
                    ),
                    other => other,
                },
            ),
    )
}

/// The ids promotion touches, in map order.
pub open spec fn promoted_ids(m: Seq<(i32, AcceptingUserState)>) -> Seq<i32>
    decreases m.len(),
{
    if m.len() == 0 {
        Seq::empty()
    } else {
        let rest = promoted_ids(m.drop_last());
        if m.last().1 is AboutToAccept {
            rest + seq![m.last().0]
        } else {
            rest
        }
    }
}

/// The accepted clients and their ready flags, in map order: the roster a
/// newly accepted client is told about.
pub open spec fn spec_collect_user_state(m: Seq<(i32, AcceptingUserState)>) -> Seq<(i32, bool)>
    decreases m.len(),
{
    if m.len() == 0 {
        Seq::empty()
    } else {
        let rest = spec_collect_user_state(m.drop_last());
        match m.last().1 {
            AcceptingUserState::ConnectionAccepted(_, rdy) => rest + seq![(m.last().0, rdy)],
            _ => rest,
        }
    }
}

/// The accepted clients' ids, in map order: who broadcasts reach.
pub open spec fn accepted_ids(m: Seq<(i32, AcceptingUserState)>) -> Seq<i32>
    decreases m.len(),
{
    if m.len() == 0 {
        Seq::empty()
    } else {
        let rest = accepted_ids(m.drop_last());
        if m.last().1 is ConnectionAccepted {
            rest + seq![m.last().0]
        } else {
            rest
        }
    }
}

/// The byte a ready flag takes on the wire.
pub open spec fn bool_byte(b: bool) -> u8 {
    if b {
        1
    } else {
        0
    }
}

/// The roster pairs of a `ConnectionAccepted` payload, in roster order:
/// each client id, then its ready byte.
pub open spec fn roster_pairs_bytes(roster: Seq<(i32, bool)>) -> Seq<u8>
    decreases roster.len(),
{
    if roster.len() == 0 {
        Seq::empty()
    } else {
        roster_pairs_bytes(roster.drop_last()) + i32_le(roster.last().0) + seq![
            bool_byte(roster.last().1),
        ]
    }
}

/// A whole `ConnectionAccepted` payload: the roster pairs, their count, and
/// the accepted client's own id on top, popping first.
pub open spec fn accepted_payload(roster: Seq<(i32, bool)>, selfid: i32) -> Seq<u8> {
    roster_pairs_bytes(roster) + seq![((roster.len() % 256) as u8)] + i32_le(selfid)
}

/// The acceptance message a promoted client receives.
pub open spec fn accepted_view(roster: Seq<(i32, bool)>, selfid: i32) -> MessageView {
    MessageView {
        message_type: MessageType::ConnectionAccepted,
        data: accepted_payload(roster, selfid),
    }
}

/// Sending each promoted client its own acceptance message, in order.
pub open spec fn spec_send_accepted_each(
    entries: Seq<UserEntryModel>,
    targets: Seq<i32>,
    roster: Seq<(i32, bool)>,
) -> Seq<UserEntryModel>
    decreases targets.len(),
{
    if targets.len() == 0 {
        entries
    } else {
        spec_send_to(
            spec_send_accepted_each(entries, targets.drop_last(), roster),
            targets.last(),
            accepted_view(roster, targets.last()),
        )
    }
}

/// The status pairs of a `UserStatusUpdate` payload, in batch order: each
/// client id, then its status byte.
pub open spec fn status_pairs_bytes(updates: Seq<(i32, UserUpdateStatus)>) -> Seq<u8>
    decreases updates.len(),
{
    if updates.len() == 0 {
        Seq::empty()
    } else {
        status_pairs_bytes(updates.drop_last()) + i32_le(updates.last().0) + seq![
            status_value(updates.last().1),
        ]
    }
}

/// The one `UserStatusUpdate` that batches a round's roster changes.
pub open spec fn status_update_view(updates: Seq<(i32, UserUpdateStatus)>) -> MessageView {
    MessageView {
        message_type: MessageType::UserStatusUpdate,
        data: status_pairs_bytes(updates) + seq![((updates.len() % 256) as u8)],
    }
}

/// A `ChatUpdate` carrying the given entries.
pub open spec fn chat_view(entries: Seq<(i32, Seq<char>)>) -> MessageView {
    MessageView { message_type: MessageType::ChatUpdate, data: chat_update_bytes(entries) }
}

/// The empty-payload start announcement of the accepting phase.
pub open spec fn ready_to_start_view() -> MessageView {
    MessageView { message_type: MessageType::ReadyToStart, data: Seq::empty() }
}

/// One io-exchange of the accepting phase, start to finish: sync the map
/// against the snapshot, process every client's inbound traffic, promote
/// requesters and greet them (roster reply, one-time chat history), then
/// broadcast the batched roster changes and the freshly committed chat to
/// the accepted clients, and confirm an armed transition latch.
pub open spec fn accepting_io_f(pre: JustCreatedModel, entries: Seq<UserEntryModel>) -> (
    JustCreatedModel,
    Seq<UserEntryModel>,
) {
    match pre.state {
        OverallModel::AcceptingUsers(m, fc) => {
            let snapshot = ids_of(entries);
            let m1 = sync_add(m, snapshot);
            let m2 = retained(m1, snapshot);
            let disc = dropped_ids(m1, snapshot);
            let processed = process_pass(m2, entries, pre.chat.pending);
            let m3 = processed.0;
            let e3 = processed.1;
            let pending3 = processed.2;
            let m4 = promote(m3);
            let newu = promoted_ids(m3);
            let roster = spec_collect_user_state(m4);
            let e4 = if newu.len() > 0 {
                spec_send_accepted_each(e3, newu, roster)
            } else {
                e3
            };
            let e5 = if newu.len() > 0 && pre.chat.log.len() > 0 {
                spec_send_to_each(e4, newu, chat_view(pre.chat.log))
            } else {
                e4
            };
            let updates = disc.map_values(|u: i32| (u, UserUpdateStatus::Disconnected))
                + processed.3 + newu.map_values(|u: i32| (u, UserUpdateStatus::NotReady));
            let e6 = if updates.len() > 0 {
                spec_send_to_each(e5, accepted_ids(m4), status_update_view(updates))
            } else {
                e5
            };
            let e7 = if pending3.len() > 0 {
                spec_send_to_each(e6, accepted_ids(m4), chat_view(pending3))
            } else {
                e6
            };
            let chat2 = if pending3.len() > 0 {
                ChatModel { log: pre.chat.log + pending3, pending: Seq::empty() }
            } else {
                ChatModel { log: pre.chat.log, pending: pending3 }
            };
            let fc2 = if fc is AllReady {
                FinalCall::Processed
            } else {
                fc
            };
            (
                (JustCreatedModel {
                    state: OverallModel::AcceptingUsers(m4, fc2),
                    pause: pre.pause,
                    stop: pre.stop,
                    chat: chat2,
                }),
                e7,
            )
        },
        OverallModel::AllReady(ids, sent) => {
            if !sent {
                (
                    (JustCreatedModel {
                        state: OverallModel::AllReady(ids, true),
                        pause: pre.pause,
                        stop: pre.stop,
                        chat: pre.chat,
                    }),
                    spec_send_to_each(entries, ids, ready_to_start_view()),
                )
            } else {
                (pre, entries)
            }
        },
    }
}

impl JustCreatedGame {
    /// A fresh accepting phase: no clients yet, the latch unarmed, both
    /// control signals off, an empty chat.
    pub fn new() -> (r: JustCreatedGame)
        ensures
            jc_wf(r@),
            r@.state == OverallModel::AcceptingUsers(
                Seq::<(i32, AcceptingUserState)>::empty(),
                FinalCall::NotYet,
            ),
            !r@.pause,
            !r@.stop,
            r@.chat.log.len() == 0,
            r@.chat.pending.len() == 0,
    {
        let r = JustCreatedGame {
            state: OverallState::AcceptingUsers(Vec::new(), FinalCall::NotYet),
            pause_accepting_users: false,
            stop_accepting_users: false,
            chat: Chat::new(),
        };
        proof {
            match r@.state {
                OverallModel::AcceptingUsers(m, _) => {
                    assert(m =~= Seq::<(i32, AcceptingUserState)>::empty());
                    assert(map_ids(m) =~= Seq::<i32>::empty());
                },
                _ => {},
            }
        }
        r
    }

    /// Whether the accepting phase has paused taking new connections: set
    /// while the transition latch is armed, cleared by any non-unanimous
    /// reading.
    pub fn pause_accepting(&self) -> (r: bool)
        ensures
            r == self@.pause,
    {
        self.pause_accepting_users
    }

    /// Whether the accepting phase has stopped taking new connections for
    /// good: set when the roster is fixed for the countdown.
    pub fn stop_accepting(&self) -> (r: bool)
        ensures
            r == self@.stop,
    {
        self.stop_accepting_users
    }
}

/// Whether the map holds an entry for the given id.
fn map_contains(m: &Vec<(i32, AcceptingUserState)>, id: i32) -> (r: bool)
    ensures
        r == map_ids(m@).contains(id),
{
    let n = m.len();
    let mut i: usize = 0;
    while i < n
        invariant
            n == m@.len(),
            i <= n,
            forall|j: int| 0 <= j < i ==> (#[trigger] m@[j]).0 != id,
        decreases n - i,
    {
        if m[i].0 == id {
            proof {
                assert(map_ids(m@)[i as int] == id);
            }
            return true;
        }
        i = i + 1;
    }
    proof {
        if map_ids(m@).contains(id) {
            let j = choose|j: int| 0 <= j < map_ids(m@).len() && map_ids(m@)[j] == id;
            assert(m@[j].0 == id);
        }
    }
    false
}

/// Whether the id vector holds the given id.
fn vec_contains_id(v: &Vec<i32>, id: i32) -> (r: bool)
    ensures
        r == v@.contains(id),
{
    let n = v.len();
    let mut i: usize = 0;
    while i < n
        invariant
            n == v@.len(),
            i <= n,
            forall|j: int| 0 <= j < i ==> v@[j] != id,
        decreases n - i,
    {
        if v[i] == id {
            return true;
        }
        i = i + 1;
    }
    false
}

/// Promotes every client whose connection request arrived: AboutToAccept
/// becomes accepted, unready, with a fresh one-shot reaction; the promoted
/// ids come back in map order.
pub fn move_about_to_start_users_to_connection_accepted(
    users_map: &mut Vec<(i32, AcceptingUserState)>,
) -> (r: Vec<i32>)
    ensures
        final(users_map)@ == promote(old(users_map)@),
        r@ == promoted_ids(old(users_map)@),
{
    let ghost m0 = old(users_map)@;
    let mut r: Vec<i32> = Vec::new();
    let n = users_map.len();
    let mut i: usize = 0;
    while i < n
        invariant
            n == users_map@.len(),
            m0.len() == n,
            i <= n,
            users_map@ =~= promote(m0.subrange(0, i as int)) + m0.skip(i as int),
            r@ == promoted_ids(m0.subrange(0, i as int)),
        decreases n - i,
    {
        let p = users_map[i];
        proof {
            assert(users_map@[i as int] == m0[i as int]);
            assert(m0.subrange(0, i + 1).drop_last() =~= m0.subrange(0, i as int));
        }
        match p.1 {
            AcceptingUserState::AboutToAccept => {
                users_map.set(
                    i,
                    (p.0, AcceptingUserState::ConnectionAccepted(Reaction::new(), false)),
                );
                r.push(p.0);
            },
            _ => {},
        }
        proof {
            assert(users_map@ =~= promote(m0.subrange(0, i + 1)) + m0.skip(i + 1));
            assert(r@ =~= promoted_ids(m0.subrange(0, i + 1)));
        }
        i = i + 1;
    }
    proof {
        assert(m0.subrange(0, n as int) =~= m0);
    }
    r
}

/// The accepted clients and their ready flags, in map order.
pub fn collect_user_state(users_map: &Vec<(i32, AcceptingUserState)>) -> (r: Vec<(i32, bool)>)
    ensures
        r@ == spec_collect_user_state(users_map@),
{
    let mut r: Vec<(i32, bool)> = Vec::new();
    let n = users_map.len();
    let mut i: usize = 0;
    while i < n
        invariant
            n == users_map@.len(),
            i <= n,
            r@ == spec_collect_user_state(users_map@.subrange(0, i as int)),
        decreases n - i,
    {
        let p = users_map[i];
        proof {
            assert(users_map@.subrange(0, i + 1).drop_last() =~= users_map@.subrange(0, i as int));
            assert(users_map@.subrange(0, i + 1).last() == users_map@[i as int]);
        }
        match p.1 {
            AcceptingUserState::ConnectionAccepted(_, rdy) => {
                r.push((p.0, rdy));
                proof {
                    assert(r@ =~= spec_collect_user_state(users_map@.subrange(0, i + 1)));
                }
            },
            _ => {},
        }
        i = i + 1;
    }
    proof {
        assert(users_map@.subrange(0, n as int) =~= users_map@);
    }
    r
}

/// Sends each newly promoted client one `ConnectionAccepted` listing every
/// accepted client with its ready flag, the client's own id on top.
pub fn send_connection_accepted(
    users_need_to_send_connection_accepted: &Vec<i32>,
    users_state: Vec<(i32, bool)>,
    users: &mut Users,
)
    requires
        old(users).wf(),
    ensures
        final(users).wf(),
        final(users)@ == spec_send_accepted_each(
            old(users)@,
            users_need_to_send_connection_accepted@,
            users_state@,
        ),
{
    let ghost e0 = old(users)@;
    let ghost targets = users_need_to_send_connection_accepted@;
    let n = users_need_to_send_connection_accepted.len();
    let mut i: usize = 0;
    while i < n
        invariant
            n == targets.len(),
            targets == users_need_to_send_connection_accepted@,
            i <= n,
            users.wf(),
            users@ =~= spec_send_accepted_each(e0, targets.subrange(0, i as int), users_state@),
        decreases n - i,
    {
        let mut accepted_message = Message::new(MessageType::ConnectionAccepted);
        let k = users_state.len();
        let mut j: usize = 0;
        while j < k
            invariant
                k == users_state@.len(),
                j <= k,
                accepted_message@.message_type == MessageType::ConnectionAccepted,
                accepted_message@.data =~= roster_pairs_bytes(users_state@.subrange(0, j as int)),
            decreases k - j,
        {
            let pair = users_state[j];
            accepted_message.push_i32(pair.0);
            accepted_message.push_u8(if pair.1 {
                1
            } else {
                0
            });
            proof {
                assert(users_state@.subrange(0, j + 1).drop_last() =~= users_state@.subrange(
                    0,
                    j as int,
                ));
                assert(users_state@.subrange(0, j + 1).last() == users_state@[j as int]);
                assert(accepted_message@.data =~= roster_pairs_bytes(
                    users_state@.subrange(0, j + 1),
                ));
            }
            j = j + 1;
        }
        proof {
            assert(users_state@.subrange(0, k as int) =~= users_state@);
        }
        accepted_message.push_u8((k % 256) as u8);
        let target = users_need_to_send_connection_accepted[i];
        accepted_message.push_i32(target);
        proof {
            assert(accepted_message@.data =~= accepted_payload(users_state@, target));
            assert(targets.subrange(0, i + 1).drop_last() =~= targets.subrange(0, i as int));
        }
        users.send_to(target, accepted_message);
        proof {
            assert(users@ =~= spec_send_accepted_each(
                e0,
                targets.subrange(0, i + 1),
                users_state@,
            ));
        }
        i = i + 1;
    }
    proof {
        assert(targets.subrange(0, n as int) =~= targets);
    }
}

/// Sends each newly promoted client the one-time full chat history.
pub fn send_chat_state(
    users_need_to_send_connection_accepted: &Vec<i32>,
    users: &mut Users,
    chat: &Chat,
)
    requires
        old(users).wf(),
        chat.wf(),
    ensures
        final(users).wf(),
        final(users)@ == spec_send_to_each(
            old(users)@,
            users_need_to_send_connection_accepted@,
            chat_view(chat@.log),
        ),
{
    let ghost e0 = old(users)@;
    let ghost targets = users_need_to_send_connection_accepted@;
    let n = users_need_to_send_connection_accepted.len();
    let mut i: usize = 0;
    while i < n
        invariant
            n == targets.len(),
            targets == users_need_to_send_connection_accepted@,
            i <= n,
            users.wf(),
            chat.wf(),
            users@ =~= spec_send_to_each(e0, targets.subrange(0, i as int), chat_view(chat@.log)),
        decreases n - i,
    {
        let chat_update_message = chat.whole_chat_state();
        proof {
            assert(targets.subrange(0, i + 1).drop_last() =~= targets.subrange(0, i as int));
        }
        let target = users_need_to_send_connection_accepted[i];
        users.send_to(target, chat_update_message);
        proof {
            assert(users@ =~= spec_send_to_each(
                e0,
                targets.subrange(0, i + 1),
                chat_view(chat@.log),
            ));
        }
        i = i + 1;
    }
    proof {
        assert(targets.subrange(0, n as int) =~= targets);
    }
}

/// Sends one message to every accepted client in the map, in map order.
pub fn message_to_accepted_users(
    current_users: &Vec<(i32, AcceptingUserState)>,
    users: &mut Users,
    message: Message,
)
    requires
        old(users).wf(),
    ensures
        final(users).wf(),
        final(users)@ == spec_send_to_each(old(users)@, accepted_ids(current_users@), message@),
{
    let ghost e0 = old(users)@;
    let ghost cu = current_users@;
    let n = current_users.len();
    let mut i: usize = 0;
    while i < n
        invariant
            n == cu.len(),
            cu == current_users@,
            i <= n,
            users.wf(),
            users@ =~= spec_send_to_each(e0, accepted_ids(cu.subrange(0, i as int)), message@),
        decreases n - i,
    {
        let p = current_users[i];
        proof {
            assert(cu.subrange(0, i + 1).drop_last() =~= cu.subrange(0, i as int));
            assert(cu.subrange(0, i + 1).last() == cu[i as int]);
        }
        match p.1 {
            AcceptingUserState::ConnectionAccepted(_, _) => {
                let ghost pre_ids = accepted_ids(cu.subrange(0, i as int));
                users.send_to(p.0, message.duplicate());
                proof {
                    assert(accepted_ids(cu.subrange(0, i + 1)) =~= pre_ids + seq![cu[i as int].0]);
                    assert((pre_ids + seq![cu[i as int].0]).drop_last() =~= pre_ids);
                    assert(users@ =~= spec_send_to_each(
                        e0,
                        accepted_ids(cu.subrange(0, i + 1)),
                        message@,
                    ));
                }
            },
            _ => {
                proof {
                    assert(accepted_ids(cu.subrange(0, i + 1)) =~= accepted_ids(
                        cu.subrange(0, i as int),
                    ));
                }
            },
        }
        i = i + 1;
    }
    proof {
        assert(cu.subrange(0, n as int) =~= cu);
    }
}

impl GameState for JustCreatedGame {
    /// Each client appears once and every chat text fits a string field.
    open spec fn inv(&self) -> bool {
        jc_wf(self@)
    }

    /// Time advance: fire each accepted client's one-shot reaction, judge
    /// unanimity, and walk the transition latch; once the start announcement
    /// is out, yield the countdown built from the fixed roster and the
    /// carried chat.
    fn elapsed(&mut self, elapsed_ms: u64) -> (r: Option<Phase>)
        ensures
            (final(self)@, crate::state::view_phase_opt(r)) == accepting_elapsed_f(old(self)@),
    {
        // take the state out to own its contents; every path below either
        // writes a successor back or leaves this already-done stand-in
        let mut st = OverallState::AllReady(Vec::new(), true);
        core::mem::swap(&mut self.state, &mut st);
        match st {
            OverallState::AcceptingUsers(mut map, fc) => {
                let ghost m0 = map@;
                let n = map.len();
                let mut i: usize = 0;
                while i < n
                    invariant
                        n == map@.len(),
                        m0.len() == n,
                        i <= n,
                        map@ =~= mark_reacted(m0.subrange(0, i as int)) + m0.skip(i as int),
                    decreases n - i,
                {
                    let p = map[i];
                    proof {
                        assert(map@[i as int] == m0[i as int]);
                        assert(m0.subrange(0, i + 1).drop_last() =~= m0.subrange(0, i as int));
                    }
                    match p.1 {
                        AcceptingUserState::ConnectionAccepted(re, rdy) => {
                            let mut re2 = re;
                            let _fired = re2.react_once();
                            map.set(i, (p.0, AcceptingUserState::ConnectionAccepted(re2, rdy)));
                        },
                        _ => {},
                    }
                    proof {
                        assert(map@ =~= mark_reacted(m0.subrange(0, i + 1)) + m0.skip(i + 1));
                    }
                    i = i + 1;
                }
                proof {
                    assert(m0.subrange(0, n as int) =~= m0);
                }
                let mut everyone_ready = true;
                let mut j: usize = 0;
                while j < n
                    invariant
                        n == map@.len(),
                        map@ == mark_reacted(m0),
                        m0.len() == n,
                        j <= n,
                        everyone_ready == all_ready(m0.subrange(0, j as int)),
                    decreases n - j,
                {
                    let p = map[j];
                    proof {
                        assert(map@[j as int] == mark_reacted(m0)[j as int]);
                    }
                    let this_ready = match p.1 {
                        AcceptingUserState::ConnectionAccepted(_, rdy) => rdy,
                        _ => false,
                    };
                    proof {
                        assert(this_ready == (m0[j as int].1
                            matches AcceptingUserState::ConnectionAccepted(_, true)));
                        let sub0 = m0.subrange(0, j as int);
                        let sub1 = m0.subrange(0, j + 1);
                        assert(all_ready(sub1) == (all_ready(sub0) && (m0[j as int].1
                            matches AcceptingUserState::ConnectionAccepted(_, true)))) by {
                            if all_ready(sub0) && (m0[j as int].1
                                matches AcceptingUserState::ConnectionAccepted(_, true)) {
                                assert forall|t: int| 0 <= t < sub1.len() implies (
                                #[trigger] sub1[t]).1
                                    matches AcceptingUserState::ConnectionAccepted(_, true) by {
                                    if t < j {
                                        assert(sub1[t] == sub0[t]);
                                        assert(sub0[t].1
                                            matches AcceptingUserState::ConnectionAccepted(
                                            _,
                                            true,
                                        ));
                                    } else {
                                        assert(sub1[t] == m0[j as int]);
                                    }
                                }
                            }
                            if all_ready(sub1) {
                                assert forall|t: int| 0 <= t < sub0.len() implies (
                                #[trigger] sub0[t]).1
                                    matches AcceptingUserState::ConnectionAccepted(_, true) by {
                                    assert(sub0[t] == sub1[t]);
                                    assert(sub1[t].1 matches AcceptingUserState::ConnectionAccepted(
                                        _,
                                        true,
                                    ));
                                }
                                assert(sub1[j as int] == m0[j as int]);
                                assert(sub1[j as int].1
                                    matches AcceptingUserState::ConnectionAccepted(_, true));
                            }
                        }
                    }
                    everyone_ready = everyone_ready && this_ready;
                    j = j + 1;
                }
                proof {
                    assert(m0.subrange(0, n as int) =~= m0);
                    assert(everyone_ready == all_ready(m0));
                    assert(map_ids(mark_reacted(m0)) =~= map_ids(m0));
                }
                if n > 0 && everyone_ready {
                    match fc {
                        FinalCall::NotYet => {
                            self.pause_accepting_users = true;
                            self.state = OverallState::AcceptingUsers(map, FinalCall::AllReady);
                        },
                        FinalCall::AllReady => {
                            self.state = OverallState::AcceptingUsers(map, FinalCall::AllReady);
                        },
                        FinalCall::Processed => {
                            self.stop_accepting_users = true;
                            let mut roster: Vec<i32> = Vec::new();
                            let mut t: usize = 0;
                            while t < n
                                invariant
                                    n == map@.len(),
                                    map@ == mark_reacted(m0),
                                    m0.len() == n,
                                    t <= n,
                                    roster@ =~= map_ids(m0).subrange(0, t as int),
                                decreases n - t,
                            {
                                let p = map[t];
                                proof {
                                    assert(map@[t as int] == mark_reacted(m0)[t as int]);
                                    assert(map_ids(m0)[t as int] == m0[t as int].0);
                                }
                                roster.push(p.0);
                                proof {
                                    assert(roster@ =~= map_ids(m0).subrange(0, t + 1));
                                }
                                t = t + 1;
                            }
                            proof {
                                assert(map_ids(m0).subrange(0, n as int) =~= map_ids(m0));
                            }
                            self.state = OverallState::AllReady(roster, false);
                        },
                    }
                } else {
                    self.pause_accepting_users = false;
                    self.state = OverallState::AcceptingUsers(map, FinalCall::NotYet);
                }
                proof {
                    assert(self@ =~~= accepting_elapsed_f(old(self)@).0);
                    assert(accepting_elapsed_f(old(self)@).1 is None);
                }
                None
            },
            OverallState::AllReady(ids, sent) => {
                if sent {
                    let ghost old_ids = ids@;
                    let mut chat_taken = Chat::new();
                    core::mem::swap(&mut self.chat, &mut chat_taken);
                    let next = ReadyToStartGame::new(ids, chat_taken);
                    let r = Some(Phase::Countdown(next));
                    proof {
                        match self@.state {
                            OverallModel::AllReady(e, _) => {
                                assert(e =~= Seq::<i32>::empty());
                            },
                            _ => {},
                        }
                        assert(self@.chat =~~= (ChatModel {
                            log: Seq::<(i32, Seq<char>)>::empty(),
                            pending: Seq::<(i32, Seq<char>)>::empty(),
                        }));
                        assert(self@ =~~= accepting_elapsed_f(old(self)@).0);
                        assert(next@ =~~= (ReadyToStartModel {
                            state: CountdownState::SecondsLeft(COUNTDOWN_SECONDS, 0u64, true),
                            users: old_ids,
                            chat: old(self)@.chat,
                        }));
                        match accepting_elapsed_f(old(self)@).1 {
                            Some(pm) => {
                                assert(pm =~~= PhaseModel::Countdown(next@));
                            },
                            None => {
                                assert(false);
                            },
                        }
                    }
                    r
                } else {
                    self.state = OverallState::AllReady(ids, sent);
                    proof {
                        assert(self@ =~~= accepting_elapsed_f(old(self)@).0);
                    }
                    None
                }
            },
        }
    }

    /// Io-exchange: sync the sub-state against the connected snapshot,
    /// process each client's drained inbound queue, promote and greet the
    /// newly accepted, broadcast the batched roster changes and freshly
    /// committed chat, and confirm an armed transition latch.
    #[verifier::rlimit(100)]
    fn io_updates(&mut self, users: &mut Users)
        ensures
            (final(self)@, final(users)@) == accepting_io_f(old(self)@, old(users)@),
    {
        let ghost pre = old(self)@;
        let ghost e0 = old(users)@;
        // take the state out to own its contents; every path below either
        // writes a successor back or leaves this already-done stand-in
        let mut st = OverallState::AllReady(Vec::new(), true);
        core::mem::swap(&mut self.state, &mut st);
        match st {
            OverallState::AcceptingUsers(mut map, fc) => {
                let ghost m0 = map@;
                let snapshot = users.ids_vec();
                let ghost snap = snapshot@;
                proof {
                    assert(snap.no_duplicates()) by {
                        assert forall|a: int, b: int|
                            0 <= a < snap.len() && 0 <= b < snap.len() && a != b implies snap[a]
                            != snap[b] by {
                            assert(snap[a] == e0[a].id && snap[b] == e0[b].id);
                        }
                    }
                }
                let mut updated_users: Vec<(i32, UserUpdateStatus)> = Vec::new();

                // Newcomers join at the end as Connected, in snapshot order.
                let sn = snapshot.len();
                let mut i: usize = 0;
                while i < sn
                    invariant
                        sn == snap.len(),
                        snap == snapshot@,
                        snap.no_duplicates(),
                        i <= sn,
                        map@ =~= m0 + newcomers(map_ids(m0), snap.subrange(0, i as int)).map_values(
                            |u: i32| (u, AcceptingUserState::Connected),
                        ),
                    decreases sn - i,
                {
                    let u = snapshot[i];
                    let ghost added = newcomers(map_ids(m0), snap.subrange(0, i as int));
                    let ghost mpre = map@;
                    proof {
                        assert(snap.subrange(0, i + 1).drop_last() =~= snap.subrange(0, i as int));
                        assert(snap.subrange(0, i + 1).last() == snap[i as int]);
                        lemma_newcomers(map_ids(m0), snap.subrange(0, i as int));
                        assert(map_ids(mpre) =~= map_ids(m0) + added);
                    }
                    if !map_contains(&map, u) {
                        map.push((u, AcceptingUserState::Connected));
                        proof {
                            assert(!map_ids(m0).contains(u)) by {
                                if map_ids(m0).contains(u) {
                                    let t = choose|t: int|
                                        0 <= t < map_ids(m0).len() && map_ids(m0)[t] == u;
                                    assert((map_ids(m0) + added)[t] == u);
                                    assert(map_ids(mpre)[t] == u);
                                    assert(map_ids(mpre).contains(u));
                                }
                            }
                            assert(newcomers(map_ids(m0), snap.subrange(0, i + 1)) =~= added + seq![
                                u,
                            ]);
                            assert(map@ =~= m0 + newcomers(
                                map_ids(m0),
                                snap.subrange(0, i + 1),
                            ).map_values(|x: i32| (x, AcceptingUserState::Connected)));
                        }
                    } else {
                        proof {
                            if !map_ids(m0).contains(u) {
                                let cm = map_ids(mpre);
                                let j = choose|j: int| 0 <= j < cm.len() && cm[j] == u;
                                assert((map_ids(m0) + added)[j] == u);
                                if j < map_ids(m0).len() {
                                    assert(map_ids(m0)[j] == u);
                                    assert(false);
                                } else {
                                    assert(added[j - map_ids(m0).len()] == u);
                                    assert(added.contains(u));
                                    assert(snap.subrange(0, i as int).contains(u));
                                    let t = choose|t: int|
                                        0 <= t < i && snap.subrange(0, i as int)[t] == u;
                                    assert(snap[t] == snap[i as int]);
                                    assert(false);
                                }
                            }
                            assert(newcomers(map_ids(m0), snap.subrange(0, i + 1)) =~= added);
                        }
                    }
                    i = i + 1;
                }
                proof {
                    assert(snap.subrange(0, sn as int) =~= snap);
                }
                let ghost m1 = sync_add(m0, snap);
                proof {
                    assert(map@ =~= m1);
                }

                // Ids gone from the snapshot leave outright, recorded as
                // disconnected.
                let mut map2: Vec<(i32, AcceptingUserState)> = Vec::new();
                let mn = map.len();
                let mut k: usize = 0;
                while k < mn
                    invariant
                        mn == m1.len(),
                        map@ == m1,
                        snap == snapshot@,
                        k <= mn,
                        map2@ =~= retained(m1.subrange(0, k as int), snap),
                        updated_users@ =~= dropped_ids(m1.subrange(0, k as int), snap).map_values(
                            |u: i32| (u, UserUpdateStatus::Disconnected),
                        ),
                    decreases mn - k,
                {
                    let p = map[k];
                    proof {
                        assert(m1.subrange(0, k + 1).drop_last() =~= m1.subrange(0, k as int));
                        assert(m1.subrange(0, k + 1).last() == m1[k as int]);
                    }
                    if vec_contains_id(&snapshot, p.0) {
                        map2.push(p);
                        proof {
                            assert(map2@ =~= retained(m1.subrange(0, k + 1), snap));
                            assert(updated_users@ =~= dropped_ids(
                                m1.subrange(0, k + 1),
                                snap,
                            ).map_values(|u: i32| (u, UserUpdateStatus::Disconnected)));
                        }
                    } else {
                        updated_users.push((p.0, UserUpdateStatus::Disconnected));
                        proof {
                            assert(map2@ =~= retained(m1.subrange(0, k + 1), snap));
                            assert(updated_users@ =~= dropped_ids(
                                m1.subrange(0, k + 1),
                                snap,
                            ).map_values(|u: i32| (u, UserUpdateStatus::Disconnected)));
                        }
                    }
                    k = k + 1;
                }
                proof {
                    assert(m1.subrange(0, mn as int) =~= m1);
                }
                let ghost disc = dropped_ids(m1, snap);
                let ghost m2 = retained(m1, snap);

                // Process each client's drained inbound traffic.
                let ghost pending0 = self.chat@.pending;
                let pn = map2.len();
                let mut q: usize = 0;
                while q < pn
                    invariant
                        pn == m2.len(),
                        map2@.len() == pn,
                        q <= pn,
                        users.wf(),
                        self.chat.wf(),
                        self@.chat.log == pre.chat.log,
                        self@.pause == pre.pause,
                        self@.stop == pre.stop,
                        snap == snapshot@,
                        ({
                            let done = process_pass(m2.subrange(0, q as int), e0, pending0);
                            map2@ =~= done.0 + m2.skip(q as int) && users@ == done.1
                                && self@.chat.pending == done.2 && updated_users@ =~= disc.map_values(
                                |u: i32| (u, UserUpdateStatus::Disconnected),
                            ) + done.3
                        }),
                        pending0 == pre.chat.pending,
                    decreases pn - q,
                {
                    let ghost done_q = process_pass(m2.subrange(0, q as int), e0, pending0);
                    proof {
                        lemma_process_pass_ids(m2.subrange(0, q as int), e0, pending0);
                        assert(map_ids(done_q.0).len() == done_q.0.len());
                        assert(done_q.0.len() == q);
                    }
                    let p = map2[q];
                    proof {
                        assert(map2@[q as int] == (done_q.0 + m2.skip(q as int))[q as int]);
                        assert(map2@[q as int] == m2[q as int]);
                        assert(m2.subrange(0, q + 1).drop_last() =~= m2.subrange(0, q as int));
                        assert(m2.subrange(0, q + 1).last() == m2[q as int]);
                    }
                    match p.1 {
                        AcceptingUserState::Connected => {
                            let msgs = users.drain_inbound(p.0);
                            let ghost inbox = msgs@.map_values(|m: Message| m@);
                            proof {
                                assert(inbox =~= inbox_of(done_q.1, p.0));
                            }
                            let mut found = false;
                            let kk = msgs.len();
                            let mut jj: usize = 0;
                            while jj < kk
                                invariant
                                    kk == msgs@.len(),
                                    jj <= kk,
                                    inbox == msgs@.map_values(|m: Message| m@),
                                    found == (exists|t: int|
                                        0 <= t < jj && (#[trigger] inbox[t]).message_type
                                            == MessageType::ConnectionRequested),
                                decreases kk - jj,
                            {
                                let mt = msgs[jj].message_type();
                                proof {
                                    assert(inbox[jj as int] == msgs@[jj as int]@);
                                }
                                match mt {
                                    MessageType::ConnectionRequested => {
                                        found = true;
                                        proof {
                                            assert(inbox[jj as int].message_type
                                                == MessageType::ConnectionRequested);
                                        }
                                    },
                                    _ => {
                                        proof {
                                            if exists|t: int|
                                                0 <= t < jj + 1 && (#[trigger] inbox[t]).message_type
                                                    == MessageType::ConnectionRequested {
                                                let t = choose|t: int|
                                                    0 <= t < jj + 1 && (#[trigger] inbox[t]).message_type
                                                        == MessageType::ConnectionRequested;
                                                assert(t < jj);
                                            }
                                        }
                                    },
                                }
                                jj = jj + 1;
                            }
                            proof {
                                assert(found == has_connection_requested(inbox));
                            }
                            if found {
                                map2.set(q, (p.0, AcceptingUserState::AboutToAccept));
                            }
                            proof {
                                let done = process_pass(m2.subrange(0, q + 1), e0, pending0);
                                assert(map2@ =~= done.0 + m2.skip(q + 1));
                                assert(users@ =~= done.1);
                                assert(updated_users@ =~= disc.map_values(
                                    |u: i32| (u, UserUpdateStatus::Disconnected),
                                ) + done.3);
                            }
                        },
                        AcceptingUserState::AboutToAccept => {
                            proof {
                                let done = process_pass(m2.subrange(0, q + 1), e0, pending0);
                                assert(map2@ =~= done.0 + m2.skip(q + 1));
                                assert(users@ =~= done.1);
                                assert(updated_users@ =~= disc.map_values(
                                    |u: i32| (u, UserUpdateStatus::Disconnected),
                                ) + done.3);
                            }
                        },
                        AcceptingUserState::ConnectionAccepted(re, rdy) => {
                            let msgs = users.drain_inbound(p.0);
                            let ghost inbox = msgs@.map_values(|m: Message| m@);
                            proof {
                                assert(inbox =~= inbox_of(done_q.1, p.0));
                            }
                            let mut user_ready = rdy;
                            let mut was_changed = false;
                            proof {
                                assert(inbox.skip(0) =~= inbox);
                            }
                            let kk = msgs.len();
                            let mut jj: usize = 0;
                            while jj < kk
                                invariant
                                    kk == msgs@.len(),
                                    jj <= kk,
                                    inbox == msgs@.map_values(|m: Message| m@),
                                    self.chat.wf(),
                                    self@.chat.log == pre.chat.log,
                                    self@.pause == pre.pause,
                                    self@.stop == pre.stop,
                                    fold_ready(rdy, false, done_q.2, p.0, inbox) == fold_ready(
                                        user_ready,
                                        was_changed,
                                        self@.chat.pending,
                                        p.0,
                                        inbox.skip(jj as int),
                                    ),
                                decreases kk - jj,
                            {
                                let m = msgs[jj].duplicate();
                                proof {
                                    assert(inbox.skip(jj as int).drop_first() =~= inbox.skip(
                                        jj + 1,
                                    ));
                                    assert(inbox.skip(jj as int).first() == inbox[jj as int]);
                                }
                                match m.message_type() {
                                    MessageType::ReadyToStartChanged => {
                                        let mut mm = m;
                                        let is_ready = match mm.pop_u8() {
                                            Some(x) => x != 0,
                                            None => false,
                                        };
                                        user_ready = is_ready;
                                        was_changed = true;
                                    },
                                    MessageType::ChatUpdate => {
                                        self.chat.append(p.0, m);
                                    },
                                    _ => {},
                                }
                                jj = jj + 1;
                            }
                            proof {
                                assert(inbox.skip(kk as int) =~= Seq::<MessageView>::empty());
                            }
                            map2.set(
                                q,
                                (p.0, AcceptingUserState::ConnectionAccepted(re, user_ready)),
                            );
                            if was_changed {
                                updated_users.push(
                                    (
                                        p.0,
                                        if user_ready {
                                            UserUpdateStatus::Ready
                                        } else {
                                            UserUpdateStatus::NotReady
                                        },
                                    ),
                                );
                            }
                            proof {
                                let done = process_pass(m2.subrange(0, q + 1), e0, pending0);
                                assert(map2@ =~= done.0 + m2.skip(q + 1));
                                assert(users@ =~= done.1);
                                assert(self@.chat.pending == done.2);
                                assert(updated_users@ =~= disc.map_values(
                                    |u: i32| (u, UserUpdateStatus::Disconnected),
                                ) + done.3);
                            }
                        },
                    }
                    q = q + 1;
                }
                proof {
                    assert(m2.subrange(0, pn as int) =~= m2);
                }
                let ghost processed = process_pass(m2, e0, pending0);
                let ghost m4 = promote(processed.0);
                let ghost e3g = users@;

                // Promote and greet the newly accepted.
                let new_users = move_about_to_start_users_to_connection_accepted(&mut map2);
                let ghost newu = new_users@;
                proof {
                    assert(map2@ == m4);
                    assert(newu == promoted_ids(processed.0));
                }
                if new_users.len() > 0 {
                    let roster = collect_user_state(&map2);
                    send_connection_accepted(&new_users, roster, users);
                    if self.chat.has_history() {
                        send_chat_state(&new_users, users, &self.chat);
                    }
                }
                proof {
                    let e4 = if newu.len() > 0 {
                        spec_send_accepted_each(e3g, newu, spec_collect_user_state(m4))
                    } else {
                        e3g
                    };
                    let e5 = if newu.len() > 0 && pre.chat.log.len() > 0 {
                        spec_send_to_each(e4, newu, chat_view(pre.chat.log))
                    } else {
                        e4
                    };
                    assert(users@ == e5);
                }

                // The promoted join the roster-change batch as not ready.
                let ghost updated_before_new = updated_users@;
                let nn = new_users.len();
                let mut w: usize = 0;
                while w < nn
                    invariant
                        nn == new_users@.len(),
                        w <= nn,
                        updated_users@ =~= updated_before_new + new_users@.subrange(
                            0,
                            w as int,
                        ).map_values(|u: i32| (u, UserUpdateStatus::NotReady)),
                    decreases nn - w,
                {
                    let u = new_users[w];
                    updated_users.push((u, UserUpdateStatus::NotReady));
                    proof {
                        assert(new_users@.subrange(0, w + 1) =~= new_users@.subrange(0, w as int)
                            + seq![new_users@[w as int]]);
                        assert(updated_users@ =~= updated_before_new + new_users@.subrange(
                            0,
                            w + 1,
                        ).map_values(|u2: i32| (u2, UserUpdateStatus::NotReady)));
                    }
                    w = w + 1;
                }
                proof {
                    assert(new_users@.subrange(0, nn as int) =~= new_users@);
                    assert(updated_users@ =~= disc.map_values(
                        |u: i32| (u, UserUpdateStatus::Disconnected),
                    ) + processed.3 + newu.map_values(|u: i32| (u, UserUpdateStatus::NotReady)));
                }
                let ghost updates = updated_users@;
                let ghost e5g = users@;

                // One UserStatusUpdate batches the round's roster changes.
                if updated_users.len() > 0 {
                    let mut update_message = Message::new(MessageType::UserStatusUpdate);
                    let un = updated_users.len();
                    let mut v: usize = 0;
                    while v < un
                        invariant
                            un == updated_users@.len(),
                            v <= un,
                            update_message@.message_type == MessageType::UserStatusUpdate,
                            update_message@.data =~= status_pairs_bytes(
                                updated_users@.subrange(0, v as int),
                            ),
                        decreases un - v,
                    {
                        let pair = updated_users[v];
                        update_message.push_i32(pair.0);
                        update_message.push_u8(pair.1.value());
                        proof {
                            assert(updated_users@.subrange(0, v + 1).drop_last()
                                =~= updated_users@.subrange(0, v as int));
                            assert(updated_users@.subrange(0, v + 1).last()
                                == updated_users@[v as int]);
                            assert(update_message@.data =~= status_pairs_bytes(
                                updated_users@.subrange(0, v + 1),
                            ));
                        }
                        v = v + 1;
                    }
                    proof {
                        assert(updated_users@.subrange(0, un as int) =~= updated_users@);
                    }
                    update_message.push_u8((un % 256) as u8);
                    proof {
                        assert(update_message@ =~~= status_update_view(updates));
                    }
                    message_to_accepted_users(&map2, users, update_message);
                }
                proof {
                    let e6 = if updates.len() > 0 {
                        spec_send_to_each(e5g, accepted_ids(m4), status_update_view(updates))
                    } else {
                        e5g
                    };
                    assert(users@ == e6);
                }
                let ghost e6g = users@;

                // One ChatUpdate batches the freshly committed chat.
                let ghost pending3 = self@.chat.pending;
                proof {
                    assert(pending3 == processed.2);
                }
                match self.chat.commit() {
                    Some(chat_update_message) => {
                        proof {
                            assert(chat_update_message@ =~~= chat_view(pending3));
                        }
                        message_to_accepted_users(&map2, users, chat_update_message);
                    },
                    None => {},
                }
                proof {
                    let e7 = if pending3.len() > 0 {
                        spec_send_to_each(e6g, accepted_ids(m4), chat_view(pending3))
                    } else {
                        e6g
                    };
                    assert(users@ == e7);
                    assert(self@.chat =~~= (if pending3.len() > 0 {
                        ChatModel { log: pre.chat.log + pending3, pending: Seq::empty() }
                    } else {
                        ChatModel { log: pre.chat.log, pending: pending3 }
                    }));
                }

                let fc2 = match fc {
                    FinalCall::AllReady => FinalCall::Processed,
                    other => other,
                };
                self.state = OverallState::AcceptingUsers(map2, fc2);
                proof {
                    // the id chain: sync keeps ids unique, retention keeps a
                    // sub-list, processing and promotion keep ids
                    assert(map_ids(m0).no_duplicates());
                    lemma_newcomers(map_ids(m0), snap);
                    let nc = newcomers(map_ids(m0), snap);
                    assert(map_ids(m1) =~= map_ids(m0) + nc) by {
                        assert forall|j: int| 0 <= j < m1.len() implies map_ids(m1)[j] == (map_ids(
                            m0,
                        ) + nc)[j] by {
                            if j < m0.len() {
                                assert(m1[j] == m0[j]);
                            } else {
                                assert(m1[j] == nc.map_values(
                                    |x: i32| (x, AcceptingUserState::Connected),
                                )[j - m0.len()]);
                            }
                        }
                    }
                    assert(map_ids(m1).no_duplicates()) by {
                        assert forall|a: int, b: int|
                            0 <= a < map_ids(m1).len() && 0 <= b < map_ids(m1).len() && a
                            != b implies map_ids(m1)[a] != map_ids(m1)[b] by {
                            let l0 = map_ids(m0).len() as int;
                            if a < l0 && b < l0 {
                            } else if a >= l0 && b >= l0 {
                            } else {
                                let lo = if a < b {
                                    a
                                } else {
                                    b
                                };
                                let hi = if a < b {
                                    b
                                } else {
                                    a
                                };
                                if map_ids(m1)[lo] == map_ids(m1)[hi] {
                                    assert(nc.contains(nc[hi - l0]));
                                    assert(map_ids(m0).contains(map_ids(m0)[lo]));
                                    assert(false);
                                }
                            }
                        }
                    }
                    lemma_retained(m1, snap);
                    lemma_process_pass_ids(m2, e0, pending0);
                    assert(map_ids(m4) =~= map_ids(processed.0));
                    assert(map_ids(m4).no_duplicates());
                    assert(pre.state == OverallModel::AcceptingUsers(m0, fc));
                    assert(pre.chat.pending == pending0);
                    assert(snap == ids_of(e0));
                    let spec_result = accepting_io_f(pre, e0);
                    assert(users@ == spec_result.1);
                    match spec_result.0.state {
                        OverallModel::AcceptingUsers(sm, sfc) => {
                            assert(sm == m4);
                            assert(sfc == fc2);
                        },
                        _ => {
                            assert(false);
                        },
                    }
                    assert(self@.state =~~= spec_result.0.state);
                    assert(self@.chat =~~= spec_result.0.chat);
                    assert(self@.pause == spec_result.0.pause);
                    assert(self@.stop == spec_result.0.stop);
                    assert(self@ =~~= spec_result.0);
                }
            },
            OverallState::AllReady(ids, sent) => {
                if !sent {
                    let ghost roster = ids@;
                    let n = ids.len();
                    let mut i: usize = 0;
                    while i < n
                        invariant
                            n == roster.len(),
                            roster == ids@,
                            i <= n,
                            users.wf(),
                            users@ =~= spec_send_to_each(
                                e0,
                                roster.subrange(0, i as int),
                                ready_to_start_view(),
                            ),
                        decreases n - i,
                    {
                        let ready_to_start = Message::new(MessageType::ReadyToStart);
                        proof {
                            assert(ready_to_start@.data =~= Seq::<u8>::empty());
                            assert(roster.subrange(0, i + 1).drop_last() =~= roster.subrange(
                                0,
                                i as int,
                            ));
                        }
                        let u = ids[i];
                        users.send_to(u, ready_to_start);
                        i = i + 1;
                    }
                    proof {
                        assert(roster.subrange(0, n as int) =~= roster);
                    }
                    self.state = OverallState::AllReady(ids, true);
                } else {
                    self.state = OverallState::AllReady(ids, sent);
                }
            },
        }
    }
}


/// A snapshot already covered by the map brings no newcomers.
pub proof fn lemma_newcomers_empty(m_ids: Seq<i32>, snapshot: Seq<i32>)
    requires
        forall|i: int| 0 <= i < snapshot.len() ==> m_ids.contains(#[trigger] snapshot[i]),
    ensures
        newcomers(m_ids, snapshot).len() == 0,
    decreases snapshot.len(),
{
    if snapshot.len() > 0 {
        assert(m_ids.contains(snapshot.last()));
        assert forall|i: int|
            0 <= i < snapshot.drop_last().len() implies m_ids.contains(
            #[trigger] snapshot.drop_last()[i],
        ) by {
            assert(snapshot.drop_last()[i] == snapshot[i]);
        }
        lemma_newcomers_empty(m_ids, snapshot.drop_last());
    }
}

/// A snapshot that still holds every mapped id retains the whole map and
/// drops nobody.
pub proof fn lemma_retained_all(m: Seq<(i32, AcceptingUserState)>, snapshot: Seq<i32>)
    requires
        forall|i: int| 0 <= i < m.len() ==> snapshot.contains((#[trigger] m[i]).0),
    ensures
        retained(m, snapshot) == m,
        dropped_ids(m, snapshot).len() == 0,
    decreases m.len(),
{
    if m.len() > 0 {
        assert forall|i: int|
            0 <= i < m.drop_last().len() implies snapshot.contains(
            (#[trigger] m.drop_last()[i]).0,
        ) by {
            assert(m.drop_last()[i] == m[i]);
        }
        lemma_retained_all(m.drop_last(), snapshot);
        assert(snapshot.contains(m[m.len() - 1].0));
        assert(retained(m, snapshot) =~= m);
    }
}

/// The ready flag and the changed mark an inbox folds to do not depend on
/// what chat was pending.
pub proof fn lemma_fold_flag_pending_indep(
    rdy: bool,
    changed: bool,
    p1: Seq<(i32, Seq<char>)>,
    p2: Seq<(i32, Seq<char>)>,
    id: i32,
    msgs: Seq<MessageView>,
)
    ensures
        fold_ready(rdy, changed, p1, id, msgs).0 == fold_ready(rdy, changed, p2, id, msgs).0,
        fold_ready(rdy, changed, p1, id, msgs).1 == fold_ready(rdy, changed, p2, id, msgs).1,
    decreases msgs.len(),
{
    if msgs.len() > 0 {
        let m0 = msgs[0];
        if m0.message_type == MessageType::ReadyToStartChanged {
            lemma_fold_flag_pending_indep(rtsc_flag(m0.data), true, p1, p2, id, msgs.drop_first());
        } else if m0.message_type == MessageType::ChatUpdate {
            match spec_parse_texts(m0.data) {
                Some(ts) => {
                    lemma_fold_flag_pending_indep(
                        rdy,
                        changed,
                        p1 + credited(id, ts),
                        p2 + credited(id, ts),
                        id,
                        msgs.drop_first(),
                    );
                },
                None => {
                    lemma_fold_flag_pending_indep(rdy, changed, p1, p2, id, msgs.drop_first());
                },
            }
        } else {
            lemma_fold_flag_pending_indep(rdy, changed, p1, p2, id, msgs.drop_first());
        }
    }
}

/// The last ready-flag message wins the fold: an inbox that ends with a
/// ready-off leaves the client unready, whatever came before.
pub proof fn lemma_fold_last_off(
    rdy: bool,
    changed: bool,
    pending: Seq<(i32, Seq<char>)>,
    id: i32,
    msgs: Seq<MessageView>,
)
    requires
        msgs.len() > 0,
        msgs.last().message_type == MessageType::ReadyToStartChanged,
        !rtsc_flag(msgs.last().data),
    ensures
        !fold_ready(rdy, changed, pending, id, msgs).0,
    decreases msgs.len(),
{
    let m0 = msgs[0];
    if msgs.len() == 1 {
        assert(m0 == msgs.last());
        assert(msgs.drop_first().len() == 0);
        assert(fold_ready(rtsc_flag(m0.data), true, pending, id, msgs.drop_first()) == (
            rtsc_flag(m0.data),
            true,
            pending,
        ));
    } else {
        assert(msgs.drop_first().last() == msgs.last());
        let step = if m0.message_type == MessageType::ReadyToStartChanged {
            (rtsc_flag(m0.data), true, pending)
        } else if m0.message_type == MessageType::ChatUpdate {
            match spec_parse_texts(m0.data) {
                Some(ts) => (rdy, changed, pending + credited(id, ts)),
                None => (rdy, changed, pending),
            }
        } else {
            (rdy, changed, pending)
        };
        lemma_fold_last_off(step.0, step.1, step.2, id, msgs.drop_first());
    }
}

/// Inbound processing only drains the processed clients' own queues: every
/// id survives, every outbound queue survives, and the inbound queue of a
/// client outside the processed map survives too.
pub proof fn lemma_process_preserves(
    m: Seq<(i32, AcceptingUserState)>,
    entries: Seq<UserEntryModel>,
    pending: Seq<(i32, Seq<char>)>,
    b: i32,
)
    requires
        forall|i: int, j: int|
            0 <= i < j < entries.len() ==> #[trigger] entries[i].id != #[trigger] entries[j].id,
    ensures
        ids_of(process_pass(m, entries, pending).1) == ids_of(entries),
        crate::users::outbox_of(process_pass(m, entries, pending).1, b) == crate::users::outbox_of(
            entries,
            b,
        ),
        (forall|j: int| 0 <= j < m.len() ==> (#[trigger] m[j]).0 != b) ==> inbox_of(
            process_pass(m, entries, pending).1,
            b,
        ) == inbox_of(entries, b),
    decreases m.len(),
{
    if m.len() > 0 {
        assert forall|j: int|
            0 <= j < m.drop_last().len() implies (#[trigger] m.drop_last()[j]) == m[j] by {}
        lemma_process_preserves(m.drop_last(), entries, pending, b);
        let prev = process_pass(m.drop_last(), entries, pending);
        crate::users::lemma_queue_op_keeps_unique(entries, prev.1);
        let p = m.last();
        match p.1 {
            AcceptingUserState::Connected => {
                crate::users::lemma_drain_one_effect(prev.1, p.0, b);
            },
            AcceptingUserState::AboutToAccept => {},
            AcceptingUserState::ConnectionAccepted(_, _) => {
                crate::users::lemma_drain_one_effect(prev.1, p.0, b);
            },
        }
    }
}


/// What one pass of inbound processing leaves each client holding, position
/// by position: its own drained inbox, read against the queues as they stood
/// before the pass — each client's queue is touched only at its own turn.
pub proof fn lemma_process_pass_member(
    m: Seq<(i32, AcceptingUserState)>,
    entries: Seq<UserEntryModel>,
    pending: Seq<(i32, Seq<char>)>,
    k: int,
)
    requires
        forall|i: int, j: int|
            0 <= i < j < entries.len() ==> #[trigger] entries[i].id != #[trigger] entries[j].id,
        map_ids(m).no_duplicates(),
        0 <= k < m.len(),
    ensures
        process_pass(m, entries, pending).0[k] == ({
            let p = m[k];
            match p.1 {
                AcceptingUserState::Connected => (
                    p.0,
                    if has_connection_requested(inbox_of(entries, p.0)) {
                        AcceptingUserState::AboutToAccept
                    } else {
                        AcceptingUserState::Connected
                    },
                ),
                AcceptingUserState::AboutToAccept => p,
                AcceptingUserState::ConnectionAccepted(re, rdy) => (
                    p.0,
                    AcceptingUserState::ConnectionAccepted(
                        re,
                        fold_ready(rdy, false, pending, p.0, inbox_of(entries, p.0)).0,
                    ),
                ),
            }
        }),
    decreases m.len(),
{
    lemma_process_pass_ids(m, entries, pending);
    assert(map_ids(process_pass(m, entries, pending).0).len() == process_pass(
        m,
        entries,
        pending,
    ).0.len());
    assert(map_ids(m).len() == m.len());
    let prev = process_pass(m.drop_last(), entries, pending);
    lemma_process_pass_ids(m.drop_last(), entries, pending);
    assert(map_ids(prev.0).len() == prev.0.len());
    assert(map_ids(m.drop_last()).len() == m.drop_last().len());
    if k < m.len() - 1 {
        assert(map_ids(m.drop_last()).no_duplicates()) by {
            assert forall|a: int, b: int|
                0 <= a < map_ids(m.drop_last()).len() && 0 <= b < map_ids(m.drop_last()).len()
                && a != b implies map_ids(m.drop_last())[a] != map_ids(m.drop_last())[b] by {
                assert(m.drop_last()[a] == m[a] && m.drop_last()[b] == m[b]);
                assert(map_ids(m)[a] == map_ids(m.drop_last())[a]);
                assert(map_ids(m)[b] == map_ids(m.drop_last())[b]);
            }
        }
        lemma_process_pass_member(m.drop_last(), entries, pending, k);
        assert(m.drop_last()[k] == m[k]);
        assert(process_pass(m, entries, pending).0[k] == prev.0[k]);
        match m[k].1 {
            AcceptingUserState::ConnectionAccepted(re, rdy) => {
                lemma_fold_flag_pending_indep(rdy, false, pending, pending, m[k].0, inbox_of(
                    entries,
                    m[k].0,
                ));
            },
            _ => {},
        }
    } else {
        let p = m.last();
        assert forall|j: int| 0 <= j < m.drop_last().len() implies (
        #[trigger] m.drop_last()[j]).0 != p.0 by {
            assert(m.drop_last()[j] == m[j]);
            assert(map_ids(m)[j] == m[j].0);
            assert(map_ids(m)[m.len() - 1] == p.0);
        }
        lemma_process_preserves(m.drop_last(), entries, pending, p.0);
        assert(inbox_of(prev.1, p.0) == inbox_of(entries, p.0));
        match p.1 {
            AcceptingUserState::ConnectionAccepted(re, rdy) => {
                lemma_fold_flag_pending_indep(rdy, false, prev.2, pending, p.0, inbox_of(
                    entries,
                    p.0,
                ));
                assert(process_pass(m, entries, pending).0[k] == (
                    p.0,
                    AcceptingUserState::ConnectionAccepted(re, fold_ready(
                        rdy,
                        false,
                        prev.2,
                        p.0,
                        inbox_of(prev.1, p.0),
                    ).0),
                ));
            },
            _ => {},
        }
    }
}

/// Accepting unanimity: a client that is not accepted-and-ready blocks the
/// transition — the time-advance yields no phase and resets the one-shot
/// latch, whatever every other client says.
pub proof fn lemma_unready_client_blocks(
    pre: JustCreatedModel,
    m: Seq<(i32, AcceptingUserState)>,
    fc: FinalCall,
    i: int,
)
    requires
        pre.state == OverallModel::AcceptingUsers(m, fc),
        0 <= i < m.len(),
        !(m[i].1 matches AcceptingUserState::ConnectionAccepted(_, true)),
    ensures
        accepting_elapsed_f(pre).1 is None,
        accepting_elapsed_f(pre).0.state == OverallModel::AcceptingUsers(
            mark_reacted(m),
            FinalCall::NotYet,
        ),
        !accepting_elapsed_f(pre).0.pause,
{
    assert(!all_ready(m));
}

/// Latch debounce: in a round where every client reads ready — the reading
/// that arms the one-shot latch — one client's ready flag toggling back off
/// within the same round prevents the transition that round: the io-exchange
/// leaves that client unready, so the next time-advance resets the latch
/// instead of moving on.
pub proof fn lemma_latch_debounce(
    pre: JustCreatedModel,
    m: Seq<(i32, AcceptingUserState)>,
    entries: Seq<UserEntryModel>,
    k: int,
)
    requires
        pre.state == OverallModel::AcceptingUsers(m, FinalCall::NotYet),
        m.len() > 0,
        all_ready(m),
        map_ids(m).no_duplicates(),
        crate::users::wf_entries(entries),
        ids_of(entries) == map_ids(m),
        0 <= k < m.len(),
        inbox_of(entries, m[k].0).len() > 0,
        inbox_of(entries, m[k].0).last().message_type == MessageType::ReadyToStartChanged,
        !rtsc_flag(inbox_of(entries, m[k].0).last().data),
    ensures
        accepting_elapsed_f(pre).1 is None,
        ({
            let armed = accepting_elapsed_f(pre).0;
            let after_io = accepting_io_f(armed, entries).0;
            accepting_elapsed_f(after_io).1 is None && accepting_elapsed_f(after_io).0.state
                matches OverallModel::AcceptingUsers(_, FinalCall::NotYet)
        }),
{
    let armed = accepting_elapsed_f(pre).0;
    let marked = mark_reacted(m);
    assert(armed.state == OverallModel::AcceptingUsers(marked, FinalCall::AllReady));
    assert(armed.chat == pre.chat);
    let snap = ids_of(entries);
    assert(map_ids(marked) =~= map_ids(m));
    // nobody joins: the snapshot ids are exactly the mapped ids
    assert forall|i: int| 0 <= i < snap.len() implies map_ids(marked).contains(
        #[trigger] snap[i],
    ) by {
        assert(map_ids(m)[i] == snap[i]);
    }
    lemma_newcomers_empty(map_ids(marked), snap);
    let m1 = sync_add(marked, snap);
    assert(m1 =~= marked) by {
        assert(newcomers(map_ids(marked), snap).map_values(
            |u: i32| (u, AcceptingUserState::Connected),
        ).len() == 0);
    }
    // nobody leaves: every mapped id stands in the snapshot
    assert forall|i: int| 0 <= i < m1.len() implies snap.contains((#[trigger] m1[i]).0) by {
        assert(m1[i] == marked[i]);
        assert(map_ids(m)[i] == m1[i].0);
        assert(snap[i] == m1[i].0);
    }
    lemma_retained_all(m1, snap);
    let m2 = retained(m1, snap);
    assert(m2 == m1);
    // the toggling client's drained inbox ends with the ready-off, which
    // wins the fold: after processing it stands unready
    let c = m[k].0;
    assert(marked.len() == m.len());
    assert(marked[k] == (c,
        match m[k].1 {
            AcceptingUserState::ConnectionAccepted(_, rdy) => AcceptingUserState::ConnectionAccepted(
                reaction_with(true),
                rdy,
            ),
            other => other,
        },
    ));
    assert(m[k].1 matches AcceptingUserState::ConnectionAccepted(_, true));
    assert(map_ids(marked).no_duplicates()) by {
        assert(map_ids(marked) == map_ids(m));
    }
    let processed = process_pass(m2, entries, pre.chat.pending);
    lemma_process_pass_member(m2, entries, pre.chat.pending, k);
    match marked[k].1 {
        AcceptingUserState::ConnectionAccepted(re, rdy) => {
            lemma_fold_last_off(rdy, false, pre.chat.pending, c, inbox_of(entries, c));
            assert(processed.0[k] == (c, AcceptingUserState::ConnectionAccepted(re, fold_ready(
                rdy,
                false,
                pre.chat.pending,
                c,
                inbox_of(entries, c),
            ).0)));
        },
        _ => {
            assert(false);
        },
    }
    let m3 = processed.0;
    lemma_process_pass_ids(m2, entries, pre.chat.pending);
    assert(map_ids(m3).len() == m3.len());
    assert(m3.len() == m2.len());
    assert(!(m3[k].1 matches AcceptingUserState::ConnectionAccepted(_, true)));
    let m4 = promote(m3);
    assert(m4.len() == m3.len());
    assert(m4[k] == (m3[k].0,
        match m3[k].1 {
            AcceptingUserState::AboutToAccept => AcceptingUserState::ConnectionAccepted(
                reaction_with(false),
                false,
            ),
            other => other,
        },
    ));
    assert(!(m4[k].1 matches AcceptingUserState::ConnectionAccepted(_, true)));
    let after_io = accepting_io_f(armed, entries).0;
    assert(after_io.state == OverallModel::AcceptingUsers(m4, FinalCall::Processed));
    lemma_unready_client_blocks(after_io, m4, FinalCall::Processed, k);
}

/// Chat reaches a later joiner exactly once: a client promoted in a round
/// where committed history exists receives the one-time full-history
/// snapshot, and the round's commit leaves nothing pending, so no text is
/// ever re-sent by a later incremental update.
pub proof fn lemma_chat_history_reaches_joiner(
    pre: JustCreatedModel,
    m: Seq<(i32, AcceptingUserState)>,
    fc: FinalCall,
    entries: Seq<UserEntryModel>,
    c: i32,
)
    requires
        pre.state == OverallModel::AcceptingUsers(m, fc),
        crate::users::wf_entries(entries),
        pre.chat.log.len() > 0,
        ids_of(entries).contains(c),
        ({
            let snap = ids_of(entries);
            let m2 = retained(sync_add(m, snap), snap);
            promoted_ids(process_pass(m2, entries, pre.chat.pending).0).contains(c)
        }),
    ensures
        accepting_io_f(pre, entries).0.chat.pending.len() == 0,
        crate::users::outbox_of(accepting_io_f(pre, entries).1, c).contains(
            chat_view(pre.chat.log),
        ),
{
    let snap = ids_of(entries);
    let m1 = sync_add(m, snap);
    let m2 = retained(m1, snap);
    let processed = process_pass(m2, entries, pre.chat.pending);
    let m3 = processed.0;
    let e3 = processed.1;
    let newu = promoted_ids(m3);
    let m4 = promote(m3);
    let roster = spec_collect_user_state(m4);
    lemma_process_preserves(m2, entries, pre.chat.pending, c);
    crate::users::lemma_queue_op_keeps_unique(entries, e3);
    assert(ids_of(e3).contains(c));
    let e4 = spec_send_accepted_each(e3, newu, roster);
    lemma_send_accepted_keeps_ids(e3, newu, roster);
    crate::users::lemma_queue_op_keeps_unique(entries, e4);
    assert(ids_of(e4).contains(c));
    let e5 = spec_send_to_each(e4, newu, chat_view(pre.chat.log));
    lemma_send_each_delivers(e4, newu, chat_view(pre.chat.log), c);
    assert(crate::users::outbox_of(e5, c).contains(chat_view(pre.chat.log)));
    crate::users::lemma_queue_op_keeps_unique(entries, e5);
    let disc = dropped_ids(m1, snap);
    let updates = disc.map_values(|u: i32| (u, UserUpdateStatus::Disconnected)) + processed.3
        + newu.map_values(|u: i32| (u, UserUpdateStatus::NotReady));
    let e6 = if updates.len() > 0 {
        spec_send_to_each(e5, accepted_ids(m4), status_update_view(updates))
    } else {
        e5
    };
    if updates.len() > 0 {
        lemma_send_each_keeps(e5, accepted_ids(m4), status_update_view(updates), c, chat_view(
            pre.chat.log,
        ));
    }
    crate::users::lemma_queue_op_keeps_unique(entries, e6);
    if processed.2.len() > 0 {
        lemma_send_each_keeps(e6, accepted_ids(m4), chat_view(processed.2), c, chat_view(
            pre.chat.log,
        ));
    }
}

/// Sending each promoted client its own acceptance keeps every id.
pub proof fn lemma_send_accepted_keeps_ids(
    e: Seq<UserEntryModel>,
    targets: Seq<i32>,
    roster: Seq<(i32, bool)>,
)
    requires
        forall|i: int, j: int| 0 <= i < j < e.len() ==> #[trigger] e[i].id != #[trigger] e[j].id,
    ensures
        ids_of(spec_send_accepted_each(e, targets, roster)) == ids_of(e),
    decreases targets.len(),
{
    if targets.len() > 0 {
        lemma_send_accepted_keeps_ids(e, targets.drop_last(), roster);
        let mid = spec_send_accepted_each(e, targets.drop_last(), roster);
        crate::users::lemma_queue_op_keeps_unique(e, mid);
        crate::users::lemma_send_to_effect(mid, targets.last(), accepted_view(
            roster,
            targets.last(),
        ), targets.last());
    }
}

/// A listed, connected client receives the message a send-to-each carries.
pub proof fn lemma_send_each_delivers(
    e: Seq<UserEntryModel>,
    ids: Seq<i32>,
    mv: MessageView,
    b: i32,
)
    requires
        forall|i: int, j: int| 0 <= i < j < e.len() ==> #[trigger] e[i].id != #[trigger] e[j].id,
        ids.contains(b),
        ids_of(e).contains(b),
    ensures
        ids_of(spec_send_to_each(e, ids, mv)) == ids_of(e),
        crate::users::outbox_of(spec_send_to_each(e, ids, mv), b).contains(mv),
    decreases ids.len(),
{
    let mid = spec_send_to_each(e, ids.drop_last(), mv);
    if ids.last() == b {
        lemma_send_each_keeps_ids(e, ids.drop_last(), mv);
        crate::users::lemma_queue_op_keeps_unique(e, mid);
        crate::users::lemma_send_to_effect(mid, b, mv, b);
        assert(ids_of(mid).contains(b));
        let after = crate::users::outbox_of(spec_send_to_each(e, ids, mv), b);
        assert(after == crate::users::outbox_of(mid, b).push(mv));
        assert(after[after.len() - 1] == mv);
    } else {
        let t = choose|t: int| 0 <= t < ids.len() && ids[t] == b;
        assert(ids.drop_last()[t] == b);
        assert(ids.drop_last().contains(b));
        lemma_send_each_delivers(e, ids.drop_last(), mv, b);
        crate::users::lemma_queue_op_keeps_unique(e, mid);
        crate::users::lemma_send_to_effect(mid, ids.last(), mv, b);
    }
}

/// A send-to-each keeps every id.
pub proof fn lemma_send_each_keeps_ids(e: Seq<UserEntryModel>, ids: Seq<i32>, mv: MessageView)
    requires
        forall|i: int, j: int| 0 <= i < j < e.len() ==> #[trigger] e[i].id != #[trigger] e[j].id,
    ensures
        ids_of(spec_send_to_each(e, ids, mv)) == ids_of(e),
    decreases ids.len(),
{
    if ids.len() > 0 {
        lemma_send_each_keeps_ids(e, ids.drop_last(), mv);
        let mid = spec_send_to_each(e, ids.drop_last(), mv);
        crate::users::lemma_queue_op_keeps_unique(e, mid);
        crate::users::lemma_send_to_effect(mid, ids.last(), mv, ids.last());
    }
}

/// What an outbound queue already holds survives a send-to-each.
pub proof fn lemma_send_each_keeps(
    e: Seq<UserEntryModel>,
    ids: Seq<i32>,
    mv: MessageView,
    b: i32,
    v: MessageView,
)
    requires
        forall|i: int, j: int| 0 <= i < j < e.len() ==> #[trigger] e[i].id != #[trigger] e[j].id,
        crate::users::outbox_of(e, b).contains(v),
    ensures
        ids_of(spec_send_to_each(e, ids, mv)) == ids_of(e),
        crate::users::outbox_of(spec_send_to_each(e, ids, mv), b).contains(v),
    decreases ids.len(),
{
    if ids.len() > 0 {
        lemma_send_each_keeps(e, ids.drop_last(), mv, b, v);
        let mid = spec_send_to_each(e, ids.drop_last(), mv);
        crate::users::lemma_queue_op_keeps_unique(e, mid);
        crate::users::lemma_send_to_effect(mid, ids.last(), mv, b);
        if ids.last() == b && ids_of(mid).contains(b) {
            let ob = crate::users::outbox_of(mid, b);
            let t = choose|t: int| 0 <= t < ob.len() && ob[t] == v;
            assert(ob.push(mv)[t] == v);
        }
    }
}

} // verus!
