//! The identity registry and connection bridge.
//!
//! Every connected client holds one registry entry: a unique positive id, a
//! FIFO inbound queue (codec to state machine) and a FIFO outbound queue
//! (state machine to codec), created and destroyed together.  Identities are
//! drawn from the bounded space `1..=MAX_CLIENT_ID` by random probing with
//! retry on collision; allocation fails only when the space is exhausted.

use vstd::prelude::*;
use vstd::seq_lib::seq_to_set_is_finite;
use vstd::set_lib::lemma_int_range;
use vstd::set_lib::lemma_len_subset;
use vstd::set_lib::set_int_range;

use rand::Rng;

use crate::message::Message;
use crate::message::MessageView;

verus! {

/// The highest client id the registry hands out; the id space is
/// `1..=MAX_CLIENT_ID`.
pub const MAX_CLIENT_ID: i32 = 1000;

/// The mathematical content of one registry entry.
#[verifier::ext_equal]
pub ghost struct UserEntryModel {
    pub id: i32,
    pub inbound: Seq<MessageView>,
    pub outbound: Seq<MessageView>,
}

/// One connected client: its id and its two queues.
pub struct UserEntry {
    id: i32,
    inbound: Vec<Message>,
    outbound: Vec<Message>,
}

impl View for UserEntry {
    type V = UserEntryModel;

    closed spec fn view(&self) -> UserEntryModel {
        UserEntryModel {
            id: self.id,
            inbound: self.inbound@.map_values(|m: Message| m@),
            outbound: self.outbound@.map_values(|m: Message| m@),
        }
    }
}

/// The ids of a sequence of entries, in entry order.
pub open spec fn ids_of(s: Seq<UserEntryModel>) -> Seq<i32> {
    s.map_values(|e: UserEntryModel| e.id)
}

/// The first index holding the given id, or -1 when none does.
pub open spec fn idx_of(s: Seq<UserEntryModel>, id: i32) -> int
    decreases s.len(),
{
    if s.len() == 0 {
        -1
    } else if s[0].id == id {
        0
    } else {
        let r = idx_of(s.drop_first(), id);
        if r < 0 {
            -1
        } else {
            r + 1
        }
    }
}

/// `idx_of` finds exactly the ids that are present.
pub proof fn lemma_idx_of(s: Seq<UserEntryModel>, id: i32)
    ensures
        ids_of(s).contains(id) ==> 0 <= idx_of(s, id) < s.len() && s[idx_of(s, id)].id == id,
        !ids_of(s).contains(id) ==> idx_of(s, id) == -1,
    decreases s.len(),
{
    if s.len() > 0 {
        lemma_idx_of(s.drop_first(), id);
        assert(ids_of(s.drop_first()) =~= ids_of(s).drop_first());
        if s[0].id == id {
            assert(ids_of(s)[0] == id);
        } else {
            assert(ids_of(s).contains(id) <==> ids_of(s).drop_first().contains(id)) by {
                if ids_of(s).contains(id) {
                    let i = choose|i: int| 0 <= i < ids_of(s).len() && ids_of(s)[i] == id;
                    assert(ids_of(s).drop_first()[i - 1] == id);
                }
                if ids_of(s).drop_first().contains(id) {
                    let i = choose|i: int|
                        0 <= i < ids_of(s).drop_first().len() && ids_of(s).drop_first()[i] == id;
                    assert(ids_of(s)[i + 1] == id);
                }
            }
        }
    }
}

/// Ids are unique and drawn from the bounded space: what holds of every
/// registry's entries.
pub open spec fn wf_entries(s: Seq<UserEntryModel>) -> bool {
    (forall|i: int, j: int| 0 <= i < j < s.len() ==> #[trigger] s[i].id != #[trigger] s[j].id)
        && (forall|i: int| 0 <= i < s.len() ==> 1 <= (#[trigger] s[i].id) <= MAX_CLIENT_ID)
}

/// The registry: the connected set with one bridge entry per client.
pub struct Users {
    entries: Vec<UserEntry>,
}

impl View for Users {
    type V = Seq<UserEntryModel>;

    closed spec fn view(&self) -> Seq<UserEntryModel> {
        self.entries@.map_values(|e: UserEntry| e@)
    }
}

impl Users {
    /// The connected ids, in registration order.
    pub open spec fn ids(&self) -> Seq<i32> {
        ids_of(self@)
    }

    /// Whether the given id is connected.
    pub open spec fn has(&self, id: i32) -> bool {
        self.ids().contains(id)
    }

    /// The inbound queue of a connected id.
    pub open spec fn inbound_of(&self, id: i32) -> Seq<MessageView>
        recommends
            self.has(id),
    {
        self@[idx_of(self@, id)].inbound
    }

    /// The outbound queue of a connected id.
    pub open spec fn outbound_of(&self, id: i32) -> Seq<MessageView>
        recommends
            self.has(id),
    {
        self@[idx_of(self@, id)].outbound
    }

    /// Ids are unique and drawn from the bounded space.
    pub open spec fn wf(&self) -> bool {
        wf_entries(self@)
    }

    /// An empty registry.
    pub fn new() -> (r: Users)
        ensures
            r.wf(),
            r@ == Seq::<UserEntryModel>::empty(),
    {
        let r = Users { entries: Vec::new() };
        proof {
            assert(r@ =~= Seq::<UserEntryModel>::empty());
        }
        r
    }

    /// How many clients are connected.
    pub fn count(&self) -> (r: usize)
        ensures
            r == self@.len(),
    {
        self.entries.len()
    }

    /// The connected ids, in registration order: the snapshot the phases
    /// diff their sub-state against.
    pub fn ids_vec(&self) -> (r: Vec<i32>)
        ensures
            r@ == self.ids(),
    {
        let mut r: Vec<i32> = Vec::new();
        let n = self.entries.len();
        let mut i: usize = 0;
        while i < n
            invariant
                n == self.entries@.len(),
                i <= n,
                r@ =~= self.ids().subrange(0, i as int),
            decreases n - i,
        {
            r.push(self.entries[i].id);
            proof {
                assert(r@ =~= self.ids().subrange(0, i + 1));
            }
            i = i + 1;
        }
        proof {
            assert(self.ids().subrange(0, n as int) =~= self.ids());
        }
        r
    }

    /// The index of the entry holding the given id, `None` when it is not
    /// connected.
    fn find_index(&self, id: i32) -> (r: Option<usize>)
        requires
            self.wf(),
        ensures
            match r {
                Some(k) => self.has(id) && k == idx_of(self@, id) && k < self@.len()
                    && self@[k as int].id == id,
                None => !self.has(id),
            },
    {
        let n = self.entries.len();
        let mut i: usize = 0;
        while i < n
            invariant
                n == self.entries@.len(),
                i <= n,
                self.wf(),
                forall|j: int| 0 <= j < i ==> (#[trigger] self@[j].id) != id,
            decreases n - i,
        {
            if self.entries[i].id == id {
                proof {
                    assert(ids_of(self@)[i as int] == id);
                    lemma_idx_of(self@, id);
                    let k = idx_of(self@, id);
                    assert(self@[k].id == id);
                    assert(k == i);
                }
                return Some(i);
            }
            i = i + 1;
        }
        proof {
            if self.has(id) {
                let j = choose|j: int| 0 <= j < self.ids().len() && self.ids()[j] == id;
                assert(self@[j].id == id);
            }
        }
        None
    }

    /// Whether the given id is connected.
    pub fn has_user(&self, id: i32) -> (r: bool)
        requires
            self.wf(),
        ensures
            r == self.has(id),
    {
        match self.find_index(id) {
            Some(_) => true,
            None => false,
        }
    }

    /// Registers a fresh id with empty queues, at the end of the roster.
    fn add_entry(&mut self, id: i32)
        requires
            old(self).wf(),
            !old(self).has(id),
            1 <= id <= MAX_CLIENT_ID,
        ensures
            final(self).wf(),
            final(self)@ == old(self)@ + seq![
                (UserEntryModel { id, inbound: Seq::empty(), outbound: Seq::empty() }),
            ],
    {
        let e = UserEntry { id, inbound: Vec::new(), outbound: Vec::new() };
        proof {
            assert(e@ == (UserEntryModel {
                id,
                inbound: Seq::<MessageView>::empty(),
                outbound: Seq::<MessageView>::empty(),
            })) by {
                assert(e.inbound@.map_values(|m: Message| m@) =~= Seq::<MessageView>::empty());
                assert(e.outbound@.map_values(|m: Message| m@) =~= Seq::<MessageView>::empty());
            }
        }
        self.entries.push(e);
        proof {
            assert(self@ =~= old(self)@ + seq![e@]);
            assert forall|i: int, j: int| 0 <= i < j < self@.len() implies (#[trigger] self@[i].id)
                != (#[trigger] self@[j].id) by {
                if j == self@.len() - 1 {
                    if self@[i].id == id {
                        assert(ids_of(old(self)@)[i] == id);
                    }
                }
            }
        }
    }

    /// Removes the given id's entry and queues together; removing an absent
    /// id is a no-op, so release is idempotent.
    pub fn release(&mut self, id: i32)
        requires
            old(self).wf(),
        ensures
            final(self).wf(),
            old(self).has(id) ==> final(self)@ == old(self)@.remove(idx_of(old(self)@, id)),
            !old(self).has(id) ==> final(self)@ == old(self)@,
    {
        match self.find_index(id) {
            Some(k) => {
                self.entries.remove(k);
                proof {
                    assert(self@ =~= old(self)@.remove(k as int));
                    assert forall|i: int, j: int|
                        0 <= i < j < self@.len() implies (#[trigger] self@[i].id) != (
                    #[trigger] self@[j].id) by {
                        let oi = if i < k {
                            i
                        } else {
                            i + 1
                        };
                        let oj = if j < k {
                            j
                        } else {
                            j + 1
                        };
                        assert(old(self)@[oi].id != old(self)@[oj].id);
                    }
                }
            },
            None => {},
        }
    }

    /// Appends a message to a connected id's inbound queue: what a client's
    /// read pump does with each decoded message.
    pub fn push_inbound(&mut self, id: i32, m: Message)
        requires
            old(self).wf(),
        ensures
            final(self).wf(),
            old(self).has(id) ==> final(self)@ == old(self)@.update(
                idx_of(old(self)@, id),
                (UserEntryModel {
                    id,
                    inbound: old(self).inbound_of(id).push(m@),
                    outbound: old(self).outbound_of(id),
                }),
            ),
            !old(self).has(id) ==> final(self)@ == old(self)@,
    {
        match self.find_index(id) {
            Some(k) => {
                let mut e = self.entries.remove(k);
                e.inbound.push(m);
                proof {
                    assert(e@.inbound =~= old(self).inbound_of(id).push(m@));
                }
                self.entries.insert(k, e);
                proof {
                    lemma_update_entry(old(self)@, self@, k as int, e@);
                }
            },
            None => {},
        }
    }

    /// Appends a message to a connected id's outbound queue; sending to a
    /// removed id is a silent no-op.
    pub fn send_to(&mut self, id: i32, m: Message)
        requires
            old(self).wf(),
        ensures
            final(self).wf(),
            old(self).has(id) ==> final(self)@ == old(self)@.update(
                idx_of(old(self)@, id),
                (UserEntryModel {
                    id,
                    inbound: old(self).inbound_of(id),
                    outbound: old(self).outbound_of(id).push(m@),
                }),
            ),
            !old(self).has(id) ==> final(self)@ == old(self)@,
    {
        match self.find_index(id) {
            Some(k) => {
                let mut e = self.entries.remove(k);
                e.outbound.push(m);
                proof {
                    assert(e@.outbound =~= old(self).outbound_of(id).push(m@));
                }
                self.entries.insert(k, e);
                proof {
                    lemma_update_entry(old(self)@, self@, k as int, e@);
                }
            },
            None => {},
        }
    }

    /// Takes everything currently in a connected id's inbound queue, in
    /// arrival order, leaving the queue empty: the exhaustive non-blocking
    /// drain the io-exchange performs.  An absent id yields nothing.
    pub fn drain_inbound(&mut self, id: i32) -> (r: Vec<Message>)
        requires
            old(self).wf(),
        ensures
            final(self).wf(),
            old(self).has(id) ==> r@.map_values(|m: Message| m@) == old(self).inbound_of(id)
                && final(self)@ == old(self)@.update(
                idx_of(old(self)@, id),
                (UserEntryModel {
                    id,
                    inbound: Seq::empty(),
                    outbound: old(self).outbound_of(id),
                }),
            ),
            !old(self).has(id) ==> r@.len() == 0 && final(self)@ == old(self)@,
    {
        match self.find_index(id) {
            Some(k) => {
                let mut e = self.entries.remove(k);
                let r = e.inbound;
                e.inbound = Vec::new();
                proof {
                    assert(e@.inbound =~= Seq::<MessageView>::empty());
                }
                self.entries.insert(k, e);
                proof {
                    lemma_update_entry(old(self)@, self@, k as int, e@);
                }
                r
            },
            None => Vec::new(),
        }
    }

    /// Takes everything currently in a connected id's outbound queue, in
    /// enqueue order, leaving the queue empty: what a client's write pump
    /// sends down the socket.  An absent id yields nothing.
    pub fn drain_outbound(&mut self, id: i32) -> (r: Vec<Message>)
        requires
            old(self).wf(),
        ensures
            final(self).wf(),
            old(self).has(id) ==> r@.map_values(|m: Message| m@) == old(self).outbound_of(id)
                && final(self)@ == old(self)@.update(
                idx_of(old(self)@, id),
                (UserEntryModel {
                    id,
                    inbound: old(self).inbound_of(id),
                    outbound: Seq::empty(),
                }),
            ),
            !old(self).has(id) ==> r@.len() == 0 && final(self)@ == old(self)@,
    {
        match self.find_index(id) {
            Some(k) => {
                let mut e = self.entries.remove(k);
                let r = e.outbound;
                e.outbound = Vec::new();
                proof {
                    assert(e@.outbound =~= Seq::<MessageView>::empty());
                }
                self.entries.insert(k, e);
                proof {
                    lemma_update_entry(old(self)@, self@, k as int, e@);
                }
                r
            },
            None => Vec::new(),
        }
    }
}

/// What `send_to` leaves of the bridge: the message appended to the id's
/// outbound queue, or everything unchanged when the id is not connected.
pub open spec fn spec_send_to(s: Seq<UserEntryModel>, id: i32, mv: MessageView) -> Seq<
    UserEntryModel,
> {
    if ids_of(s).contains(id) {
        let k = idx_of(s, id);
        s.update(k, (UserEntryModel { id, inbound: s[k].inbound, outbound: s[k].outbound.push(mv) }))
    } else {
        s
    }
}

/// Sending one message to each listed id in order.
pub open spec fn spec_send_to_each(s: Seq<UserEntryModel>, ids: Seq<i32>, mv: MessageView) -> Seq<
    UserEntryModel,
>
    decreases ids.len(),
{
    if ids.len() == 0 {
        s
    } else {
        spec_send_to(spec_send_to_each(s, ids.drop_last(), mv), ids.last(), mv)
    }
}

/// What `drain_inbound` leaves of the bridge: the id's inbound queue
/// emptied, or everything unchanged when the id is not connected.
pub open spec fn spec_drain_one(s: Seq<UserEntryModel>, id: i32) -> Seq<UserEntryModel> {
    if ids_of(s).contains(id) {
        let k = idx_of(s, id);
        s.update(k, (UserEntryModel { id, inbound: Seq::empty(), outbound: s[k].outbound }))
    } else {
        s
    }
}

/// Draining the inbound queue of each listed id in order.
pub open spec fn spec_drain_each(s: Seq<UserEntryModel>, ids: Seq<i32>) -> Seq<UserEntryModel>
    decreases ids.len(),
{
    if ids.len() == 0 {
        s
    } else {
        spec_drain_one(spec_drain_each(s, ids.drop_last()), ids.last())
    }
}

/// An iterator over the messages drained from one client's inbound queue,
/// in arrival order; a client with no queue yields nothing.
pub struct OptTryIterator {
    msgs: Vec<Message>,
    pos: usize,
}

impl View for OptTryIterator {
    type V = Seq<MessageView>;

    /// The messages still to be yielded, in order.
    closed spec fn view(&self) -> Seq<MessageView> {
        self.msgs@.map_values(|m: Message| m@).skip(self.pos as int)
    }
}

impl OptTryIterator {
    /// The cursor stands inside the drained batch.
    pub closed spec fn wf(&self) -> bool {
        self.pos <= self.msgs@.len()
    }

    /// Yields the next drained message, front first.
    pub fn next_msg(&mut self) -> (r: Option<Message>)
        requires
            old(self).wf(),
        ensures
            final(self).wf(),
            old(self)@.len() == 0 ==> r is None && final(self)@ == old(self)@,
            old(self)@.len() > 0 ==> (r matches Some(m) && m@ == old(self)@.first()
                && final(self)@ == old(self)@.drop_first()),
    {
        if self.pos < self.msgs.len() {
            let m = self.msgs[self.pos].duplicate();
            self.pos = self.pos + 1;
            proof {
                let all = self.msgs@.map_values(|x: Message| x@);
                assert(all.skip(self.pos as int) =~= all.skip(self.pos - 1).drop_first());
            }
            Some(m)
        } else {
            proof {
                assert(old(self)@.len() == 0);
            }
            None
        }
    }
}

/// Drains a client's inbound queue into an iterator, as the io-exchange of a
/// phase consumes it: everything currently queued, in arrival order, and the
/// queue left empty; an id with no bridge entry yields an empty iterator.
pub fn receiver(users: &mut Users, user: i32) -> (r: OptTryIterator)
    requires
        old(users).wf(),
    ensures
        final(users).wf(),
        r.wf(),
        old(users).has(user) ==> r@ == old(users).inbound_of(user) && final(users)@ == old(
            users,
        )@.update(
            idx_of(old(users)@, user),
            (UserEntryModel {
                id: user,
                inbound: Seq::empty(),
                outbound: old(users).outbound_of(user),
            }),
        ),
        !old(users).has(user) ==> r@.len() == 0 && final(users)@ == old(users)@,
{
    let msgs = users.drain_inbound(user);
    let r = OptTryIterator { msgs, pos: 0 };
    proof {
        assert(r@ =~= r.msgs@.map_values(|m: Message| m@));
    }
    r
}

/// Relies on `rand::thread_rng` and `Rng::gen_range`: a sample from the
/// non-empty inclusive range `1..=MAX_CLIENT_ID` lies within it.
#[verifier::external_body]
fn random_candidate_id() -> (r: i32)
    ensures
        1 <= r <= MAX_CLIENT_ID,
{
    rand::thread_rng().gen_range(1..=MAX_CLIENT_ID)
}

/// Picks an unused id from the bounded space by random probing with retry on
/// collision, falling back to the lowest free id, and registers it: the
/// returned id is never one currently held by another connected client.
pub fn insert_user(users: &mut Users) -> (r: i32)
    requires
        old(users).wf(),
        old(users)@.len() < MAX_CLIENT_ID,
    ensures
        final(users).wf(),
        1 <= r <= MAX_CLIENT_ID,
        !old(users).has(r),
        final(users)@ == old(users)@ + seq![
            (UserEntryModel { id: r, inbound: Seq::empty(), outbound: Seq::empty() }),
        ],
{
    let mut attempts: usize = 0;
    while attempts < 64
        invariant
            old(users).wf(),
            *users == *old(users),
        decreases 64 - attempts,
    {
        let cand = random_candidate_id();
        if !users.has_user(cand) {
            users.add_entry(cand);
            return cand;
        }
        attempts = attempts + 1;
    }
    let mut id: i32 = 1;
    while id <= MAX_CLIENT_ID
        invariant
            old(users).wf(),
            old(users)@.len() < MAX_CLIENT_ID,
            *users == *old(users),
            1 <= id <= MAX_CLIENT_ID + 1,
            forall|j: i32| 1 <= j < id ==> #[trigger] ids_of(old(users)@).contains(j),
        decreases MAX_CLIENT_ID + 1 - id,
    {
        if !users.has_user(id) {
            users.add_entry(id);
            return id;
        }
        id = id + 1;
    }
    proof {
        lemma_id_space_exhausted(old(users)@);
    }
    vstd::pervasive::unreached()
}

/// A registry whose ids are unique, lie in `1..=MAX_CLIENT_ID`, and cover
/// that whole space must hold at least `MAX_CLIENT_ID` entries: the
/// pigeonhole fact behind the fallback scan always finding a free id.
proof fn lemma_id_space_exhausted(s: Seq<UserEntryModel>)
    requires
        forall|i: int, j: int| 0 <= i < j < s.len() ==> #[trigger] s[i].id != #[trigger] s[j].id,
        forall|j: i32|
            1 <= j <= MAX_CLIENT_ID ==> #[trigger] ids_of(s).contains(j),
    ensures
        s.len() >= MAX_CLIENT_ID,
{
    let ids = ids_of(s);
    let ints = ids.map_values(|x: i32| x as int);
    let range = set_int_range(1, MAX_CLIENT_ID as int + 1);
    assert forall|v: int| range.contains(v) implies ints.to_set().contains(v) by {
        assert(ids.contains(v as i32));
        let i = choose|i: int| 0 <= i < ids.len() && ids[i] == v as i32;
        assert(ints[i] == v);
        assert(ints.to_set().contains(ints[i]));
    }
    seq_to_set_is_finite(ints);
    lemma_len_subset(range, ints.to_set());
    lemma_int_range(1, MAX_CLIENT_ID as int + 1);
    ints.lemma_cardinality_of_set();
}

/// Creates a registry entry for a newly accepted socket: allocates an
/// identity and its empty queue pair together.  `None` exactly when the id
/// space is exhausted: the caller must then reject the connection rather
/// than fault.
pub fn add_user_to_users(users: &mut Users) -> (r: Option<i32>)
    requires
        old(users).wf(),
    ensures
        final(users).wf(),
        r is Some <==> old(users)@.len() < MAX_CLIENT_ID,
        r matches Some(id) ==> 1 <= id <= MAX_CLIENT_ID && !old(users).has(id) && final(users)@
            == old(users)@ + seq![
            (UserEntryModel { id, inbound: Seq::empty(), outbound: Seq::empty() }),
        ],
        r is None ==> final(users)@ == old(users)@,
{
    let n = users.count();
    if n >= 1000 {
        proof {
            assert(old(users)@.len() >= MAX_CLIENT_ID);
        }
        return None;
    }
    Some(insert_user(users))
}

/// A released id is held by nobody, so a later allocation may hand it out
/// again: the connected set after removal no longer contains it.
pub proof fn lemma_release_frees_id(before: Seq<UserEntryModel>, id: i32)
    requires
        forall|i: int, j: int|
            0 <= i < j < before.len() ==> #[trigger] before[i].id != #[trigger] before[j].id,
        ids_of(before).contains(id),
    ensures
        !ids_of(before.remove(idx_of(before, id))).contains(id),
{
    lemma_idx_of(before, id);
    let k = idx_of(before, id);
    let after = before.remove(k);
    if ids_of(after).contains(id) {
        let i = choose|i: int| 0 <= i < ids_of(after).len() && ids_of(after)[i] == id;
        let oi = if i < k {
            i
        } else {
            i + 1
        };
        assert(before[oi].id == id);
        assert(before[k].id == id);
    }
}


/// The inbound queue the bridge holds for an id, or nothing for an absent
/// id.
pub open spec fn inbox_of(entries: Seq<UserEntryModel>, id: i32) -> Seq<MessageView> {
    if ids_of(entries).contains(id) {
        entries[idx_of(entries, id)].inbound
    } else {
        Seq::empty()
    }
}

/// The outbound queue the bridge holds for an id, or nothing for an absent
/// id.
pub open spec fn outbox_of(entries: Seq<UserEntryModel>, id: i32) -> Seq<MessageView> {
    if ids_of(entries).contains(id) {
        entries[idx_of(entries, id)].outbound
    } else {
        Seq::empty()
    }
}

/// Two entry sequences with the same ids at the same places are searched
/// alike.
pub proof fn lemma_idx_of_same_ids(s1: Seq<UserEntryModel>, s2: Seq<UserEntryModel>, id: i32)
    requires
        s1.len() == s2.len(),
        forall|i: int| 0 <= i < s1.len() ==> (#[trigger] s1[i]).id == (#[trigger] s2[i]).id,
    ensures
        idx_of(s1, id) == idx_of(s2, id),
    decreases s1.len(),
{
    if s1.len() > 0 {
        assert(s1[0].id == s2[0].id);
        assert forall|i: int|
            0 <= i < s1.drop_first().len() implies (#[trigger] s1.drop_first()[i]).id == (
        #[trigger] s2.drop_first()[i]).id by {
            assert(s1.drop_first()[i] == s1[i + 1]);
            assert(s2.drop_first()[i] == s2[i + 1]);
        }
        lemma_idx_of_same_ids(s1.drop_first(), s2.drop_first(), id);
    }
}

/// An update that keeps an entry's id keeps every id and every search
/// result.
pub proof fn lemma_update_keeps_ids(s: Seq<UserEntryModel>, k: int, e: UserEntryModel, id: i32)
    requires
        0 <= k < s.len(),
        s[k].id == e.id,
    ensures
        ids_of(s.update(k, e)) == ids_of(s),
        idx_of(s.update(k, e), id) == idx_of(s, id),
{
    assert(ids_of(s.update(k, e)) =~= ids_of(s));
    lemma_idx_of_same_ids(s.update(k, e), s, id);
}

/// Sending to one id never touches any inbound queue, keeps every id, and
/// touches no other id's outbound queue; the target's outbound gains the
/// message.
pub proof fn lemma_send_to_effect(e: Seq<UserEntryModel>, a: i32, mv: MessageView, b: i32)
    requires
        forall|i: int, j: int| 0 <= i < j < e.len() ==> #[trigger] e[i].id != #[trigger] e[j].id,
    ensures
        ids_of(spec_send_to(e, a, mv)) == ids_of(e),
        inbox_of(spec_send_to(e, a, mv), b) == inbox_of(e, b),
        a != b ==> outbox_of(spec_send_to(e, a, mv), b) == outbox_of(e, b),
        a == b && ids_of(e).contains(a) ==> outbox_of(spec_send_to(e, a, mv), a) == outbox_of(
            e,
            a,
        ).push(mv),
{
    if ids_of(e).contains(a) {
        lemma_idx_of(e, a);
        let k = idx_of(e, a);
        let e2 = (UserEntryModel { id: a, inbound: e[k].inbound, outbound: e[k].outbound.push(mv) });
        lemma_update_keeps_ids(e, k, e2, b);
        lemma_update_keeps_ids(e, k, e2, a);
        if ids_of(e).contains(b) {
            lemma_idx_of(e, b);
            if a != b {
                assert(e[idx_of(e, b)].id == b);
                assert(idx_of(e, b) != k);
            }
        }
    }
}

/// Draining one id never touches any outbound queue, keeps every id, and
/// touches no other id's inbound queue.
pub proof fn lemma_drain_one_effect(e: Seq<UserEntryModel>, a: i32, b: i32)
    requires
        forall|i: int, j: int| 0 <= i < j < e.len() ==> #[trigger] e[i].id != #[trigger] e[j].id,
    ensures
        ids_of(spec_drain_one(e, a)) == ids_of(e),
        outbox_of(spec_drain_one(e, a), b) == outbox_of(e, b),
        a != b ==> inbox_of(spec_drain_one(e, a), b) == inbox_of(e, b),
{
    if ids_of(e).contains(a) {
        lemma_idx_of(e, a);
        let k = idx_of(e, a);
        let e2 = (UserEntryModel { id: a, inbound: Seq::empty(), outbound: e[k].outbound });
        lemma_update_keeps_ids(e, k, e2, b);
        if ids_of(e).contains(b) {
            lemma_idx_of(e, b);
            if a != b {
                assert(e[idx_of(e, b)].id == b);
                assert(idx_of(e, b) != k);
            }
        }
    }
}

/// Uniqueness of ids carries through a send or a drain.
pub proof fn lemma_queue_op_keeps_unique(e: Seq<UserEntryModel>, e2: Seq<UserEntryModel>)
    requires
        forall|i: int, j: int| 0 <= i < j < e.len() ==> #[trigger] e[i].id != #[trigger] e[j].id,
        ids_of(e2) == ids_of(e),
    ensures
        forall|i: int, j: int| 0 <= i < j < e2.len() ==> #[trigger] e2[i].id != #[trigger] e2[j].id,
{
    assert(ids_of(e2).len() == e2.len());
    assert(ids_of(e).len() == e.len());
    assert forall|i: int, j: int|
        0 <= i < j < e2.len() implies (#[trigger] e2[i].id) != (#[trigger] e2[j].id) by {
        assert(ids_of(e2)[i] == e2[i].id && ids_of(e2)[j] == e2[j].id);
        assert(ids_of(e)[i] == e[i].id && ids_of(e)[j] == e[j].id);
    }
}

/// Well-formedness follows the ids: entries with the same ids in the same
/// places as a well-formed registry are well-formed.
pub proof fn lemma_same_ids_keep_wf(e: Seq<UserEntryModel>, e2: Seq<UserEntryModel>)
    requires
        wf_entries(e),
        ids_of(e2) == ids_of(e),
    ensures
        wf_entries(e2),
{
    lemma_queue_op_keeps_unique(e, e2);
    assert(ids_of(e2).len() == e2.len());
    assert(ids_of(e).len() == e.len());
    assert forall|i: int| 0 <= i < e2.len() implies 1 <= (#[trigger] e2[i].id)
        <= MAX_CLIENT_ID by {
        assert(ids_of(e2)[i] == e2[i].id);
        assert(ids_of(e)[i] == e[i].id);
    }
}

/// Sending one message to each listed id, each id listed at most once,
/// appends it to exactly the listed clients' outbound queues and touches
/// nothing else.
pub proof fn lemma_send_each_effect(
    e: Seq<UserEntryModel>,
    ids: Seq<i32>,
    mv: MessageView,
    b: i32,
)
    requires
        forall|i: int, j: int| 0 <= i < j < e.len() ==> #[trigger] e[i].id != #[trigger] e[j].id,
        ids.no_duplicates(),
    ensures
        ids_of(spec_send_to_each(e, ids, mv)) == ids_of(e),
        inbox_of(spec_send_to_each(e, ids, mv), b) == inbox_of(e, b),
        !ids.contains(b) ==> outbox_of(spec_send_to_each(e, ids, mv), b) == outbox_of(e, b),
        ids.contains(b) && ids_of(e).contains(b) ==> outbox_of(spec_send_to_each(e, ids, mv), b)
            == outbox_of(e, b).push(mv),
    decreases ids.len(),
{
    if ids.len() > 0 {
        let pre = ids.drop_last();
        assert(pre.no_duplicates());
        lemma_send_each_effect(e, pre, mv, b);
        lemma_send_each_effect(e, pre, mv, ids.last());
        let mid = spec_send_to_each(e, pre, mv);
        lemma_queue_op_keeps_unique(e, mid);
        lemma_send_to_effect(mid, ids.last(), mv, b);
        if ids.contains(b) {
            let t = choose|t: int| 0 <= t < ids.len() && ids[t] == b;
            if b == ids.last() {
                if pre.contains(b) {
                    let w = choose|w: int| 0 <= w < pre.len() && pre[w] == b;
                    assert(ids[w] == ids[ids.len() - 1]);
                    assert(false);
                }
            } else {
                assert(pre[t] == b);
                assert(pre.contains(b));
            }
        }
    }
}

/// Draining each listed id never touches any outbound queue and keeps every
/// id.
pub proof fn lemma_drain_each_effect(e: Seq<UserEntryModel>, ids: Seq<i32>, b: i32)
    requires
        forall|i: int, j: int| 0 <= i < j < e.len() ==> #[trigger] e[i].id != #[trigger] e[j].id,
    ensures
        ids_of(spec_drain_each(e, ids)) == ids_of(e),
        outbox_of(spec_drain_each(e, ids), b) == outbox_of(e, b),
    decreases ids.len(),
{
    if ids.len() > 0 {
        lemma_drain_each_effect(e, ids.drop_last(), b);
        let mid = spec_drain_each(e, ids.drop_last());
        lemma_queue_op_keeps_unique(e, mid);
        lemma_drain_one_effect(mid, ids.last(), b);
    }
}

/// Removing an entry and re-inserting its replacement at the same index is
/// an update; uniqueness of the other ids carries over when the replacement
/// keeps the id.
proof fn lemma_update_entry(
    before: Seq<UserEntryModel>,
    after: Seq<UserEntryModel>,
    k: int,
    e: UserEntryModel,
)
    requires
        0 <= k < before.len(),
        after =~= before.remove(k).insert(k, e),
    ensures
        after == before.update(k, e),
{
    assert(after =~= before.update(k, e));
}

} // verus!
