//! The chat ledger.
//!
//! Broadcast text accumulates in a pending list; `commit` moves the pending
//! entries into the permanent log and hands back the batch as one incremental
//! `ChatUpdate`; `whole_chat_state` encodes the full permanent log, used once
//! to backfill a client right after handshake acceptance.

use vstd::prelude::*;
use vstd::utf8::encode_utf8;

use crate::message::i32_le;
use crate::message::parse_counted_texts;
use crate::message::spec_parse_texts;
use crate::message::str_field;
use crate::message::Message;
use crate::message::MessageType;

verus! {

/// The mathematical content of a `Chat`: the committed log and the entries
/// pending since the last commit, each an author and a text, oldest first.
#[verifier::ext_equal]
pub ghost struct ChatModel {
    pub log: Seq<(i32, Seq<char>)>,
    pub pending: Seq<(i32, Seq<char>)>,
}

/// The bytes one chat entry contributes to a `ChatUpdate` payload: the text
/// as a string field, then the author id.
pub open spec fn chat_pair_bytes(e: (i32, Seq<char>)) -> Seq<u8> {
    str_field(e.1) + i32_le(e.0)
}

/// The pair bytes of a `ChatUpdate` payload: entries are written newest
/// first, so on the byte stack the newest entry lies deepest-to-front and a
/// reader popping fields sees oldest first.
pub open spec fn chat_bytes(s: Seq<(i32, Seq<char>)>) -> Seq<u8>
    decreases s.len(),
{
    if s.len() == 0 {
        Seq::empty()
    } else {
        chat_pair_bytes(s.last()) + chat_bytes(s.drop_last())
    }
}

/// A whole `ChatUpdate` payload: the pair bytes, then the entry count as one
/// byte (the count wraps past 255, as one byte must).
pub open spec fn chat_update_bytes(s: Seq<(i32, Seq<char>)>) -> Seq<u8> {
    chat_bytes(s) + seq![((s.len() % 256) as u8)]
}

/// Splitting the first (oldest) entry off the pair bytes: it lies at the
/// tail of the byte stack, so it pops first.
pub proof fn lemma_chat_bytes_first(s: Seq<(i32, Seq<char>)>)
    requires
        s.len() > 0,
    ensures
        chat_bytes(s) == chat_bytes(s.drop_first()) + chat_pair_bytes(s.first()),
    decreases s.len(),
{
    if s.len() == 1 {
        assert(s.drop_first() =~= Seq::<(i32, Seq<char>)>::empty());
        assert(s.drop_last() =~= Seq::<(i32, Seq<char>)>::empty());
        assert(chat_bytes(s) =~= chat_bytes(s.drop_first()) + chat_pair_bytes(s.first()));
    } else {
        lemma_chat_bytes_first(s.drop_last());
        assert(s.drop_last().drop_first() =~= s.drop_first().drop_last());
        assert(s.drop_last().first() == s.first());
        assert(s.drop_first().last() == s.last());
        assert((chat_pair_bytes(s.last()) + chat_bytes(s.drop_last().drop_first()))
            + chat_pair_bytes(s.first()) =~= chat_pair_bytes(s.last()) + (chat_bytes(
            s.drop_last().drop_first(),
        ) + chat_pair_bytes(s.first())));
        assert(chat_bytes(s) =~= chat_bytes(s.drop_first()) + chat_pair_bytes(s.first()));
    }
}

/// Every text in the sequence has a UTF-8 byte count that fits the 32-bit
/// length field of a string field.
pub open spec fn texts_fit(s: Seq<(i32, Seq<char>)>) -> bool {
    forall|i: int| 0 <= i < s.len() ==> encode_utf8(#[trigger] s[i].1).len() <= u32::MAX
}

/// The given texts as chat entries credited to one author, in order.
pub open spec fn credited(user: i32, ts: Seq<Seq<char>>) -> Seq<(i32, Seq<char>)> {
    ts.map_values(|t: Seq<char>| (user, t))
}

/// The chat ledger: committed history and pending-since-last-flush entries.
pub struct Chat {
    messages: Vec<(i32, String)>,
    new_messages: Vec<(i32, String)>,
}

impl View for Chat {
    type V = ChatModel;

    closed spec fn view(&self) -> ChatModel {
        ChatModel {
            log: self.messages@.map_values(|e: (i32, String)| (e.0, e.1@)),
            pending: self.new_messages@.map_values(|e: (i32, String)| (e.0, e.1@)),
        }
    }
}

impl Chat {
    /// Every held text fits a string field's 32-bit length; all entries come
    /// in through `append`, which only takes such texts.
    pub open spec fn wf(&self) -> bool {
        texts_fit(self@.log) && texts_fit(self@.pending)
    }

    /// An empty ledger.
    pub fn new() -> (r: Chat)
        ensures
            r.wf(),
            r@.log == Seq::<(i32, Seq<char>)>::empty(),
            r@.pending == Seq::<(i32, Seq<char>)>::empty(),
    {
        let r = Chat { messages: Vec::new(), new_messages: Vec::new() };
        proof {
            assert(r@.log =~= Seq::<(i32, Seq<char>)>::empty());
            assert(r@.pending =~= Seq::<(i32, Seq<char>)>::empty());
        }
        r
    }

    /// Appends the texts of one `ChatUpdate` payload to the pending list,
    /// credited to the given author, in the order they pop.  A malformed
    /// payload leaves the ledger unchanged: the offending message is dropped,
    /// never a fault.
    pub fn append(&mut self, user: i32, message: Message)
        requires
            old(self).wf(),
        ensures
            final(self).wf(),
            final(self)@.log == old(self)@.log,
            match spec_parse_texts(message@.data) {
                Some(ts) => final(self)@.pending == old(self)@.pending + credited(user, ts),
                None => final(self)@.pending == old(self)@.pending,
            },
    {
        let texts = match parse_counted_texts(message) {
            None => {
                return ;
            },
            Some(v) => v,
        };
        let ghost ts = texts@.map_values(|s: String| s@);
        let mut k: usize = 0;
        let n = texts.len();
        while k < n
            invariant
                n == texts@.len(),
                k <= n,
                ts == texts@.map_values(|s: String| s@),
                forall|j: int| 0 <= j < texts@.len() ==> encode_utf8(
                    #[trigger] texts@[j]@,
                ).len() <= u32::MAX,
                old(self).wf(),
                self@.log == old(self)@.log,
                texts_fit(self@.log),
                self@.pending == old(self)@.pending + credited(user, ts.subrange(0, k as int)),
                texts_fit(self@.pending),
            decreases n - k,
        {
            let ghost before_pending = self@.pending;
            let t = texts[k].clone();
            let ghost tv = t@;
            self.new_messages.push((user, t));
            proof {
                assert(tv == ts[k as int]);
                assert(self@.pending =~= before_pending + seq![(user, ts[k as int])]);
                assert(ts.subrange(0, k + 1) =~= ts.subrange(0, k as int) + seq![ts[k as int]]);
                assert(self@.pending =~= old(self)@.pending + credited(
                    user,
                    ts.subrange(0, k + 1),
                ));
            }
            k = k + 1;
        }
        proof {
            assert(ts.subrange(0, n as int) =~= ts);
        }
    }

    /// Whether any chat history has been committed yet.
    pub fn has_history(&self) -> (r: bool)
        ensures
            r == (self@.log.len() > 0),
    {
        self.messages.len() > 0
    }

    /// The full permanent log as one `ChatUpdate` message, newest entry
    /// foremost in the payload so a reader pops oldest first: used once to
    /// backfill a client right after handshake acceptance.
    pub fn whole_chat_state(&self) -> (r: Message)
        requires
            self.wf(),
        ensures
            r@.message_type == MessageType::ChatUpdate,
            r@.data == chat_update_bytes(self@.log),
    {
        encode_entries(&self.messages)
    }

    /// Moves the pending entries into the permanent log and returns them as
    /// one incremental `ChatUpdate`, or `None` when nothing is pending:
    /// called once per io-exchange, after inbound traffic is processed.
    pub fn commit(&mut self) -> (r: Option<Message>)
        requires
            old(self).wf(),
        ensures
            final(self).wf(),
            old(self)@.pending.len() == 0 ==> r is None && final(self)@ == old(self)@,
            old(self)@.pending.len() > 0 ==> (r matches Some(m) && m@.message_type
                == MessageType::ChatUpdate && m@.data == chat_update_bytes(old(self)@.pending)
                && final(self)@.log == old(self)@.log + old(self)@.pending
                && final(self)@.pending.len() == 0),
    {
        if self.new_messages.len() == 0 {
            proof {
                assert(old(self)@.pending.len() == 0);
            }
            return None;
        }
        let m = encode_entries(&self.new_messages);
        self.messages.append(&mut self.new_messages);
        proof {
            assert(self@.log =~= old(self)@.log + old(self)@.pending);
            assert(self@.pending =~= Seq::<(i32, Seq<char>)>::empty());
        }
        Some(m)
    }
}

/// The entries of an author/text vector, as the ledger's model sees them.
pub open spec fn entries_view(s: Seq<(i32, String)>) -> Seq<(i32, Seq<char>)> {
    s.map_values(|e: (i32, String)| (e.0, e.1@))
}

/// Builds one `ChatUpdate` message from the given entries, newest first,
/// count byte on top.
fn encode_entries(entries: &Vec<(i32, String)>) -> (r: Message)
    requires
        texts_fit(entries_view(entries@)),
    ensures
        r@.message_type == MessageType::ChatUpdate,
        r@.data == chat_update_bytes(entries_view(entries@)),
{
    let ghost ev = entries_view(entries@);
    let mut m = Message::new(MessageType::ChatUpdate);
    let n = entries.len();
    let mut i: usize = 0;
    while i < n
        invariant
            n == entries@.len(),
            i <= n,
            ev == entries_view(entries@),
            texts_fit(ev),
            m@.message_type == MessageType::ChatUpdate,
            m@.data == chat_bytes(ev.subrange(n - i, n as int)),
        decreases n - i,
    {
        let idx = n - 1 - i;
        let ghost before = m@.data;
        proof {
            assert(ev[idx as int] == (entries@[idx as int].0, entries@[idx as int].1@));
            assert(encode_utf8(ev[idx as int].1).len() <= u32::MAX);
        }
        m.push_string(entries[idx].1.as_str());
        m.push_i32(entries[idx].0);
        proof {
            let sub = ev.subrange(idx as int, n as int);
            lemma_chat_bytes_first(sub);
            assert(sub.drop_first() =~= ev.subrange(n - i, n as int));
            assert(sub.first() == ev[idx as int]);
            assert(before + str_field(ev[idx as int].1) + i32_le(ev[idx as int].0) =~= chat_bytes(
                sub,
            ));
        }
        i = i + 1;
    }
    proof {
        assert(ev.subrange(0, n as int) =~= ev);
    }
    m.push_u8((n % 256) as u8);
    m
}

} // verus!
