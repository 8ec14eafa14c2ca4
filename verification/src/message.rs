//! The wire protocol codec.
//!
//! A frame on the wire is `[type tag: 4 bytes][payload length: 4 bytes][payload]`,
//! all integers little-endian.  A message's payload is a byte stack: `push_*`
//! appends a field's raw bytes at the tail, `pop_*` removes from the tail, so
//! fields are read in the exact reverse of write order, and popping past the
//! available bytes yields `None`, never a fault.

use vstd::prelude::*;
use vstd::utf8::decode_utf8;
use vstd::utf8::encode_utf8;
use vstd::utf8::encode_utf8_decode_utf8;
use vstd::utf8::encode_utf8_valid_utf8;
use vstd::utf8::valid_utf8;

verus! {

/// The closed set of message types the protocol speaks.
#[derive(Copy, Clone, PartialEq, Eq, Structural, Debug)]
pub enum MessageType {
    ConnectionRequested,
    ConnectionAccepted,
    ConnectionRejected,
    UserStatusUpdate,
    ReadyToStartChanged,
    ReadyToStart,
    StubMessage,
    GameAboutToStart,
    GameStarting,
    ChatUpdate,
}

/// The wire tag of each message type.
pub open spec fn spec_tag(t: MessageType) -> u32 {
    match t {
        MessageType::ConnectionRequested => 1,
        MessageType::ConnectionAccepted => 2,
        MessageType::ConnectionRejected => 3,
        MessageType::UserStatusUpdate => 4,
        MessageType::ReadyToStartChanged => 5,
        MessageType::ReadyToStart => 6,
        MessageType::StubMessage => 7,
        MessageType::GameAboutToStart => 8,
        MessageType::GameStarting => 9,
        MessageType::ChatUpdate => 10,
    }
}

/// The message type carrying a given wire tag, if any: the enumeration is
/// closed, so an unknown tag decodes to `None`.
pub open spec fn spec_from_tag(v: u32) -> Option<MessageType> {
    if v == 1 {
        Some(MessageType::ConnectionRequested)
    } else if v == 2 {
        Some(MessageType::ConnectionAccepted)
    } else if v == 3 {
        Some(MessageType::ConnectionRejected)
    } else if v == 4 {
        Some(MessageType::UserStatusUpdate)
    } else if v == 5 {
        Some(MessageType::ReadyToStartChanged)
    } else if v == 6 {
        Some(MessageType::ReadyToStart)
    } else if v == 7 {
        Some(MessageType::StubMessage)
    } else if v == 8 {
        Some(MessageType::GameAboutToStart)
    } else if v == 9 {
        Some(MessageType::GameStarting)
    } else if v == 10 {
        Some(MessageType::ChatUpdate)
    } else {
        None
    }
}

pub broadcast proof fn lemma_tag_roundtrip(t: MessageType)
    ensures
        #[trigger] spec_from_tag(spec_tag(t)) == Some(t),
{
}

impl MessageType {
    /// The wire tag of this message type.
    pub fn tag(&self) -> (r: u32)
        ensures
            r == spec_tag(*self),
    {
        match self {
            MessageType::ConnectionRequested => 1,
            MessageType::ConnectionAccepted => 2,
            MessageType::ConnectionRejected => 3,
            MessageType::UserStatusUpdate => 4,
            MessageType::ReadyToStartChanged => 5,
            MessageType::ReadyToStart => 6,
            MessageType::StubMessage => 7,
            MessageType::GameAboutToStart => 8,
            MessageType::GameStarting => 9,
            MessageType::ChatUpdate => 10,
        }
    }

    /// The message type carrying a wire tag; `None` on a tag outside the
    /// closed enumeration.
    pub fn from_tag(v: u32) -> (r: Option<MessageType>)
        ensures
            r == spec_from_tag(v),
    {
        if v == 1 {
            Some(MessageType::ConnectionRequested)
        } else if v == 2 {
            Some(MessageType::ConnectionAccepted)
        } else if v == 3 {
            Some(MessageType::ConnectionRejected)
        } else if v == 4 {
            Some(MessageType::UserStatusUpdate)
        } else if v == 5 {
            Some(MessageType::ReadyToStartChanged)
        } else if v == 6 {
            Some(MessageType::ReadyToStart)
        } else if v == 7 {
            Some(MessageType::StubMessage)
        } else if v == 8 {
            Some(MessageType::GameAboutToStart)
        } else if v == 9 {
            Some(MessageType::GameStarting)
        } else if v == 10 {
            Some(MessageType::ChatUpdate)
        } else {
            None
        }
    }
}

/// The little-endian bytes of a 32-bit unsigned integer.
pub open spec fn u32_le(x: u32) -> Seq<u8> {
    seq![
        (x & 0xff) as u8,
        ((x >> 8) & 0xff) as u8,
        ((x >> 16) & 0xff) as u8,
        ((x >> 24) & 0xff) as u8,
    ]
}

/// The little-endian bytes of a 32-bit signed integer (two's complement).
pub open spec fn i32_le(x: i32) -> Seq<u8> {
    u32_le(x as u32)
}

/// The 32-bit unsigned integer read from four little-endian bytes.
pub open spec fn u32_of_le(b: Seq<u8>) -> u32
    recommends
        b.len() == 4,
{
    (b[0] as u32) | ((b[1] as u32) << 8) | ((b[2] as u32) << 16) | ((b[3] as u32) << 24)
}

pub broadcast proof fn lemma_u32_le_roundtrip(x: u32)
    ensures
        #[trigger] u32_of_le(u32_le(x)) == x,
{
    let b = u32_le(x);
    assert(b[0] == (x & 0xff) as u8 && b[1] == ((x >> 8) & 0xff) as u8 && b[2] == ((x >> 16)
        & 0xff) as u8 && b[3] == ((x >> 24) & 0xff) as u8);
    assert(((((x & 0xff) as u8) as u32) | (((((x >> 8) & 0xff) as u8) as u32) << 8) | (((((x
        >> 16) & 0xff) as u8) as u32) << 16) | (((((x >> 24) & 0xff) as u8) as u32) << 24)) == x)
        by (bit_vector);
}

pub broadcast proof fn lemma_i32_le_roundtrip(x: i32)
    ensures
        #[trigger] u32_of_le(i32_le(x)) as i32 == x,
{
    lemma_u32_le_roundtrip(x as u32);
    assert(((x as u32) as i32) == x) by (bit_vector);
}

/// The mathematical content of a `Message`: its type and payload bytes.
#[verifier::ext_equal]
pub ghost struct MessageView {
    pub message_type: MessageType,
    pub data: Seq<u8>,
}

/// One typed binary message: a type tag and an ordered byte payload.
pub struct Message {
    message_type: MessageType,
    data: Vec<u8>,
}

impl View for Message {
    type V = MessageView;

    closed spec fn view(&self) -> MessageView {
        MessageView { message_type: self.message_type, data: self.data@ }
    }
}

impl Message {
    /// The message's type tag.
    pub fn message_type(&self) -> (r: MessageType)
        ensures
            r == self@.message_type,
    {
        self.message_type
    }

    /// A new message of the given type with an empty payload.
    pub fn new(message_type: MessageType) -> (r: Message)
        ensures
            r@.message_type == message_type,
            r@.data == Seq::<u8>::empty(),
    {
        Message { message_type, data: Vec::new() }
    }

    /// How many bytes the payload holds.
    pub fn payload_len(&self) -> (r: usize)
        ensures
            r == self@.data.len(),
    {
        self.data.len()
    }

    /// An identical copy of this message.
    pub fn duplicate(&self) -> (r: Message)
        ensures
            r@ == self@,
    {
        let data = self.data.clone();
        proof {
            assert(data@ =~= self.data@);
        }
        Message { message_type: self.message_type, data }
    }

    /// Appends one byte to the payload's tail.
    pub fn push_u8(&mut self, x: u8)
        ensures
            final(self)@.message_type == old(self)@.message_type,
            final(self)@.data == old(self)@.data + seq![x],
    {
        self.data.push(x);
        proof {
            assert(self.data@ =~= old(self).data@ + seq![x]);
        }
    }

    /// Removes the payload's last byte; `None` on an empty payload, which is
    /// left unchanged.
    pub fn pop_u8(&mut self) -> (r: Option<u8>)
        ensures
            final(self)@.message_type == old(self)@.message_type,
            old(self)@.data.len() == 0 ==> r is None && final(self)@ == old(self)@,
            old(self)@.data.len() > 0 ==> r == Some(old(self)@.data.last()) && final(self)@.data
                == old(self)@.data.drop_last(),
    {
        let r = self.data.pop();
        proof {
            if old(self).data@.len() > 0 {
                assert(self.data@ =~= old(self).data@.drop_last());
            }
        }
        r
    }

    /// Appends a 32-bit unsigned integer's raw little-endian bytes.
    pub fn push_u32(&mut self, x: u32)
        ensures
            final(self)@.message_type == old(self)@.message_type,
            final(self)@.data == old(self)@.data + u32_le(x),
    {
        proof {
            assert((x & 0xff) < 256 && ((x >> 8) & 0xff) < 256 && ((x >> 16) & 0xff) < 256 && ((x
                >> 24) & 0xff) < 256) by (bit_vector);
        }
        self.data.push((x & 0xff) as u8);
        self.data.push(((x >> 8) & 0xff) as u8);
        self.data.push(((x >> 16) & 0xff) as u8);
        self.data.push(((x >> 24) & 0xff) as u8);
        proof {
            assert(self.data@ =~= old(self).data@ + u32_le(x));
        }
    }

    /// Removes a 32-bit unsigned integer from the payload's tail; `None` when
    /// fewer than four bytes remain, leaving the payload unchanged.
    pub fn pop_u32(&mut self) -> (r: Option<u32>)
        ensures
            final(self)@.message_type == old(self)@.message_type,
            old(self)@.data.len() < 4 ==> r is None && final(self)@ == old(self)@,
            old(self)@.data.len() >= 4 ==> {
                let n = old(self)@.data.len() as int;
                r == Some(u32_of_le(old(self)@.data.subrange(n - 4, n))) && final(self)@.data
                    == old(self)@.data.subrange(0, n - 4)
            },
    {
        let n = self.data.len();
        if n < 4 {
            return None;
        }
        let b0 = self.data[n - 4];
        let b1 = self.data[n - 3];
        let b2 = self.data[n - 2];
        let b3 = self.data[n - 1];
        self.data.truncate(n - 4);
        let x = (b0 as u32) | ((b1 as u32) << 8) | ((b2 as u32) << 16) | ((b3 as u32) << 24);
        proof {
            let d = old(self)@.data;
            let tail = d.subrange(n - 4, n as int);
            assert(tail[0] == b0 && tail[1] == b1 && tail[2] == b2 && tail[3] == b3);
        }
        Some(x)
    }

    /// Appends a 32-bit signed integer's raw little-endian bytes
    /// (two's complement).
    pub fn push_i32(&mut self, x: i32)
        ensures
            final(self)@.message_type == old(self)@.message_type,
            final(self)@.data == old(self)@.data + i32_le(x),
    {
        self.push_u32(x as u32);
    }

    /// Removes a 32-bit signed integer from the payload's tail; `None` when
    /// fewer than four bytes remain, leaving the payload unchanged.
    pub fn pop_i32(&mut self) -> (r: Option<i32>)
        ensures
            final(self)@.message_type == old(self)@.message_type,
            old(self)@.data.len() < 4 ==> r is None && final(self)@ == old(self)@,
            old(self)@.data.len() >= 4 ==> {
                let n = old(self)@.data.len() as int;
                r == Some(u32_of_le(old(self)@.data.subrange(n - 4, n)) as i32)
                    && final(self)@.data == old(self)@.data.subrange(0, n - 4)
            },
    {
        match self.pop_u32() {
            Some(x) => Some(x as i32),
            None => None,
        }
    }

    /// Appends a string field: the string's UTF-8 bytes, then their count as
    /// a 32-bit length, so that the length pops first.
    pub fn push_string(&mut self, s: &str)
        requires
            encode_utf8(s@).len() <= u32::MAX,
        ensures
            final(self)@.message_type == old(self)@.message_type,
            final(self)@.data == old(self)@.data + str_field(s@),
    {
        let bytes = s.as_bytes();
        let n = bytes.len();
        let mut i: usize = 0;
        while i < n
            invariant
                n == bytes@.len(),
                bytes@ == encode_utf8(s@),
                i <= n,
                self@.message_type == old(self)@.message_type,
                self@.data == old(self)@.data + bytes@.subrange(0, i as int),
            decreases n - i,
        {
            let b = bytes[i];
            self.data.push(b);
            proof {
                assert(self.data@ =~= old(self).data@ + bytes@.subrange(0, i + 1));
            }
            i = i + 1;
        }
        proof {
            assert(bytes@.subrange(0, n as int) =~= bytes@);
        }
        self.push_u32(n as u32);
    }

    /// Removes a string field from the payload's tail: a 32-bit length, then
    /// that many UTF-8 bytes.  `None` when the bytes do not hold a whole,
    /// valid string field; the payload is then left unchanged.
    pub fn pop_string(&mut self) -> (r: Option<String>)
        ensures
            final(self)@.message_type == old(self)@.message_type,
            match spec_pop_string(old(self)@.data) {
                Some(p) => r is Some && (r matches Some(s) ==> s@ == p.0) && final(self)@.data
                    == p.1,
                None => r is None && final(self)@ == old(self)@,
            },
    {
        let n = self.data.len();
        if n < 4 {
            return None;
        }
        let b0 = self.data[n - 4];
        let b1 = self.data[n - 3];
        let b2 = self.data[n - 2];
        let b3 = self.data[n - 1];
        let l = (b0 as u32) | ((b1 as u32) << 8) | ((b2 as u32) << 16) | ((b3 as u32) << 24);
        proof {
            let d = old(self)@.data;
            let tail = d.subrange(n - 4, n as int);
            assert(tail[0] == b0 && tail[1] == b1 && tail[2] == b2 && tail[3] == b3);
            assert(d.subrange(0, n - 4).len() == n - 4);
        }
        let rem: u64 = (n - 4) as u64;
        let lw: u64 = l as u64;
        if rem < lw {
            return None;
        }
        let len = l as usize;
        let start = n - 4 - len;
        let mut bytes: Vec<u8> = Vec::new();
        let mut i: usize = 0;
        while i < len
            invariant
                len <= n - 4 <= n == self.data.len(),
                start == n - 4 - len,
                i <= len,
                self@ == old(self)@,
                bytes@ == self.data@.subrange(start as int, start + i),
            decreases len - i,
        {
            let b = self.data[start + i];
            bytes.push(b);
            proof {
                assert(bytes@ =~= self.data@.subrange(start as int, start + i + 1));
            }
            i = i + 1;
        }
        proof {
            let d = old(self)@.data;
            let head = d.subrange(0, n - 4);
            assert(bytes@ =~= head.subrange(head.len() - l, head.len() as int));
        }
        match string_from_utf8(bytes) {
            Some(s) => {
                proof {
                    let d = old(self)@.data;
                    let head = d.subrange(0, n - 4);
                    let field = head.subrange(head.len() - l, head.len() as int);
                    encode_utf8_decode_utf8(s@);
                    assert(decode_utf8(field) == s@);
                    assert(d.subrange(0, n - 4).subrange(0, (n - 4 - len) as int) =~= d.subrange(
                        0,
                        (n - 4 - len) as int,
                    ));
                }
                self.data.truncate(start);
                Some(s)
            },
            None => None,
        }
    }
}

/// A string field as `push_string` lays it out: the UTF-8 bytes of the text,
/// then their count as four little-endian bytes.
pub open spec fn str_field(s: Seq<char>) -> Seq<u8> {
    encode_utf8(s) + u32_le(encode_utf8(s).len() as u32)
}

/// What `pop_string` removes from the tail of a payload: a 32-bit length,
/// then that many bytes of valid UTF-8, decoded to the text.
pub open spec fn spec_pop_string(d: Seq<u8>) -> Option<(Seq<char>, Seq<u8>)> {
    if d.len() < 4 {
        None
    } else {
        let l = u32_of_le(d.subrange(d.len() - 4, d.len() as int)) as int;
        let head = d.subrange(0, d.len() - 4);
        if head.len() < l {
            None
        } else {
            let field = head.subrange(head.len() - l, head.len() as int);
            if valid_utf8(field) {
                Some((decode_utf8(field), head.subrange(0, head.len() - l)))
            } else {
                None
            }
        }
    }
}

/// Popping a string field that `push_string` appended yields the pushed text
/// and uncovers the bytes beneath it.
pub proof fn lemma_pop_string_of_push(d: Seq<u8>, s: Seq<char>)
    requires
        encode_utf8(s).len() <= u32::MAX,
    ensures
        spec_pop_string(d + str_field(s)) == Some((s, d)),
{
    let e = encode_utf8(s);
    let whole = d + str_field(s);
    let n = whole.len() as int;
    assert(whole.subrange(n - 4, n) =~= u32_le(e.len() as u32));
    lemma_u32_le_roundtrip(e.len() as u32);
    let head = whole.subrange(0, n - 4);
    assert(head =~= d + e);
    assert(head.subrange(head.len() - e.len(), head.len() as int) =~= e);
    encode_utf8_valid_utf8(s);
    encode_utf8_decode_utf8(s);
    assert(head.subrange(0, head.len() - e.len()) =~= d);
}

/// What popping `k` string fields off a payload yields: the texts in pop
/// order and the bytes beneath, or `None` once a pop runs past the bytes.
pub open spec fn spec_pop_texts(d: Seq<u8>, k: nat) -> Option<(Seq<Seq<char>>, Seq<u8>)>
    decreases k,
{
    if k == 0 {
        Some((Seq::empty(), d))
    } else {
        match spec_pop_string(d) {
            None => None,
            Some(p) => match spec_pop_texts(p.1, (k - 1) as nat) {
                None => None,
                Some(q) => Some((seq![p.0] + q.0, q.1)),
            },
        }
    }
}

/// What a counted-texts payload parses to: a count byte off the tail, then
/// that many string fields, texts in pop order; `None` on a payload that
/// ends too soon or holds an invalid string field.
pub open spec fn spec_parse_texts(d: Seq<u8>) -> Option<Seq<Seq<char>>> {
    if d.len() == 0 {
        None
    } else {
        match spec_pop_texts(d.drop_last(), d.last() as nat) {
            None => None,
            Some(p) => Some(p.0),
        }
    }
}

/// Reads a counted-texts payload off a message's tail: a count byte, then
/// that many string fields.  `None` exactly when the payload is malformed;
/// every returned text fits a string field's 32-bit length.
pub fn parse_counted_texts(message: Message) -> (r: Option<Vec<String>>)
    ensures
        match spec_parse_texts(message@.data) {
            Some(ts) => r matches Some(v) && v@.map_values(|s: String| s@) == ts && (forall|
                j: int,
            |
                0 <= j < v@.len() ==> encode_utf8(#[trigger] v@[j]@).len() <= u32::MAX),
            None => r is None,
        },
{
    let mut message = message;
    let ghost d0 = message@.data;
    let count = match message.pop_u8() {
        None => {
            return None;
        },
        Some(c) => c,
    };
    let mut texts: Vec<String> = Vec::new();
    let mut failed = false;
    let mut i: u8 = 0;
    while i < count && !failed
        invariant
            i <= count,
            texts@.len() == i,
            forall|j: int| 0 <= j < texts@.len() ==> encode_utf8(#[trigger] texts@[j]@).len()
                <= u32::MAX,
            failed ==> spec_pop_texts(d0.drop_last(), count as nat) is None,
            !failed ==> match spec_pop_texts(message@.data, (count - i) as nat) {
                None => spec_pop_texts(d0.drop_last(), count as nat) is None,
                Some(q) => spec_pop_texts(d0.drop_last(), count as nat) matches Some(w) && w.0
                    == texts@.map_values(|s: String| s@) + q.0 && w.1 == q.1,
            },
        decreases count - i + (if failed {
            0int
        } else {
            1int
        }),
    {
        let ghost before = message@.data;
        let ghost tsofar = texts@.map_values(|s: String| s@);
        match message.pop_string() {
            None => {
                failed = true;
            },
            Some(t) => {
                let ghost tv = t@;
                proof {
                    lemma_pop_string_fits(before);
                    let p = spec_pop_string(before).unwrap();
                    match spec_pop_texts(message@.data, (count - i - 1) as nat) {
                        Some(q) => {
                            assert(tsofar + (seq![p.0] + q.0) =~= (tsofar + seq![p.0]) + q.0);
                        },
                        None => {},
                    }
                }
                texts.push(t);
                proof {
                    assert(texts@.map_values(|s: String| s@) =~= tsofar + seq![tv]);
                }
                i = i + 1;
            },
        }
    }
    if failed {
        return None;
    }
    proof {
        assert(texts@.map_values(|s: String| s@) + Seq::<Seq<char>>::empty() =~= texts@.map_values(
            |s: String| s@,
        ));
    }
    Some(texts)
}

/// A UTF-8 encoding holds at most four bytes per character.
pub proof fn lemma_encode_utf8_len(chars: Seq<char>)
    ensures
        encode_utf8(chars).len() <= 4 * chars.len(),
    decreases chars.len(),
{
    if chars.len() > 0 {
        lemma_encode_utf8_len(chars.drop_first());
    }
}

/// A text popped off a payload always fits a string field's 32-bit length:
/// its byte count was read from that very field.
pub proof fn lemma_pop_string_fits(d: Seq<u8>)
    requires
        spec_pop_string(d) is Some,
    ensures
        encode_utf8(spec_pop_string(d).unwrap().0).len() <= u32::MAX,
{
    let l = u32_of_le(d.subrange(d.len() - 4, d.len() as int)) as int;
    let head = d.subrange(0, d.len() - 4);
    let field = head.subrange(head.len() - l, head.len() as int);
    vstd::utf8::decode_utf8_encode_utf8(field);
}

/// Relies on `String::from_utf8`: it returns the string whose UTF-8 encoding
/// is exactly the given bytes, and fails exactly when the bytes are not valid
/// UTF-8.
#[verifier::external_body]
fn string_from_utf8(bytes: Vec<u8>) -> (r: Option<String>)
    ensures
        r is Some <==> valid_utf8(bytes@),
        r matches Some(s) ==> encode_utf8(s@) == bytes@,
{
    String::from_utf8(bytes).ok()
}

/// One field value a payload can carry, as the `push_*`/`pop_*` pairs write
/// and read it.
pub ghost enum FieldVal {
    Byte(u8),
    Word(u32),
    Int(i32),
    Text(Seq<char>),
}

/// The kind of a field, naming which `pop_*` operation reads it back.
pub ghost enum FieldKind {
    Byte,
    Word,
    Int,
    Text,
}

pub open spec fn kind_of(f: FieldVal) -> FieldKind {
    match f {
        FieldVal::Byte(_) => FieldKind::Byte,
        FieldVal::Word(_) => FieldKind::Word,
        FieldVal::Int(_) => FieldKind::Int,
        FieldVal::Text(_) => FieldKind::Text,
    }
}

/// The bytes one pushed field appends to the payload's tail.
pub open spec fn field_bytes(f: FieldVal) -> Seq<u8> {
    match f {
        FieldVal::Byte(b) => seq![b],
        FieldVal::Word(x) => u32_le(x),
        FieldVal::Int(x) => i32_le(x),
        FieldVal::Text(t) => str_field(t),
    }
}

/// A text field's byte count must fit the 32-bit length `push_string` writes;
/// the other fields always fit.
pub open spec fn field_fits(f: FieldVal) -> bool {
    match f {
        FieldVal::Text(t) => encode_utf8(t).len() <= u32::MAX,
        _ => true,
    }
}

/// The payload bytes left after pushing the given fields in order.
pub open spec fn fields_bytes(fs: Seq<FieldVal>) -> Seq<u8>
    decreases fs.len(),
{
    if fs.len() == 0 {
        Seq::empty()
    } else {
        fields_bytes(fs.drop_last()) + field_bytes(fs.last())
    }
}

/// What popping one field of the given kind from the payload's tail yields,
/// exactly as the `pop_u8`/`pop_u32`/`pop_i32`/`pop_string` contracts state
/// it: the value and the bytes beneath, or `None` past the available bytes.
pub open spec fn spec_pop_field(d: Seq<u8>, k: FieldKind) -> Option<(FieldVal, Seq<u8>)> {
    match k {
        FieldKind::Byte => if d.len() > 0 {
            Some((FieldVal::Byte(d.last()), d.drop_last()))
        } else {
            None
        },
        FieldKind::Word => if d.len() >= 4 {
            Some(
                (
                    FieldVal::Word(u32_of_le(d.subrange(d.len() - 4, d.len() as int))),
                    d.subrange(0, d.len() - 4),
                ),
            )
        } else {
            None
        },
        FieldKind::Int => if d.len() >= 4 {
            Some(
                (
                    FieldVal::Int(u32_of_le(d.subrange(d.len() - 4, d.len() as int)) as i32),
                    d.subrange(0, d.len() - 4),
                ),
            )
        } else {
            None
        },
        FieldKind::Text => match spec_pop_string(d) {
            Some(p) => Some((FieldVal::Text(p.0), p.1)),
            None => None,
        },
    }
}

/// What popping one field of each given kind, in order, from the payload's
/// tail yields: the values read and the bytes left beneath them.
pub open spec fn spec_pop_fields(d: Seq<u8>, ks: Seq<FieldKind>) -> Option<(Seq<FieldVal>, Seq<u8>)>
    decreases ks.len(),
{
    if ks.len() == 0 {
        Some((Seq::empty(), d))
    } else {
        match spec_pop_field(d, ks.first()) {
            None => None,
            Some(p) => match spec_pop_fields(p.1, ks.drop_first()) {
                None => None,
                Some(q) => Some((seq![p.0] + q.0, q.1)),
            },
        }
    }
}

/// Popping one field that was just pushed yields the pushed value and
/// uncovers the bytes beneath it.
pub proof fn lemma_pop_field_of_push(d: Seq<u8>, f: FieldVal)
    requires
        field_fits(f),
    ensures
        spec_pop_field(d + field_bytes(f), kind_of(f)) == Some((f, d)),
{
    let whole = d + field_bytes(f);
    match f {
        FieldVal::Byte(b) => {
            assert(whole.drop_last() =~= d);
        },
        FieldVal::Word(x) => {
            assert(whole.subrange(whole.len() - 4, whole.len() as int) =~= u32_le(x));
            lemma_u32_le_roundtrip(x);
            assert(whole.subrange(0, whole.len() - 4) =~= d);
        },
        FieldVal::Int(x) => {
            assert(whole.subrange(whole.len() - 4, whole.len() as int) =~= i32_le(x));
            lemma_i32_le_roundtrip(x);
            assert(whole.subrange(0, whole.len() - 4) =~= d);
        },
        FieldVal::Text(t) => {
            lemma_pop_string_of_push(d, t);
        },
    }
}

/// For any sequence of pushes followed by the same number of pops, the pops
/// yield the pushed values in the exact reverse of push order, and the
/// payload ends with only what lay beneath them — empty, when the pushes
/// began on an empty payload.
pub proof fn lemma_push_pop_lifo(d: Seq<u8>, fs: Seq<FieldVal>)
    requires
        forall|i: int| 0 <= i < fs.len() ==> field_fits(#[trigger] fs[i]),
    ensures
        spec_pop_fields(d + fields_bytes(fs), fs.reverse().map_values(|f: FieldVal| kind_of(f)))
            == Some((fs.reverse(), d)),
    decreases fs.len(),
{
    let ks = fs.reverse().map_values(|f: FieldVal| kind_of(f));
    if fs.len() == 0 {
        assert(d + fields_bytes(fs) =~= d);
        assert(ks =~= Seq::<FieldKind>::empty());
        assert(fs.reverse() =~= Seq::<FieldVal>::empty());
    } else {
        let f = fs.last();
        let rest = fs.drop_last();
        let whole = d + fields_bytes(fs);
        assert(whole =~= (d + fields_bytes(rest)) + field_bytes(f));
        lemma_pop_field_of_push(d + fields_bytes(rest), f);
        assert(ks.first() == kind_of(f));
        let ks1 = rest.reverse().map_values(|g: FieldVal| kind_of(g));
        assert(ks.drop_first() =~= ks1);
        lemma_push_pop_lifo(d, rest);
        assert(seq![f] + rest.reverse() =~= fs.reverse());
    }
}

/// Why one frame could not be decoded from a byte stream.
#[derive(Copy, Clone, PartialEq, Eq, Structural, Debug)]
pub enum DecodeError {
    /// The bytes so far hold no whole frame; more input may complete it, and
    /// a clean stream never closes in this state with bytes left over.
    Incomplete,
    /// The frame header names a tag outside the closed type enumeration: a
    /// fatal decode error for the connection.
    UnknownTag,
}

/// One whole frame: the type tag, the payload length, then the payload, all
/// integers little-endian.
pub open spec fn frame_bytes(m: MessageView) -> Seq<u8> {
    u32_le(spec_tag(m.message_type)) + u32_le(m.data.len() as u32) + m.data
}

/// What decoding one frame at position `pos` of a byte stream yields: the
/// message and the position after it, or the exact reason none was read.
pub open spec fn spec_decode(b: Seq<u8>, pos: int) -> Result<(MessageView, int), DecodeError>
    recommends
        0 <= pos <= b.len(),
{
    if pos + 4 > b.len() {
        Err(DecodeError::Incomplete)
    } else {
        match spec_from_tag(u32_of_le(b.subrange(pos, pos + 4))) {
            None => Err(DecodeError::UnknownTag),
            Some(t) => if pos + 8 > b.len() {
                Err(DecodeError::Incomplete)
            } else {
                let len = u32_of_le(b.subrange(pos + 4, pos + 8)) as int;
                if pos + 8 + len > b.len() {
                    Err(DecodeError::Incomplete)
                } else {
                    Ok(
                        (
                            MessageView {
                                message_type: t,
                                data: b.subrange(pos + 8, pos + 8 + len),
                            },
                            pos + 8 + len,
                        ),
                    )
                }
            },
        }
    }
}

/// Decoding the bytes `write_to` produced reproduces the encoded message's
/// type tag and payload bytes exactly, for every message type and every payload the
/// length field can carry, empty and maximal included, wherever the frame
/// stands in the stream.
pub proof fn lemma_frame_roundtrip(m: MessageView, prefix: Seq<u8>, suffix: Seq<u8>)
    requires
        m.data.len() <= u32::MAX,
    ensures
        spec_decode(prefix + frame_bytes(m) + suffix, prefix.len() as int) == Ok::<
            (MessageView, int),
            DecodeError,
        >((m, prefix.len() + frame_bytes(m).len() as int)),
{
    let b = prefix + frame_bytes(m) + suffix;
    let p = prefix.len() as int;
    let n = m.data.len() as int;
    assert(b.subrange(p, p + 4) =~= u32_le(spec_tag(m.message_type)));
    lemma_u32_le_roundtrip(spec_tag(m.message_type));
    lemma_tag_roundtrip(m.message_type);
    assert(b.subrange(p + 4, p + 8) =~= u32_le(m.data.len() as u32));
    lemma_u32_le_roundtrip(m.data.len() as u32);
    assert(b.subrange(p + 8, p + 8 + n) =~= m.data);
}

impl Message {
    /// Appends this message's whole frame to a byte sink: tag, payload
    /// length, payload.
    pub fn write_to(&self, out: &mut Vec<u8>)
        requires
            self@.data.len() <= u32::MAX,
        ensures
            final(out)@ == old(out)@ + frame_bytes(self@),
    {
        let tag = self.message_type.tag();
        append_u32_le(out, tag);
        append_u32_le(out, self.data.len() as u32);
        let n = self.data.len();
        let mut i: usize = 0;
        while i < n
            invariant
                n == self.data@.len(),
                i <= n,
                out@ == old(out)@ + u32_le(spec_tag(self@.message_type)) + u32_le(
                    self@.data.len() as u32,
                ) + self.data@.subrange(0, i as int),
            decreases n - i,
        {
            let b = self.data[i];
            out.push(b);
            proof {
                assert(out@ =~= old(out)@ + u32_le(spec_tag(self@.message_type)) + u32_le(
                    self@.data.len() as u32,
                ) + self.data@.subrange(0, i + 1));
            }
            i = i + 1;
        }
        proof {
            assert(self.data@.subrange(0, n as int) =~= self.data@);
            assert(out@ =~= old(out)@ + frame_bytes(self@));
        }
    }

    /// Decodes one frame starting at `pos` in a byte buffer, returning the
    /// message and the position after the frame.  `Incomplete` says the
    /// buffer ends before the frame does; `UnknownTag` says the header names
    /// a tag outside the closed enumeration.
    pub fn next_message(buf: &Vec<u8>, pos: usize) -> (r: Result<(Message, usize), DecodeError>)
        requires
            pos <= buf@.len(),
        ensures
            match spec_decode(buf@, pos as int) {
                Ok(p) => r is Ok && (r matches Ok(q) ==> q.0@ == p.0 && q.1 == p.1),
                Err(e) => r == Err::<(Message, usize), DecodeError>(e),
            },
    {
        let n = buf.len();
        if n - pos < 4 {
            return Err(DecodeError::Incomplete);
        }
        let tagv = read_u32_le(buf, pos);
        let t = match MessageType::from_tag(tagv) {
            None => {
                return Err(DecodeError::UnknownTag);
            },
            Some(t) => t,
        };
        if n - pos < 8 {
            return Err(DecodeError::Incomplete);
        }
        let l = read_u32_le(buf, pos + 4);
        let rem: u64 = (n - pos - 8) as u64;
        if (l as u64) > rem {
            return Err(DecodeError::Incomplete);
        }
        let len = l as usize;
        let start = pos + 8;
        let mut data: Vec<u8> = Vec::new();
        let mut i: usize = 0;
        while i < len
            invariant
                start + len <= n == buf@.len(),
                i <= len,
                data@ == buf@.subrange(start as int, start + i),
            decreases len - i,
        {
            let b = buf[start + i];
            data.push(b);
            proof {
                assert(data@ =~= buf@.subrange(start as int, start + i + 1));
            }
            i = i + 1;
        }
        Ok((Message { message_type: t, data }, start + len))
    }

    /// A cursor that reads the messages framed in a byte buffer one by one.
    pub fn iter(buf: Vec<u8>) -> (r: MessageIterator)
        ensures
            r.wf(),
            r@.buf == buf@,
            r@.pos == 0,
    {
        MessageIterator { buf, pos: 0 }
    }
}

/// Appends a 32-bit unsigned integer's little-endian bytes to a byte sink.
fn append_u32_le(out: &mut Vec<u8>, x: u32)
    ensures
        final(out)@ == old(out)@ + u32_le(x),
{
    proof {
        assert((x & 0xff) < 256 && ((x >> 8) & 0xff) < 256 && ((x >> 16) & 0xff) < 256 && ((x
            >> 24) & 0xff) < 256) by (bit_vector);
    }
    out.push((x & 0xff) as u8);
    out.push(((x >> 8) & 0xff) as u8);
    out.push(((x >> 16) & 0xff) as u8);
    out.push(((x >> 24) & 0xff) as u8);
    proof {
        assert(out@ =~= old(out)@ + u32_le(x));
    }
}

/// Reads the 32-bit little-endian integer at `pos` in a byte buffer.
fn read_u32_le(buf: &Vec<u8>, pos: usize) -> (r: u32)
    requires
        pos + 4 <= buf@.len(),
    ensures
        r == u32_of_le(buf@.subrange(pos as int, pos + 4)),
{
    let n = buf.len();
    let b0 = buf[pos];
    let b1 = buf[pos + 1];
    let b2 = buf[pos + 2];
    let b3 = buf[pos + 3];
    proof {
        let s = buf@.subrange(pos as int, pos + 4);
        assert(s[0] == b0 && s[1] == b1 && s[2] == b2 && s[3] == b3);
    }
    (b0 as u32) | ((b1 as u32) << 8) | ((b2 as u32) << 16) | ((b3 as u32) << 24)
}

/// The mathematical content of a `MessageIterator`: the buffer and how far
/// into it the cursor stands.
#[verifier::ext_equal]
pub ghost struct MessageIteratorView {
    pub buf: Seq<u8>,
    pub pos: int,
}

/// A cursor over the frames held in one byte buffer.  Each step yields the
/// next whole message; the end of the buffer is a clean end of the sequence,
/// and a truncated or malformed frame is an error that stops the cursor.
pub struct MessageIterator {
    buf: Vec<u8>,
    pos: usize,
}

impl View for MessageIterator {
    type V = MessageIteratorView;

    closed spec fn view(&self) -> MessageIteratorView {
        MessageIteratorView { buf: self.buf@, pos: self.pos as int }
    }
}

impl MessageIterator {
    /// The cursor stands inside its buffer.
    pub closed spec fn wf(&self) -> bool {
        self.pos <= self.buf@.len()
    }

    /// Yields the next message in the buffer: `None` at the buffer's exact
    /// end (a clean end of stream), `Some(Err(..))` on a truncated or
    /// malformed frame, which leaves the cursor where it stands.
    pub fn next_item(&mut self) -> (r: Option<Result<Message, DecodeError>>)
        requires
            old(self).wf(),
        ensures
            final(self).wf(),
            final(self)@.buf == old(self)@.buf,
            old(self)@.pos == old(self)@.buf.len() ==> r is None && final(self)@ == old(self)@,
            old(self)@.pos < old(self)@.buf.len() ==> match spec_decode(
                old(self)@.buf,
                old(self)@.pos,
            ) {
                Ok(p) => r is Some && (r matches Some(q) ==> q is Ok && (q matches Ok(m) ==> m@
                    == p.0)) && final(self)@.pos == p.1,
                Err(e) => r == Some(Err::<Message, DecodeError>(e)) && final(self)@ == old(self)@,
            },
    {
        if self.pos == self.buf.len() {
            return None;
        }
        match Message::next_message(&self.buf, self.pos) {
            Ok((m, np)) => {
                self.pos = np;
                Some(Ok(m))
            },
            Err(e) => Some(Err(e)),
        }
    }
}

} // verus!
