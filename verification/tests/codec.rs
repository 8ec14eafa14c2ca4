use session_server::message::DecodeError;
use session_server::message::Message;
use session_server::message::MessageType;

fn all_types() -> Vec<MessageType> {
    vec![
        MessageType::ConnectionRequested,
        MessageType::ConnectionAccepted,
        MessageType::ConnectionRejected,
        MessageType::UserStatusUpdate,
        MessageType::ReadyToStartChanged,
        MessageType::ReadyToStart,
        MessageType::StubMessage,
        MessageType::GameAboutToStart,
        MessageType::GameStarting,
        MessageType::ChatUpdate,
    ]
}

#[test]
fn tag_roundtrip_covers_the_closed_enumeration() {
    for (i, t) in all_types().into_iter().enumerate() {
        let tag = (i + 1) as u32;
        assert_eq!(t.tag(), tag);
        assert_eq!(MessageType::from_tag(tag), Some(t));
    }
    assert_eq!(MessageType::from_tag(0), None);
    assert_eq!(MessageType::from_tag(11), None);
    assert_eq!(MessageType::from_tag(u32::MAX), None);
}

#[test]
fn push_pop_is_lifo_and_empties_the_payload() {
    let mut m = Message::new(MessageType::StubMessage);
    m.push_u8(7);
    m.push_u32(0xdead_beef);
    m.push_i32(-42);
    m.push_string("hej värld");
    assert_eq!(m.pop_string().as_deref(), Some("hej värld"));
    assert_eq!(m.pop_i32(), Some(-42));
    assert_eq!(m.pop_u32(), Some(0xdead_beef));
    assert_eq!(m.pop_u8(), Some(7));
    assert_eq!(m.pop_u8(), None);
}

#[test]
fn popping_past_the_available_bytes_is_absent_never_a_fault() {
    let mut m = Message::new(MessageType::StubMessage);
    assert_eq!(m.pop_u8(), None);
    assert_eq!(m.pop_u32(), None);
    assert_eq!(m.pop_i32(), None);
    assert!(m.pop_string().is_none());
    m.push_u8(3);
    // a 3-byte length field is short of the four bytes a u32 needs
    assert_eq!(m.pop_u32(), None);
    assert_eq!(m.pop_u8(), Some(3));
}

#[test]
fn pop_string_rejects_a_length_past_the_payload() {
    let mut m = Message::new(MessageType::ChatUpdate);
    // a length field saying 1000 with no bytes beneath it
    m.push_u32(1000);
    assert!(m.pop_string().is_none());
    // the payload is untouched: the length field still pops
    assert_eq!(m.pop_u32(), Some(1000));
}

#[test]
fn pop_string_rejects_invalid_utf8() {
    let mut m = Message::new(MessageType::ChatUpdate);
    m.push_u8(0xff);
    m.push_u8(0xfe);
    m.push_u32(2);
    assert!(m.pop_string().is_none());
}

#[test]
fn encode_decode_roundtrips_every_type() {
    for t in all_types() {
        let mut m = Message::new(t);
        m.push_u32(123);
        m.push_u8(9);
        let mut bytes = Vec::new();
        m.write_to(&mut bytes);
        let (back, used) = Message::next_message(&bytes, 0).expect("frame should decode");
        assert_eq!(used, bytes.len());
        assert_eq!(back.message_type(), t);
        let mut back = back;
        assert_eq!(back.pop_u8(), Some(9));
        assert_eq!(back.pop_u32(), Some(123));
        assert_eq!(back.pop_u8(), None);
    }
}

#[test]
fn encode_decode_roundtrips_an_empty_payload() {
    let m = Message::new(MessageType::GameStarting);
    let mut bytes = Vec::new();
    m.write_to(&mut bytes);
    assert_eq!(bytes.len(), 8);
    let (back, used) = Message::next_message(&bytes, 0).expect("frame should decode");
    assert_eq!(used, 8);
    assert_eq!(back.message_type(), MessageType::GameStarting);
    let mut back = back;
    assert_eq!(back.pop_u8(), None);
}

#[test]
fn encode_decode_roundtrips_a_large_payload() {
    let mut m = Message::new(MessageType::StubMessage);
    for i in 0..10_000u32 {
        m.push_u32(i);
    }
    let mut bytes = Vec::new();
    m.write_to(&mut bytes);
    let (back, used) = Message::next_message(&bytes, 0).expect("frame should decode");
    assert_eq!(used, bytes.len());
    let mut back = back;
    for i in (0..10_000u32).rev() {
        assert_eq!(back.pop_u32(), Some(i));
    }
    assert_eq!(back.pop_u32(), None);
}

#[test]
fn decoding_an_unknown_tag_is_a_fatal_error() {
    let mut bytes = vec![99, 0, 0, 0];
    bytes.extend_from_slice(&[0, 0, 0, 0]);
    assert!(matches!(
        Message::next_message(&bytes, 0),
        Err(DecodeError::UnknownTag)
    ));
}

#[test]
fn decoding_a_truncated_frame_asks_for_more_bytes() {
    // empty buffer, partial header, and a header promising more payload
    assert!(matches!(
        Message::next_message(&Vec::new(), 0),
        Err(DecodeError::Incomplete)
    ));
    assert!(matches!(
        Message::next_message(&vec![1, 0], 0),
        Err(DecodeError::Incomplete)
    ));
    let mut bytes = vec![1, 0, 0, 0];
    bytes.extend_from_slice(&[5, 0, 0, 0]);
    bytes.push(42);
    assert!(matches!(
        Message::next_message(&bytes, 0),
        Err(DecodeError::Incomplete)
    ));
}

#[test]
fn iterator_walks_frames_and_ends_cleanly() {
    let mut bytes = Vec::new();
    let mut a = Message::new(MessageType::GameAboutToStart);
    a.push_u8(5);
    a.write_to(&mut bytes);
    let b = Message::new(MessageType::GameStarting);
    b.write_to(&mut bytes);
    let mut it = Message::iter(bytes);
    let first = it.next_item().unwrap().unwrap();
    assert_eq!(first.message_type(), MessageType::GameAboutToStart);
    let second = it.next_item().unwrap().unwrap();
    assert_eq!(second.message_type(), MessageType::GameStarting);
    assert!(it.next_item().is_none());
}

#[test]
fn iterator_reports_a_torn_tail_as_an_error() {
    let mut bytes = Vec::new();
    let m = Message::new(MessageType::GameStarting);
    m.write_to(&mut bytes);
    bytes.push(9);
    let mut it = Message::iter(bytes);
    assert!(it.next_item().unwrap().is_ok());
    match it.next_item() {
        Some(Err(e)) => assert_eq!(e, DecodeError::Incomplete),
        _ => panic!("a torn tail must be an error, not a clean end"),
    }
}

#[test]
fn parse_counted_texts_reads_a_counted_batch() {
    let mut m = Message::new(MessageType::StubMessage);
    m.push_string("one");
    m.push_string("two");
    m.push_u8(2);
    let texts = session_server::message::parse_counted_texts(m).expect("well-formed batch");
    assert_eq!(texts, vec!["two".to_string(), "one".to_string()]);
}

#[test]
fn parse_counted_texts_rejects_a_short_batch() {
    let mut m = Message::new(MessageType::StubMessage);
    m.push_string("only");
    m.push_u8(2);
    assert!(session_server::message::parse_counted_texts(m).is_none());
}
