use session_server::chat::Chat;
use session_server::message::Message;
use session_server::message::MessageType;

fn chat_payload(texts: &[&str]) -> Message {
    let mut m = Message::new(MessageType::ChatUpdate);
    for t in texts.iter().rev() {
        m.push_string(t);
    }
    m.push_u8(texts.len() as u8);
    m
}

fn read_entries(mut m: Message) -> Vec<(i32, String)> {
    let count = m.pop_u8().expect("count byte");
    let mut out = Vec::new();
    for _ in 0..count {
        let author = m.pop_i32().expect("author id");
        let text = m.pop_string().expect("text");
        out.push((author, text));
    }
    out
}

#[test]
fn append_then_commit_returns_the_batch_in_arrival_order() {
    let mut chat = Chat::new();
    chat.append(7, chat_payload(&["first", "second"]));
    let batch = chat.commit().expect("pending entries commit");
    assert_eq!(batch.message_type(), MessageType::ChatUpdate);
    assert_eq!(
        read_entries(batch),
        vec![(7, "first".to_string()), (7, "second".to_string())]
    );
}

#[test]
fn commit_with_nothing_pending_returns_none() {
    let mut chat = Chat::new();
    assert!(chat.commit().is_none());
    chat.append(1, chat_payload(&["hello"]));
    assert!(chat.commit().is_some());
    // the committed batch is never re-sent
    assert!(chat.commit().is_none());
}

#[test]
fn a_malformed_payload_is_dropped_and_the_ledger_is_unchanged() {
    let mut chat = Chat::new();
    let mut bad = Message::new(MessageType::ChatUpdate);
    bad.push_string("text");
    bad.push_u8(3); // promises three strings, carries one
    chat.append(5, bad);
    assert!(chat.commit().is_none());
}

#[test]
fn snapshot_carries_the_whole_committed_history() {
    let mut chat = Chat::new();
    chat.append(1, chat_payload(&["older"]));
    chat.commit();
    chat.append(2, chat_payload(&["newer"]));
    chat.commit();
    assert!(chat.has_history());
    let snapshot = chat.whole_chat_state();
    assert_eq!(
        read_entries(snapshot),
        vec![(1, "older".to_string()), (2, "newer".to_string())]
    );
}

#[test]
fn snapshot_of_an_empty_ledger_is_an_empty_batch() {
    let chat = Chat::new();
    assert!(!chat.has_history());
    let snapshot = chat.whole_chat_state();
    assert_eq!(read_entries(snapshot), Vec::<(i32, String)>::new());
}
