use session_server::message::Message;
use session_server::message::MessageType;
use session_server::users::add_user_to_users;
use session_server::users::insert_user;
use session_server::users::receiver;
use session_server::users::Users;
use session_server::users::MAX_CLIENT_ID;

#[test]
fn allocation_returns_a_fresh_id_in_the_bounded_space() {
    let mut users = Users::new();
    let mut seen = Vec::new();
    for _ in 0..50 {
        let id = add_user_to_users(&mut users).expect("space is far from exhausted");
        assert!(1 <= id && id <= MAX_CLIENT_ID);
        assert!(!seen.contains(&id), "allocation handed out a held id");
        seen.push(id);
    }
    assert_eq!(users.count(), 50);
    assert_eq!(users.ids_vec(), seen);
}

#[test]
fn allocation_fails_only_when_the_space_is_exhausted() {
    let mut users = Users::new();
    for _ in 0..MAX_CLIENT_ID {
        assert!(add_user_to_users(&mut users).is_some());
    }
    assert_eq!(users.count(), MAX_CLIENT_ID as usize);
    assert!(add_user_to_users(&mut users).is_none());
}

#[test]
fn a_released_id_becomes_eligible_for_reuse() {
    let mut users = Users::new();
    for _ in 0..MAX_CLIENT_ID {
        add_user_to_users(&mut users);
    }
    let victim = users.ids_vec()[3];
    users.release(victim);
    assert!(!users.has_user(victim));
    // the only free id is the released one, so allocation must return it
    assert_eq!(insert_user(&mut users), victim);
}

#[test]
fn release_is_idempotent() {
    let mut users = Users::new();
    let id = add_user_to_users(&mut users).unwrap();
    users.release(id);
    assert_eq!(users.count(), 0);
    users.release(id);
    assert_eq!(users.count(), 0);
}

#[test]
fn queues_are_fifo_and_per_client() {
    let mut users = Users::new();
    let a = add_user_to_users(&mut users).unwrap();
    let b = add_user_to_users(&mut users).unwrap();
    let mut m1 = Message::new(MessageType::StubMessage);
    m1.push_u8(1);
    let mut m2 = Message::new(MessageType::StubMessage);
    m2.push_u8(2);
    users.push_inbound(a, m1);
    users.push_inbound(a, m2);
    let drained: Vec<u8> = users
        .drain_inbound(a)
        .into_iter()
        .map(|mut m| m.pop_u8().unwrap())
        .collect();
    assert_eq!(drained, vec![1, 2]);
    assert!(users.drain_inbound(a).is_empty());
    assert!(users.drain_inbound(b).is_empty());

    let mut o1 = Message::new(MessageType::GameAboutToStart);
    o1.push_u8(9);
    users.send_to(b, o1);
    assert!(users.drain_outbound(a).is_empty());
    let out = users.drain_outbound(b);
    assert_eq!(out.len(), 1);
    assert_eq!(out[0].message_type(), MessageType::GameAboutToStart);
}

#[test]
fn sending_to_a_removed_id_is_a_silent_no_op() {
    let mut users = Users::new();
    let a = add_user_to_users(&mut users).unwrap();
    users.release(a);
    users.send_to(a, Message::new(MessageType::ReadyToStart));
    assert_eq!(users.count(), 0);
}

#[test]
fn receiver_drains_a_client_and_yields_in_arrival_order() {
    let mut users = Users::new();
    let a = add_user_to_users(&mut users).unwrap();
    let mut m1 = Message::new(MessageType::StubMessage);
    m1.push_u8(1);
    let mut m2 = Message::new(MessageType::StubMessage);
    m2.push_u8(2);
    users.push_inbound(a, m1);
    users.push_inbound(a, m2);
    let mut it = receiver(&mut users, a);
    assert_eq!(it.next_msg().unwrap().pop_u8(), Some(1));
    assert_eq!(it.next_msg().unwrap().pop_u8(), Some(2));
    assert!(it.next_msg().is_none());
    assert!(users.drain_inbound(a).is_empty());
    // an id with no bridge entry yields an empty iterator
    let other = if a == MAX_CLIENT_ID { 1 } else { a + 1 };
    let mut none = receiver(&mut users, other);
    assert!(none.next_msg().is_none());
}

#[test]
fn a_reaction_fires_exactly_once() {
    let mut latch = session_server::reaction::Reaction::new();
    assert!(latch.react_once());
    assert!(!latch.react_once());
    assert!(!latch.react_once());
    let mut armed = session_server::reaction::Reaction::new_reacted(true);
    assert!(!armed.react_once());
    let mut fresh = session_server::reaction::Reaction::new_reacted(false);
    assert!(fresh.react_once());
    assert!(!fresh.react_once());
}
