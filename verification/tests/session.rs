use session_server::game::Game;
use session_server::just_created::JustCreatedGame;
use session_server::message::Message;
use session_server::message::MessageType;
use session_server::state::Phase;
use session_server::users::add_user_to_users;
use session_server::users::Users;

/// One unit of elapsed time plus a little, so each round crosses exactly one
/// full countdown unit.
const ROUND_MS: u64 = 1001;

fn new_game() -> Game {
    Game::new(Users::new(), Phase::Accepting(JustCreatedGame::new()))
}

fn connect(game: &mut Game) -> i32 {
    add_user_to_users(game.users_mut()).expect("id space not exhausted")
}

fn send(game: &mut Game, id: i32, m: Message) {
    game.users_mut().push_inbound(id, m);
}

fn outbox(game: &mut Game, id: i32) -> Vec<Message> {
    game.users_mut().drain_outbound(id)
}

fn connection_requested() -> Message {
    Message::new(MessageType::ConnectionRequested)
}

fn ready_changed(flag: u8) -> Message {
    let mut m = Message::new(MessageType::ReadyToStartChanged);
    m.push_u8(flag);
    m
}

fn chat_update(texts: &[&str]) -> Message {
    let mut m = Message::new(MessageType::ChatUpdate);
    for t in texts.iter().rev() {
        m.push_string(t);
    }
    m.push_u8(texts.len() as u8);
    m
}

fn round(game: &mut Game) {
    game.elapsed(ROUND_MS);
    game.io_updates();
}

/// Reads a ConnectionAccepted payload: (self id, roster of (id, ready)).
fn read_accepted(mut m: Message) -> (i32, Vec<(i32, bool)>) {
    assert_eq!(m.message_type(), MessageType::ConnectionAccepted);
    let selfid = m.pop_i32().expect("trailing self id");
    let count = m.pop_u8().expect("roster count");
    let mut roster = Vec::new();
    for _ in 0..count {
        let ready = m.pop_u8().expect("ready flag") != 0;
        let id = m.pop_i32().expect("client id");
        roster.push((id, ready));
    }
    (selfid, roster)
}

/// Reads a UserStatusUpdate payload: (id, status byte) pairs.
fn read_status(mut m: Message) -> Vec<(i32, u8)> {
    assert_eq!(m.message_type(), MessageType::UserStatusUpdate);
    let count = m.pop_u8().expect("count");
    let mut out = Vec::new();
    for _ in 0..count {
        let status = m.pop_u8().expect("status byte");
        let id = m.pop_i32().expect("client id");
        out.push((id, status));
    }
    out
}

/// Reads a ChatUpdate payload: (author, text) pairs, oldest first.
fn read_chat(mut m: Message) -> Vec<(i32, String)> {
    assert_eq!(m.message_type(), MessageType::ChatUpdate);
    let count = m.pop_u8().expect("count");
    let mut out = Vec::new();
    for _ in 0..count {
        let author = m.pop_i32().expect("author");
        let text = m.pop_string().expect("text");
        out.push((author, text));
    }
    out
}

#[test]
fn two_clients_handshake_ready_and_start() {
    let mut game = new_game();
    let a = connect(&mut game);
    let b = connect(&mut game);

    // both request a connection; the same round accepts both
    send(&mut game, a, connection_requested());
    send(&mut game, b, connection_requested());
    round(&mut game);

    for id in [a, b] {
        let mut msgs = outbox(&mut game, id).into_iter();
        let (selfid, mut roster) = read_accepted(msgs.next().expect("acceptance"));
        assert_eq!(selfid, id);
        roster.sort();
        let mut expected = vec![(a, false), (b, false)];
        expected.sort();
        assert_eq!(roster, expected);
        let status = read_status(msgs.next().expect("status broadcast"));
        assert_eq!(status.len(), 2);
        assert!(status.iter().all(|&(_, s)| s == 0));
        assert!(msgs.next().is_none());
    }

    // both flip ready; the next round marks both ready
    send(&mut game, a, ready_changed(1));
    send(&mut game, b, ready_changed(1));
    round(&mut game);
    for id in [a, b] {
        let msgs = outbox(&mut game, id);
        assert_eq!(msgs.len(), 1);
        let status = read_status(msgs.into_iter().next().unwrap());
        assert!(status.iter().all(|&(_, s)| s == 1));
    }

    // unanimity arms the latch (pausing new connections), the io-exchange
    // confirms it, and the following round fixes the roster for good
    assert!(!game.pause_accepting());
    round(&mut game);
    assert!(game.pause_accepting());
    assert!(!game.stop_accepting());
    round(&mut game);
    assert!(game.stop_accepting());
    for id in [a, b] {
        let msgs = outbox(&mut game, id);
        assert_eq!(msgs.len(), 1);
        assert_eq!(msgs[0].message_type(), MessageType::ReadyToStart);
    }

    // the countdown: exactly ten announcements, strictly decreasing to zero
    round(&mut game); // the transition round announces nothing yet
    for id in [a, b] {
        assert!(outbox(&mut game, id).is_empty());
    }
    for expected in (0..10u8).rev() {
        round(&mut game);
        for id in [a, b] {
            let msgs = outbox(&mut game, id);
            assert_eq!(msgs.len(), 1);
            let mut m = msgs.into_iter().next().unwrap();
            assert_eq!(m.message_type(), MessageType::GameAboutToStart);
            assert_eq!(m.pop_u8(), Some(expected));
        }
    }

    // then exactly one GameStarting, and the running phase begins
    round(&mut game);
    for id in [a, b] {
        let msgs = outbox(&mut game, id);
        assert_eq!(msgs.len(), 1);
        assert_eq!(msgs[0].message_type(), MessageType::GameStarting);
    }

    // the running phase answers a captured payload after its dwell
    game.elapsed(ROUND_MS); // moves into Running
    game.elapsed(2001); // past the dwell threshold of the initial sub-state
    game.io_updates();
    for id in [a, b] {
        let msgs = outbox(&mut game, id);
        assert_eq!(msgs.len(), 1);
        assert_eq!(msgs[0].message_type(), MessageType::StubMessage);
    }
}

#[test]
fn a_client_that_never_readies_blocks_the_transition() {
    let mut game = new_game();
    let a = connect(&mut game);
    let b = connect(&mut game);
    send(&mut game, a, connection_requested());
    send(&mut game, b, connection_requested());
    round(&mut game);
    send(&mut game, a, ready_changed(1));
    round(&mut game);
    for _ in 0..8 {
        round(&mut game);
        assert!(!game.stop_accepting());
        for id in [a, b] {
            for m in outbox(&mut game, id) {
                assert_ne!(m.message_type(), MessageType::ReadyToStart);
                assert_ne!(m.message_type(), MessageType::GameAboutToStart);
            }
        }
    }
}

#[test]
fn a_ready_flag_toggling_off_debounces_the_latch() {
    let mut game = new_game();
    let a = connect(&mut game);
    let b = connect(&mut game);
    send(&mut game, a, connection_requested());
    send(&mut game, b, connection_requested());
    round(&mut game);
    send(&mut game, a, ready_changed(1));
    send(&mut game, b, ready_changed(1));
    round(&mut game);

    // this round's time-advance would arm the latch, but b toggles off
    // within the very round
    send(&mut game, b, ready_changed(0));
    round(&mut game);
    assert!(!game.stop_accepting());
    round(&mut game);
    // the latch was reset: still accepting, nothing started
    assert!(!game.stop_accepting());
    assert!(!game.pause_accepting());
    for id in [a, b] {
        for m in outbox(&mut game, id) {
            assert_ne!(m.message_type(), MessageType::ReadyToStart);
        }
    }
}

#[test]
fn a_disconnect_mid_accepting_removes_the_entry_and_unanimity_recovers() {
    let mut game = new_game();
    let a = connect(&mut game);
    let b = connect(&mut game);
    send(&mut game, a, connection_requested());
    send(&mut game, b, connection_requested());
    round(&mut game);
    outbox(&mut game, a);
    outbox(&mut game, b);

    // b vanishes before ever readying; the next round removes its entry
    // outright and reports the disconnect
    game.users_mut().release(b);
    round(&mut game);
    let msgs = outbox(&mut game, a);
    assert_eq!(msgs.len(), 1);
    let status = read_status(msgs.into_iter().next().unwrap());
    assert_eq!(status, vec![(b, 2)]);

    // the remaining client's unanimity now suffices
    send(&mut game, a, ready_changed(1));
    round(&mut game);
    round(&mut game);
    round(&mut game);
    let kinds: Vec<MessageType> = outbox(&mut game, a)
        .iter()
        .map(|m| m.message_type())
        .collect();
    assert!(kinds.contains(&MessageType::ReadyToStart));
}

#[test]
fn chat_reaches_a_later_joiner_once_via_the_snapshot() {
    let mut game = new_game();
    let a = connect(&mut game);
    send(&mut game, a, connection_requested());
    round(&mut game);
    outbox(&mut game, a);

    // a chats while alone; the round commits and echoes the delta
    send(&mut game, a, chat_update(&["hello there"]));
    round(&mut game);
    let msgs = outbox(&mut game, a);
    assert_eq!(msgs.len(), 1);
    assert_eq!(
        read_chat(msgs.into_iter().next().unwrap()),
        vec![(a, "hello there".to_string())]
    );

    // b joins later: the acceptance comes with the one-time full history
    let b = connect(&mut game);
    send(&mut game, b, connection_requested());
    round(&mut game);
    let msgs = outbox(&mut game, b);
    let mut it = msgs.into_iter();
    let (selfid, _) = read_accepted(it.next().expect("acceptance"));
    assert_eq!(selfid, b);
    let history = read_chat(it.next().expect("one-time chat history"));
    assert_eq!(history, vec![(a, "hello there".to_string())]);
    let _status = read_status(it.next().expect("status broadcast"));
    assert!(it.next().is_none(), "no incremental re-send of committed chat");
    let a_msgs = outbox(&mut game, a);
    assert_eq!(a_msgs.len(), 1);
    assert_eq!(read_status(a_msgs.into_iter().next().unwrap()), vec![(b, 0)]);

    // quiet rounds re-send nothing
    round(&mut game);
    assert!(outbox(&mut game, b).is_empty());
    assert!(outbox(&mut game, a).is_empty());
}

#[test]
fn inbound_traffic_during_countdown_is_discarded_not_an_error() {
    let mut game = new_game();
    let a = connect(&mut game);
    send(&mut game, a, connection_requested());
    round(&mut game);
    send(&mut game, a, ready_changed(1));
    round(&mut game);
    round(&mut game);
    round(&mut game);
    round(&mut game); // into the countdown
    send(&mut game, a, chat_update(&["shouting into the void"]));
    send(&mut game, a, ready_changed(0));
    round(&mut game);
    let msgs = outbox(&mut game, a);
    for m in msgs {
        assert_ne!(m.message_type(), MessageType::ChatUpdate);
    }
    assert!(game.users_mut().drain_inbound(a).is_empty());
}

#[test]
fn running_phase_captures_a_payload_and_replies_after_the_dwell() {
    let mut game = new_game();
    let a = connect(&mut game);
    send(&mut game, a, connection_requested());
    round(&mut game);
    send(&mut game, a, ready_changed(1));
    round(&mut game);
    round(&mut game);
    round(&mut game);
    for _ in 0..12 {
        round(&mut game);
    }
    game.elapsed(ROUND_MS); // Starting(true) yields the running phase
    game.elapsed(2001); // the initial sub-state dwells out
    game.io_updates();
    outbox(&mut game, a); // the first reply

    // the client sends an application payload; it is captured while
    // waiting, dwells two units, then exactly one reply comes back
    let mut stub = Message::new(MessageType::StubMessage);
    stub.push_string("ping");
    stub.push_u8(1);
    send(&mut game, a, stub);
    game.io_updates(); // captured
    assert!(outbox(&mut game, a).is_empty());
    game.elapsed(2001);
    game.io_updates();
    let msgs = outbox(&mut game, a);
    assert_eq!(msgs.len(), 1);
    let mut reply = msgs.into_iter().next().unwrap();
    assert_eq!(reply.message_type(), MessageType::StubMessage);
    let count = reply.pop_u8();
    assert_eq!(count, Some(2));
    assert_eq!(
        reply.pop_string().as_deref(),
        Some("At least I can say that I've triiiiiiiiiiied!")
    );
    assert_eq!(
        reply.pop_string().as_deref(),
        Some("Hello from the other siiiiiiiiiide!")
    );
}
