use chat_relay::client::SocketMessage;
use chat_relay::reader::ReadEvent;
use chat_relay::reader::ReaderAction;
use chat_relay::reader::ReaderState;
use chat_relay::reader::reader_step;
use chat_relay::registry::Registry;

// A client sends "hello\n" as user "alice"; the server decodes the
// payload, strips the newline for display, and relays "alice: hello".
#[test]
fn hello_from_alice_is_relayed() {
    let wire = SocketMessage::new(b"hello\n".to_vec(), "alice".to_string()).wire_line();
    let (state, action) = reader_step(ReaderState::Reading, &ReadEvent::Line(wire));
    assert_eq!(state, ReaderState::Reading);
    match action {
        ReaderAction::Relay(out) => assert_eq!(out, "alice: hello"),
        _ => panic!("the message must be relayed"),
    }
}

// Two clients connect; alice sends a message; bob disconnects on his
// own connection; the registry keeps exactly alice's entry and alice's
// message still goes through.
#[test]
fn bob_disconnecting_does_not_disturb_alice() {
    let mut reg = Registry::new();
    let alice_id = reg.register();
    let bob_id = reg.register();
    assert_eq!(reg.find_and_claim_unassigned(), Some(alice_id));
    assert_eq!(reg.find_and_claim_unassigned(), Some(bob_id));

    let wire = SocketMessage::new(b"hi all\n".to_vec(), "alice".to_string()).wire_line();
    let (alice_state, action) = reader_step(ReaderState::Reading, &ReadEvent::Line(wire));
    assert!(matches!(action, ReaderAction::Relay(_)));

    // bob's reader sees the close and removes bob's entry, once
    let (bob_state, action) = reader_step(ReaderState::Reading, &ReadEvent::Closed);
    assert_eq!(bob_state, ReaderState::Terminated);
    assert!(matches!(action, ReaderAction::RemoveAndStop));
    assert!(reg.remove_by_identity(bob_id));
    assert_eq!(reg.len(), 1);
    assert!(!reg.remove_by_identity(bob_id));

    // alice's reader goes on undisturbed
    let wire = SocketMessage::new(b"still here\n".to_vec(), "alice".to_string()).wire_line();
    let (alice_state, action) = reader_step(alice_state, &ReadEvent::Line(wire));
    assert_eq!(alice_state, ReaderState::Reading);
    match action {
        ReaderAction::Relay(out) => assert_eq!(out, "alice: still here"),
        _ => panic!("alice's message must still be relayed"),
    }
}

// A line with invalid body syntax is reported as malformed and the
// connection stays open for the next valid line.
#[test]
fn malformed_line_then_valid_line() {
    let (state, action) = reader_step(
        ReaderState::Reading,
        &ReadEvent::Line("{\"data\":[\"oops\"]}\n".to_string()),
    );
    assert_eq!(state, ReaderState::Reading);
    assert!(matches!(action, ReaderAction::ReportMalformed));
    let wire = SocketMessage::new(b"ok\n".to_vec(), "carol".to_string()).wire_line();
    let (state, action) = reader_step(state, &ReadEvent::Line(wire));
    assert_eq!(state, ReaderState::Reading);
    match action {
        ReaderAction::Relay(out) => assert_eq!(out, "carol: ok"),
        _ => panic!("the connection must still process valid lines"),
    }
}
