use chat_relay::codec::ChatMessage;
use chat_relay::reader::ReadEvent;
use chat_relay::reader::ReaderAction;
use chat_relay::reader::ReaderState;
use chat_relay::reader::reader_step;
use chat_relay::reader::relay_line;

#[test]
fn clean_close_removes_exactly_once() {
    let (state, action) = reader_step(ReaderState::Reading, &ReadEvent::Closed);
    assert_eq!(state, ReaderState::Terminated);
    assert!(matches!(action, ReaderAction::RemoveAndStop));
    // terminated is absorbing: no further event removes anything
    let (state, action) = reader_step(state, &ReadEvent::Closed);
    assert_eq!(state, ReaderState::Terminated);
    assert!(matches!(action, ReaderAction::DoNothing));
    let (state, action) = reader_step(state, &ReadEvent::Line("{\"data\":[1]}\n".to_string()));
    assert_eq!(state, ReaderState::Terminated);
    assert!(matches!(action, ReaderAction::DoNothing));
}

#[test]
fn read_failure_terminates_like_a_close() {
    let (state, action) = reader_step(ReaderState::Reading, &ReadEvent::Failed);
    assert_eq!(state, ReaderState::Terminated);
    assert!(matches!(action, ReaderAction::RemoveAndStop));
}

#[test]
fn a_message_line_is_relayed_and_reading_goes_on() {
    let line = "{\"data\":[104,101,108,108,111,10],\"user_name\":\"alice\"}\n";
    let (state, action) = reader_step(ReaderState::Reading, &ReadEvent::Line(line.to_string()));
    assert_eq!(state, ReaderState::Reading);
    match action {
        ReaderAction::Relay(out) => assert_eq!(out, "alice: hello"),
        _ => panic!("a decoded message must be relayed"),
    }
}

#[test]
fn a_heartbeat_is_not_relayed() {
    let (state, action) = reader_step(ReaderState::Reading, &ReadEvent::Line("\n".to_string()));
    assert_eq!(state, ReaderState::Reading);
    assert!(matches!(action, ReaderAction::DoNothing));
}

#[test]
fn malformed_line_is_reported_and_the_connection_stays_open() {
    let (state, action) =
        reader_step(ReaderState::Reading, &ReadEvent::Line("not json\n".to_string()));
    assert_eq!(state, ReaderState::Reading);
    assert!(matches!(action, ReaderAction::ReportMalformed));
    // the next valid line still goes through
    let line = "{\"data\":[104,105],\"user_name\":\"bob\"}\n";
    let (state, action) = reader_step(state, &ReadEvent::Line(line.to_string()));
    assert_eq!(state, ReaderState::Reading);
    match action {
        ReaderAction::Relay(out) => assert_eq!(out, "bob: hi"),
        _ => panic!("a decoded message must be relayed"),
    }
}

#[test]
fn relay_strips_at_most_one_trailing_newline() {
    let m = ChatMessage { payload: b"hello\n".to_vec(), sender: Some("alice".to_string()) };
    assert_eq!(relay_line(&m), "alice: hello");
    let m = ChatMessage { payload: b"hello\n\n".to_vec(), sender: Some("alice".to_string()) };
    assert_eq!(relay_line(&m), "alice: hello\n");
    let m = ChatMessage { payload: b"hello \t".to_vec(), sender: Some("alice".to_string()) };
    assert_eq!(relay_line(&m), "alice: hello \t");
}

#[test]
fn relay_without_sender_shows_the_bare_text() {
    let m = ChatMessage { payload: b"old style\n".to_vec(), sender: None };
    assert_eq!(relay_line(&m), "old style");
}
