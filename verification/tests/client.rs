use chat_relay::client::InputBuffer;
use chat_relay::client::LocalMessage;
use chat_relay::client::SocketMessage;
use chat_relay::client::console_line;
use chat_relay::client::inbound_message;

#[test]
fn socket_message_keeps_its_fields() {
    let m = SocketMessage::new(b"hi\n".to_vec(), "alice".to_string());
    assert_eq!(m.data, b"hi\n".to_vec());
    assert_eq!(m.username, "alice");
}

#[test]
fn socket_message_wire_line_is_exact() {
    let m = SocketMessage::new(vec![104, 105], "alice".to_string());
    assert_eq!(m.wire_line(), "{\"data\":[104,105],\"user_name\":\"alice\"}\n");
}

#[test]
fn local_message_keeps_its_fields() {
    let m = LocalMessage::new("hi".to_string(), Some("bob".to_string()));
    assert_eq!(m.content, "hi");
    assert_eq!(m.username, Some("bob".to_string()));
}

#[test]
fn console_line_shows_the_sender_or_you() {
    let m = LocalMessage::new("hi".to_string(), Some("bob".to_string()));
    assert_eq!(console_line(&m), "bob: hi");
    let own = LocalMessage::new("hi".to_string(), None);
    assert_eq!(console_line(&own), "You: hi");
}

#[test]
fn input_buffer_edits_like_a_line_editor() {
    let mut buf = InputBuffer::new();
    buf.push('h');
    buf.push('x');
    buf.backspace();
    buf.push('i');
    let (text, bytes) = buf.submit();
    assert_eq!(text, "hi");
    assert_eq!(bytes, b"hi".to_vec());
    // the buffer is empty again
    let (text, bytes) = buf.submit();
    assert_eq!(text, "");
    assert_eq!(bytes, Vec::<u8>::new());
}

#[test]
fn backspace_on_an_empty_buffer_does_nothing() {
    let mut buf = InputBuffer::new();
    buf.backspace();
    buf.push('a');
    let (text, _) = buf.submit();
    assert_eq!(text, "a");
}

#[test]
fn inbound_message_is_shown_under_its_sender() {
    let r = inbound_message("{\"data\":[104,105,10],\"user_name\":\"bob\"}\n");
    let m = r.unwrap().unwrap();
    assert_eq!(m.content, "hi");
    assert_eq!(m.username, Some("bob".to_string()));
}

#[test]
fn inbound_heartbeat_shows_nothing() {
    assert!(inbound_message("\n").unwrap().is_none());
}

#[test]
fn inbound_malformed_line_is_an_error() {
    assert!(inbound_message("{\"data\":[1,2}\n").is_err());
}
