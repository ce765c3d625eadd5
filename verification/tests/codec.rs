use chat_relay::codec::ChatMessage;
use chat_relay::codec::decode;
use chat_relay::codec::encode;

fn round_trip(payload: Vec<u8>, sender: Option<&str>) {
    let msg = ChatMessage {
        payload: payload.clone(),
        sender: sender.map(|s| s.to_string()),
    };
    let line = encode(&msg);
    let back = decode(&line).expect("an encoded frame must decode").expect("not a heartbeat");
    assert_eq!(back.payload, payload);
    assert_eq!(back.sender, sender.map(|s| s.to_string()));
}

#[test]
fn encode_exact_wire_line() {
    let msg = ChatMessage {
        payload: vec![104, 101],
        sender: Some("ab".to_string()),
    };
    assert_eq!(encode(&msg), "{\"data\":[104,101],\"user_name\":\"ab\"}\n");
}

#[test]
fn encode_exact_wire_line_without_sender() {
    let msg = ChatMessage { payload: vec![0], sender: None };
    assert_eq!(encode(&msg), "{\"data\":[0]}\n");
}

#[test]
fn round_trip_simple_message() {
    round_trip(b"hello\n".to_vec(), Some("alice"));
}

#[test]
fn round_trip_empty_payload() {
    round_trip(Vec::new(), Some("alice"));
    round_trip(Vec::new(), None);
}

#[test]
fn round_trip_payload_with_newlines_and_extremes() {
    round_trip(vec![0, 10, 255, 10, 13, 1, 99, 100, 200], Some("bob"));
    round_trip(vec![10, 10, 10], None);
}

#[test]
fn round_trip_sender_needing_escapes() {
    round_trip(b"x".to_vec(), Some("a\"b"));
    round_trip(b"x".to_vec(), Some("back\\slash"));
    round_trip(b"x".to_vec(), Some("line\nfeed\rreturn"));
    round_trip(b"x".to_vec(), Some(""));
}

#[test]
fn decode_accepts_line_without_trailing_newline() {
    let m = decode("{\"data\":[7,8]}").unwrap().unwrap();
    assert_eq!(m.payload, vec![7, 8]);
    assert_eq!(m.sender, None);
}

#[test]
fn decode_heartbeat() {
    assert_eq!(decode("\n").unwrap().is_none(), true);
    assert_eq!(decode("").unwrap().is_none(), true);
}

#[test]
fn decode_rejects_malformed_lines() {
    // not a frame at all
    assert!(decode("garbage\n").is_err());
    // leading zero is not canonical
    assert!(decode("{\"data\":[01]}\n").is_err());
    // byte value out of range
    assert!(decode("{\"data\":[256]}\n").is_err());
    // trailing comma
    assert!(decode("{\"data\":[1,]}\n").is_err());
    // missing closing brace
    assert!(decode("{\"data\":[1]\n").is_err());
    // unknown escape in the sender name
    assert!(decode("{\"data\":[1],\"user_name\":\"a\\x\"}\n").is_err());
    // unterminated sender name
    assert!(decode("{\"data\":[1],\"user_name\":\"a}\n").is_err());
    // trailing text after the record
    assert!(decode("{\"data\":[1]}x\n").is_err());
}
