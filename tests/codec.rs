use t3xt::codec::DecodeError;
use t3xt::message::{Message, MessageType, Timestamp};

fn sample(kind: MessageType, to: Option<&str>) -> Message {
    Message {
        id: "id-1".to_string(),
        timestamp: Timestamp { secs: 1_700_000_000, nanos: 5 },
        from_server: "p1".to_string(),
        to_server: to.map(|s| s.to_string()),
        message_type: kind,
    }
}

#[test]
fn encodes_text_exactly() {
    let m = sample(MessageType::Text { content: "hi".to_string() }, None);
    let text = String::from_utf8(m.to_bytes()).unwrap();
    assert_eq!(
        text,
        "{\"id\":\"id-1\",\"timestamp\":[1700000000,5],\"from_server\":\"p1\",\"to_server\":null,\"message_type\":{\"Text\":{\"content\":\"hi\"}}}"
    );
}

#[test]
fn encodes_ping_and_recipient() {
    let m = sample(MessageType::Ping, Some("p2"));
    let text = String::from_utf8(m.to_bytes()).unwrap();
    assert_eq!(
        text,
        "{\"id\":\"id-1\",\"timestamp\":[1700000000,5],\"from_server\":\"p1\",\"to_server\":\"p2\",\"message_type\":\"Ping\"}"
    );
}

#[test]
fn escapes_quotes_backslashes_and_controls() {
    let m = sample(MessageType::Text { content: "a\"b\\c\nd\u{1}".to_string() }, None);
    let text = String::from_utf8(m.to_bytes()).unwrap();
    assert!(text.contains("\"content\":\"a\\\"b\\\\c\\nd\\u0001\""));
}

#[test]
fn round_trip_every_kind() {
    let kinds = vec![
        MessageType::Text { content: "héllo, 世界 🎉 \"q\" \\ \t".to_string() },
        MessageType::Hello { server_id: "p1".to_string() },
        MessageType::Welcome { server_id: "server".to_string() },
        MessageType::Ping,
        MessageType::Pong,
    ];
    for k in kinds {
        for to in [None, Some("p2")] {
            let m = sample(k.clone(), to);
            let back = Message::from_bytes(&m.to_bytes()).unwrap();
            assert_eq!(back, m);
        }
    }
}

#[test]
fn round_trip_extreme_timestamps() {
    for (secs, nanos) in [(i64::MIN, 0u32), (i64::MAX, 1_999_999_999), (-1, 999_999_999), (0, 0)] {
        let mut m = sample(MessageType::Pong, None);
        m.timestamp = Timestamp { secs, nanos };
        let back = Message::from_bytes(&m.to_bytes()).unwrap();
        assert_eq!(back, m);
    }
}

#[test]
fn equality_looks_at_every_field() {
    let a = sample(MessageType::Text { content: "x".to_string() }, None);
    let mut b = a.clone();
    assert_eq!(a, b);
    b.to_server = Some("p".to_string());
    assert_ne!(a, b);
    let mut c = a.clone();
    c.message_type = MessageType::Text { content: "y".to_string() };
    assert_ne!(a, c);
    let mut d = a.clone();
    d.timestamp.nanos = 6;
    assert_ne!(a, d);
}

#[test]
fn round_trip_fresh_message() {
    let m = Message::new("node".to_string(), MessageType::Text { content: "x".to_string() });
    let back = Message::from_bytes(&m.to_bytes()).unwrap();
    assert_eq!(back, m);
}

#[test]
fn decodes_blanks_reordered_and_unknown_members() {
    let text = " { \"message_type\" : { \"Hello\" : { \"extra\" : [1, {\"a\": null}, true], \"server_id\" : \"p\\u00e9\" } } ,\n \"note\": -1.5e3, \"from_server\":\"x\", \"timestamp\" : [ -7 , 8 ], \"id\":\"\\/i\" } ";
    let m = Message::from_bytes(text.as_bytes()).unwrap();
    assert_eq!(m.id, "/i");
    assert_eq!(m.from_server, "x");
    assert_eq!(m.to_server, None);
    assert_eq!(m.timestamp, Timestamp { secs: -7, nanos: 8 });
    assert!(matches!(m.message_type, MessageType::Hello { ref server_id } if server_id == "pé"));
}

#[test]
fn refuses_invalid_utf8() {
    let bytes = vec![0x7b, 0xff, 0x7d];
    assert_eq!(Message::from_bytes(&bytes).unwrap_err(), DecodeError::InvalidUtf8);
}

#[test]
fn refuses_unknown_kind() {
    let text = "{\"id\":\"a\",\"timestamp\":[1,2],\"from_server\":\"b\",\"message_type\":\"Shout\"}";
    assert_eq!(Message::from_bytes(text.as_bytes()).unwrap_err(), DecodeError::Malformed);
    let text = "{\"id\":\"a\",\"timestamp\":[1,2],\"from_server\":\"b\",\"message_type\":{\"FileData\":{\"content\":\"x\"}}}";
    assert_eq!(Message::from_bytes(text.as_bytes()).unwrap_err(), DecodeError::Malformed);
}

#[test]
fn refuses_duplicate_missing_and_trailing() {
    let dup = "{\"id\":\"a\",\"id\":\"b\",\"timestamp\":[1,2],\"from_server\":\"b\",\"message_type\":\"Ping\"}";
    assert_eq!(Message::from_bytes(dup.as_bytes()).unwrap_err(), DecodeError::Malformed);
    let missing = "{\"timestamp\":[1,2],\"from_server\":\"b\",\"message_type\":\"Ping\"}";
    assert_eq!(Message::from_bytes(missing.as_bytes()).unwrap_err(), DecodeError::Malformed);
    let trailing = "{\"id\":\"a\",\"timestamp\":[1,2],\"from_server\":\"b\",\"message_type\":\"Ping\"} x";
    assert_eq!(Message::from_bytes(trailing.as_bytes()).unwrap_err(), DecodeError::Malformed);
    assert_eq!(Message::from_bytes(b"").unwrap_err(), DecodeError::Malformed);
}

#[test]
fn refuses_out_of_range_numbers() {
    let big = "{\"id\":\"a\",\"timestamp\":[9223372036854775808,2],\"from_server\":\"b\",\"message_type\":\"Ping\"}";
    assert_eq!(Message::from_bytes(big.as_bytes()).unwrap_err(), DecodeError::Malformed);
    let nanos = "{\"id\":\"a\",\"timestamp\":[1,2000000000],\"from_server\":\"b\",\"message_type\":\"Ping\"}";
    assert_eq!(Message::from_bytes(nanos.as_bytes()).unwrap_err(), DecodeError::Malformed);
    let low = "{\"id\":\"a\",\"timestamp\":[-9223372036854775808,0],\"from_server\":\"b\",\"message_type\":\"Ping\"}";
    assert_eq!(Message::from_bytes(low.as_bytes()).unwrap().timestamp.secs, i64::MIN);
}

#[test]
fn refuses_surrogate_escape_and_raw_control() {
    let sur = "{\"id\":\"\\ud83d\",\"timestamp\":[1,2],\"from_server\":\"b\",\"message_type\":\"Ping\"}";
    assert_eq!(Message::from_bytes(sur.as_bytes()).unwrap_err(), DecodeError::Malformed);
    let raw = "{\"id\":\"a\nb\",\"timestamp\":[1,2],\"from_server\":\"b\",\"message_type\":\"Ping\"}";
    assert_eq!(Message::from_bytes(raw.as_bytes()).unwrap_err(), DecodeError::Malformed);
}

#[test]
fn new_gives_fresh_ids_and_current_time() {
    let a = Message::new("n".to_string(), MessageType::Ping);
    let b = Message::new_to("n".to_string(), "m".to_string(), MessageType::Pong);
    assert_eq!(a.id.len(), 36);
    assert_eq!(b.id.len(), 36);
    assert_ne!(a.id, b.id);
    assert_eq!(b.to_server, Some("m".to_string()));
    assert!(a.timestamp.secs > 1_600_000_000);
    assert!(a.timestamp.nanos < 2_000_000_000);
}
