use t3xt::broadcast::broadcast_targets;
use t3xt::codec::DecodeError;
use t3xt::frame::{receive_frame, ReceiveError, CONTROL_FRAME_LIMIT};
use t3xt::lifecycle::{event_from, on_event, Action, Event, Phase};
use t3xt::message::{Message, MessageType, Timestamp};
use t3xt::registry::Registry;

fn msg(from: &str, kind: MessageType) -> Message {
    Message {
        id: "m".to_string(),
        timestamp: Timestamp { secs: 0, nanos: 0 },
        from_server: from.to_string(),
        to_server: None,
        message_type: kind,
    }
}

fn hello(id: &str) -> Event {
    Event::Received(msg(id, MessageType::Hello { server_id: id.to_string() }))
}

#[test]
fn text_before_hello_closes_without_registering() {
    let mut reg: Registry<u32> = Registry::new();
    let mut phase = Phase::Handshaking;
    let local = "server".to_string();
    let ev = Event::Received(msg("x", MessageType::Text { content: "hi".to_string() }));
    let actions = on_event(&mut phase, &mut reg, 7, &local, ev);
    assert!(matches!(phase, Phase::Closed));
    assert_eq!(reg.count(), 0);
    assert_eq!(actions.len(), 1);
    assert!(matches!(actions[0], Action::Close));
    let later = on_event(&mut phase, &mut reg, 7, &local, hello("x"));
    assert!(later.is_empty());
    assert_eq!(reg.count(), 0);
}

#[test]
fn undecodable_first_message_closes() {
    let mut reg: Registry<u32> = Registry::new();
    let mut phase = Phase::Handshaking;
    let actions = on_event(&mut phase, &mut reg, 1, &"s".to_string(), Event::Undecodable(DecodeError::Malformed));
    assert!(matches!(phase, Phase::Closed));
    assert!(matches!(actions[0], Action::Close));
    assert_eq!(reg.count(), 0);
}

#[test]
fn two_peers_join_chat_and_leave() {
    let mut reg: Registry<u32> = Registry::new();
    let local = "server".to_string();
    let mut p1 = Phase::Handshaking;
    let mut p2 = Phase::Handshaking;
    for (phase, id, conn) in [(&mut p1, "p1", 1u32), (&mut p2, "p2", 2u32)] {
        let actions = on_event(phase, &mut reg, conn, &local, hello(id));
        assert_eq!(actions.len(), 1);
        match &actions[0] {
            Action::Reply(MessageType::Welcome { server_id }) => assert_eq!(server_id, "server"),
            _ => panic!("expected a welcome"),
        }
    }
    assert_eq!(reg.count(), 2);

    let ev = Event::Received(msg("p1", MessageType::Text { content: "hi".to_string() }));
    let actions = on_event(&mut p1, &mut reg, 1, &local, ev);
    assert_eq!(actions.len(), 1);
    let (origin, message) = match &actions[0] {
        Action::Broadcast { origin, message } => (origin.clone(), message.clone()),
        _ => panic!("expected a broadcast"),
    };
    assert_eq!(origin, "p1");
    assert!(matches!(message.message_type, MessageType::Text { ref content } if content == "hi"));
    let snap = reg.snapshot();
    let targets = broadcast_targets(&snap, &origin);
    assert_eq!(targets.len(), 1);
    assert_eq!(snap[targets[0]], ("p2".to_string(), 2));

    let actions = on_event(&mut p2, &mut reg, 2, &local, Event::ConnectionLost);
    assert!(actions.is_empty());
    assert!(matches!(p2, Phase::Closed));
    assert_eq!(reg.count(), 1);
    let snap = reg.snapshot();
    assert_eq!(broadcast_targets(&snap, &"p1".to_string()).len(), 0);
}

#[test]
fn oversized_stream_keeps_the_peer_registered() {
    let mut reg: Registry<u32> = Registry::new();
    let local = "server".to_string();
    let mut phase = Phase::Handshaking;
    on_event(&mut phase, &mut reg, 1, &local, hello("p1"));
    let big = vec![b' '; CONTROL_FRAME_LIMIT + 1];
    let r = receive_frame(&big, CONTROL_FRAME_LIMIT);
    assert_eq!(r.as_ref().unwrap_err(), &ReceiveError::Capacity);
    let ev = event_from(r);
    assert!(matches!(ev, Event::Oversized));
    let actions = on_event(&mut phase, &mut reg, 1, &local, ev);
    assert!(actions.is_empty());
    assert!(matches!(phase, Phase::Active { ref peer } if peer == "p1"));
    assert_eq!(reg.count(), 1);
    on_event(&mut phase, &mut reg, 1, &local, Event::ConnectionLost);
    assert_eq!(reg.count(), 0);
}

#[test]
fn active_connection_answers_ping_and_ignores_the_rest() {
    let mut reg: Registry<u32> = Registry::new();
    let local = "server".to_string();
    let mut phase = Phase::Active { peer: "p".to_string() };
    let a = on_event(&mut phase, &mut reg, 1, &local, Event::Received(msg("p", MessageType::Ping)));
    assert!(matches!(a[0], Action::Reply(MessageType::Pong)));
    for ev in [
        Event::Received(msg("p", MessageType::Pong)),
        hello("q"),
        Event::Received(msg("p", MessageType::Welcome { server_id: "w".to_string() })),
        Event::Undecodable(DecodeError::InvalidUtf8),
        Event::StreamFailed,
    ] {
        assert!(on_event(&mut phase, &mut reg, 1, &local, ev).is_empty());
        assert!(matches!(phase, Phase::Active { .. }));
    }
    assert_eq!(reg.count(), 0);
}

#[test]
fn frames_within_the_bound_decode() {
    let m = msg("p", MessageType::Ping);
    let bytes = m.to_bytes();
    let back = receive_frame(&bytes, bytes.len()).unwrap();
    assert_eq!(back.from_server, "p");
    assert_eq!(receive_frame(&bytes, bytes.len() - 1).unwrap_err(), ReceiveError::Capacity);
    assert_eq!(
        receive_frame(b"nope", CONTROL_FRAME_LIMIT).unwrap_err(),
        ReceiveError::Decoding(DecodeError::Malformed)
    );
}
