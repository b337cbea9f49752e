use t3xt::heartbeat::{Heartbeat, HEARTBEAT_PERIOD_SECS};
use t3xt::message::{Message, MessageType, Timestamp};

fn at(secs: i64, nanos: u32, kind: MessageType) -> Message {
    Message {
        id: "m".to_string(),
        timestamp: Timestamp { secs, nanos },
        from_server: "alice".to_string(),
        to_server: None,
        message_type: kind,
    }
}

#[test]
fn text_line() {
    let m = at(45_296, 0, MessageType::Text { content: "hi there".to_string() });
    assert_eq!(m.format_display(), "[12:34:56] alice: hi there");
}

#[test]
fn hello_and_welcome_lines() {
    let h = at(0, 0, MessageType::Hello { server_id: "p1".to_string() });
    assert_eq!(h.format_display(), "[00:00:00] p1 加入聊天室");
    let w = at(86_399, 0, MessageType::Welcome { server_id: "p2".to_string() });
    assert_eq!(w.format_display(), "[23:59:59] 欢迎 p2 加入");
}

#[test]
fn heartbeats_show_nothing() {
    assert_eq!(at(1, 0, MessageType::Ping).format_display(), "");
    assert_eq!(at(1, 0, MessageType::Pong).format_display(), "");
}

#[test]
fn times_before_the_epoch_and_leap_seconds() {
    let m = at(-1, 0, MessageType::Text { content: "x".to_string() });
    assert_eq!(m.format_display(), "[23:59:59] alice: x");
    let leap = at(86_399, 1_500_000_000, MessageType::Text { content: "x".to_string() });
    assert_eq!(leap.format_display(), "[23:59:60] alice: x");
}

#[test]
fn heartbeat_stops_after_a_failed_probe() {
    let mut hb = Heartbeat::new(HEARTBEAT_PERIOD_SECS);
    assert_eq!(hb.period_secs, 30);
    assert!(matches!(hb.on_tick(), Some(MessageType::Ping)));
    hb.on_send_result(true);
    assert!(hb.running);
    hb.on_send_result(false);
    assert!(!hb.running);
    assert!(hb.on_tick().is_none());
    hb.on_send_result(true);
    assert!(!hb.running);
}
