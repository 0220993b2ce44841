//! Tests for the per-connection session: heartbeat eviction, frame dispatch,
//! and configuration loading.
use room_broker::banker::client_timeout;
use room_broker::banker::heartbeat_interval;
use room_broker::banker::is_terminal;
use room_broker::banker::Banker;
use room_broker::banker::ConfigError;
use room_broker::banker::Frame;
use room_broker::banker::FrameAction;
use room_broker::banker::ProbeAction;
use room_broker::controllers::ws_controller;
use room_broker::game_room::GameRoom;
use room_broker::message::Connect;

#[test]
fn new_session_takes_room_and_heartbeat() {
    let b = Banker::new(3, 1000);
    assert_eq!(b.room_id, 3);
    assert_eq!(b.hb, 1000);
}

#[test]
fn silent_session_is_evicted_after_timeout() {
    let b = Banker { room_id: 4, hb: 1000, id: 9 };
    match b.hb(1000 + 5000 + 1, 5000) {
        ProbeAction::Evict(d) => {
            assert_eq!(d.id, 9);
            assert_eq!(d.room_id, 4);
        },
        ProbeAction::Ping => panic!("expected eviction"),
    }
}

#[test]
fn live_session_is_pinged() {
    let b = Banker { room_id: 4, hb: 1000, id: 9 };
    assert!(matches!(b.hb(1000 + 5000, 5000), ProbeAction::Ping));
    assert!(matches!(b.hb(1000, 5000), ProbeAction::Ping));
}

#[test]
fn eviction_removes_membership_and_notifies_peers() {
    // the probe decides to evict; feeding that decision to the registry
    // removes the session and tells the remaining member, with no close
    // signal from the transport
    let mut room = GameRoom::default();
    let _ = room.handle_connect(Connect { id: 9, room_id: 4, addr: 19 });
    let _ = room.handle_connect(Connect { id: 2, room_id: 4, addr: 12 });
    let b = Banker { room_id: 4, hb: 1000, id: 9 };
    let notice = match b.hb(999999, 5000) {
        ProbeAction::Evict(d) => d,
        ProbeAction::Ping => panic!("expected eviction"),
    };
    let out = room.handle_disconnect(notice);
    assert_eq!(out.len(), 1);
    assert_eq!(out[0].to, 2);
    assert_eq!(out[0].msg.0, "disconnected 9");
    assert!(room.send_message("x", 9).is_none());
}

#[test]
fn ping_frame_refreshes_heartbeat_and_answers_pong() {
    let mut b = Banker { room_id: 1, hb: 5, id: 3 };
    let a = b.handle(Frame::Ping(vec![1, 2]), 77);
    assert_eq!(b.hb, 77);
    match a {
        FrameAction::Pong(p) => assert_eq!(p, vec![1, 2]),
        _ => panic!("expected a pong"),
    }
    assert!(!is_terminal(&FrameAction::Pong(vec![])));
}

#[test]
fn pong_frame_refreshes_heartbeat_silently() {
    let mut b = Banker { room_id: 1, hb: 5, id: 3 };
    let a = b.handle(Frame::Pong(vec![]), 88);
    assert_eq!(b.hb, 88);
    assert!(matches!(a, FrameAction::Ignore));
}

#[test]
fn text_frame_is_forwarded_to_the_registry() {
    let mut b = Banker { room_id: 6, hb: 5, id: 3 };
    let a = b.handle(Frame::Text("hi all".to_string()), 99);
    assert_eq!(b.hb, 5);
    match a {
        FrameAction::Forward(m) => {
            assert_eq!(m.id, 3);
            assert_eq!(m.room_id, 6);
            assert_eq!(m.msg, "hi all");
        },
        _ => panic!("expected a forward"),
    }
}

#[test]
fn binary_frame_is_relayed_unchanged() {
    let mut b = Banker { room_id: 1, hb: 5, id: 3 };
    match b.handle(Frame::Binary(vec![9, 9]), 99) {
        FrameAction::Binary(p) => assert_eq!(p, vec![9, 9]),
        _ => panic!("expected a binary relay"),
    }
}

#[test]
fn close_and_continuation_end_the_session() {
    let mut b = Banker { room_id: 1, hb: 5, id: 3 };
    let a = b.handle(Frame::Close, 99);
    assert!(matches!(a, FrameAction::CloseEcho));
    assert!(is_terminal(&a));
    let a = b.handle(Frame::Continuation, 99);
    assert!(matches!(a, FrameAction::Stop));
    assert!(is_terminal(&a));
}

#[test]
fn nop_and_decode_errors_are_ignored() {
    let mut b = Banker { room_id: 1, hb: 5, id: 3 };
    assert!(matches!(b.handle(Frame::Nop, 99), FrameAction::Ignore));
    assert!(matches!(b.handle(Frame::DecodeError, 99), FrameAction::Ignore));
    assert_eq!(b.hb, 5);
}

#[test]
fn session_lifecycle_records_carry_its_identity() {
    let b = Banker { room_id: 8, hb: 5, id: 21 };
    let c = b.started(77);
    assert_eq!(c.id, 21);
    assert_eq!(c.room_id, 8);
    assert_eq!(c.addr, 77);
    let d = b.stopping();
    assert_eq!(d.id, 21);
    assert_eq!(d.room_id, 8);
    let m = ws_controller(&b, "yo".to_string());
    assert_eq!(m.id, 21);
    assert_eq!(m.room_id, 8);
    assert_eq!(m.msg, "yo");
}

#[test]
fn configuration_values_parse_or_fail_fatally() {
    assert!(matches!(heartbeat_interval(None), Err(ConfigError::Missing)));
    assert!(matches!(heartbeat_interval(Some("abc")), Err(ConfigError::Invalid)));
    assert!(matches!(heartbeat_interval(Some("")), Err(ConfigError::Invalid)));
    assert!(matches!(heartbeat_interval(Some("5000")), Ok(5000)));
    assert!(matches!(client_timeout(None), Err(ConfigError::Missing)));
    assert!(matches!(client_timeout(Some("10")), Ok(10)));
    assert!(matches!(client_timeout(Some("-1")), Err(ConfigError::Invalid)));
    assert!(matches!(
        client_timeout(Some("99999999999999999999999")),
        Err(ConfigError::Invalid)
    ));
}
