//! Scenario tests for the room registry: membership, notification, routing,
//! idempotent leave, and room cleanup.
use room_broker::game_room::GameRoom;
use room_broker::message::ClientActorMessage;
use room_broker::message::Connect;
use room_broker::message::Delivery;
use room_broker::message::Disconnect;

fn join(room: &mut GameRoom, id: u128, room_id: u64, addr: u64) -> Vec<Delivery> {
    room.handle_connect(Connect { id, room_id, addr })
}

fn route(room: &GameRoom, id: u128, room_id: u64, msg: &str) -> Vec<Delivery> {
    room.handle_client_message(&ClientActorMessage { id, room_id, msg: msg.to_string() })
}

#[test]
fn join_registers_session_and_acknowledges() {
    let mut room = GameRoom::default();
    let out = join(&mut room, 7, 1, 42);
    assert_eq!(out.len(), 1);
    assert_eq!(out[0].to, 7);
    assert_eq!(out[0].handle, 42);
    assert_eq!(out[0].msg.0, "info 7");
    // the handle is registered under the id, and stays so across routing
    assert!(room.is_registered(7));
    assert!(room.is_member(7, 1));
    let d = room.send_message("x", 7).expect("session must be registered");
    assert_eq!(d.handle, 42);
    let _ = route(&room, 7, 1, "hello");
    let d = room.send_message("y", 7).expect("routing must not unregister");
    assert_eq!(d.handle, 42);
    assert!(room.is_member(7, 1));
}

#[test]
fn join_notifies_existing_members_first_then_self() {
    let mut room = GameRoom::default();
    let _ = join(&mut room, 1, 9, 11);
    let out = join(&mut room, 5, 9, 15);
    assert_eq!(out.len(), 2);
    assert_eq!(out[0].to, 1);
    assert_eq!(out[0].handle, 11);
    assert_eq!(out[0].msg.0, "connected 5");
    assert_eq!(out[1].to, 5);
    assert_eq!(out[1].handle, 15);
    assert_eq!(out[1].msg.0, "info 5");
    // the membership is durable by the time the notice is observable: a
    // broadcast routed right after the join already reaches the newcomer
    let out = route(&room, 1, 9, "hi");
    assert_eq!(out.len(), 2);
    let mut tos: Vec<u128> = out.iter().map(|d| d.to).collect();
    tos.sort();
    assert_eq!(tos, vec![1, 5]);
}

#[test]
fn broadcast_reaches_every_member_including_sender() {
    let mut room = GameRoom::default();
    let _ = join(&mut room, 1, 1, 11);
    let _ = join(&mut room, 2, 1, 12);
    let _ = join(&mut room, 3, 1, 13);
    let out = route(&room, 1, 1, "hello");
    assert_eq!(out.len(), 3);
    let mut tos: Vec<u128> = out.iter().map(|d| d.to).collect();
    tos.sort();
    assert_eq!(tos, vec![1, 2, 3]);
    for d in &out {
        assert_eq!(d.msg.0, "hello");
    }
}

#[test]
fn broadcast_to_unknown_room_delivers_nothing() {
    let mut room = GameRoom::default();
    let _ = join(&mut room, 1, 1, 11);
    let out = route(&room, 1, 2, "hello");
    assert_eq!(out.len(), 0);
}

#[test]
fn whisper_goes_only_to_its_target_across_rooms() {
    let mut room = GameRoom::default();
    let _ = join(&mut room, 1, 1, 11);
    let _ = join(&mut room, 2, 1, 12);
    let _ = join(&mut room, 3, 2, 13);
    let out = route(&room, 1, 1, "/w 3 hi");
    assert_eq!(out.len(), 1);
    assert_eq!(out[0].to, 3);
    assert_eq!(out[0].handle, 13);
    assert_eq!(out[0].msg.0, "/w 3 hi");
}

#[test]
fn whisper_to_unknown_target_is_dropped() {
    let mut room = GameRoom::default();
    let _ = join(&mut room, 1, 1, 11);
    let out = route(&room, 1, 1, "/w 99 hi");
    assert_eq!(out.len(), 0);
}

#[test]
fn malformed_whisper_is_dropped_silently() {
    let mut room = GameRoom::default();
    let _ = join(&mut room, 1, 1, 11);
    let _ = join(&mut room, 2, 1, 12);
    assert_eq!(route(&room, 1, 1, "/w").len(), 0);
    assert_eq!(route(&room, 1, 1, "/w notanumber").len(), 0);
    assert_eq!(route(&room, 1, 1, "/w  2").len(), 0);
    // the registry still works afterwards
    assert_eq!(route(&room, 1, 1, "still here").len(), 2);
}

#[test]
fn reserved_moderation_command_is_a_no_op() {
    let mut room = GameRoom::default();
    let _ = join(&mut room, 1, 1, 11);
    assert_eq!(route(&room, 1, 1, "/k 1").len(), 0);
    assert_eq!(route(&room, 1, 1, "/kick").len(), 0);
}

#[test]
fn leave_notifies_remaining_members_and_unregisters() {
    let mut room = GameRoom::default();
    let _ = join(&mut room, 1, 1, 11);
    let _ = join(&mut room, 2, 1, 12);
    let out = room.handle_disconnect(Disconnect { id: 1, room_id: 1 });
    assert_eq!(out.len(), 1);
    assert_eq!(out[0].to, 2);
    assert_eq!(out[0].msg.0, "disconnected 1");
    assert!(room.send_message("x", 1).is_none());
    let out = route(&room, 2, 1, "hello");
    assert_eq!(out.len(), 1);
    assert_eq!(out[0].to, 2);
}

#[test]
fn leave_twice_is_a_no_op() {
    let mut room = GameRoom::default();
    let _ = join(&mut room, 1, 1, 11);
    let _ = join(&mut room, 2, 1, 12);
    let first = room.handle_disconnect(Disconnect { id: 1, room_id: 1 });
    assert_eq!(first.len(), 1);
    let second = room.handle_disconnect(Disconnect { id: 1, room_id: 1 });
    assert_eq!(second.len(), 0);
    // the state is as after the first leave
    let out = route(&room, 2, 1, "hello");
    assert_eq!(out.len(), 1);
    assert_eq!(out[0].to, 2);
}

#[test]
fn room_is_deleted_with_its_last_member() {
    let mut room = GameRoom::default();
    let _ = join(&mut room, 1, 7, 11);
    assert!(room.is_member(1, 7));
    let out = room.handle_disconnect(Disconnect { id: 1, room_id: 7 });
    assert_eq!(out.len(), 0);
    assert!(!room.is_member(1, 7));
    assert!(!room.is_registered(1));
    assert_eq!(route(&room, 1, 7, "anyone?").len(), 0);
    // a later join sees a fresh room: nobody to notify
    let out = join(&mut room, 2, 7, 12);
    assert_eq!(out.len(), 1);
    assert_eq!(out[0].msg.0, "info 2");
}

#[test]
fn unknown_recipient_is_skipped() {
    let room = GameRoom::default();
    assert!(room.send_message("hi", 4).is_none());
}
