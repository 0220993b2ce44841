//! The per-connection session: liveness policing and protocol-frame dispatch.
//!
//! A session owns its identity, its room, and the time of the last heartbeat.
//! Every decision it takes — evict or ping on a probe tick, and what to do
//! with each inbound frame — is a pure function of that state and the event,
//! stated by a spec function and returned as an action for the transport glue
//! to perform.
use crate::game_room::leave_spec;
use crate::game_room::lemma_without_props;
use crate::game_room::members;
use crate::game_room::notice;
use crate::game_room::state_wf;
use crate::game_room::without;
use crate::game_room::RegistryState;
use crate::message::disconnected_msg;
use crate::message::ClientActorMessage;
use crate::message::Connect;
use crate::message::Disconnect;
use crate::numtext::dec_value;
use crate::numtext::is_u64_text;
use crate::numtext::parse_u64;
use vstd::prelude::*;

verus! {

/// One live connection's state. `hb` is the time of the last heartbeat, in
/// milliseconds of a monotonic clock the transport glue supplies.
pub struct Banker {
    pub room_id: u64,
    pub hb: u64,
    pub id: u128,
}

/// What a probe tick decided: evict the silent session, or keep probing.
pub enum ProbeAction {
    /// The session went silent past the timeout: leave the room and stop.
    Evict(Disconnect),
    /// Still live: send a liveness ping to the transport.
    Ping,
}

/// What one inbound frame asks the transport glue to do.
pub enum FrameAction {
    /// Answer a ping with a pong carrying the same payload.
    Pong(Vec<u8>),
    /// Relay a binary payload back to the transport unchanged.
    Binary(Vec<u8>),
    /// Echo the close and stop the session.
    CloseEcho,
    /// Stop the session without an echo (unsupported continuation frame).
    Stop,
    /// Forward inbound text to the registry for routing.
    Forward(ClientActorMessage),
    /// Nothing to do (no-op frame or a dropped malformed frame).
    Ignore,
}

/// One inbound protocol event, as decoded from the transport.
pub enum Frame {
    Ping(Vec<u8>),
    Pong(Vec<u8>),
    Binary(Vec<u8>),
    Close,
    Continuation,
    Nop,
    Text(String),
    /// The frame could not be decoded; it is dropped and the session goes on.
    DecodeError,
}

/// The probe-tick decision: evict exactly when the session has been silent
/// for longer than the timeout.
pub open spec fn probe_decision(b: Banker, now: u64, timeout: u64) -> ProbeAction {
    if now - b.hb > timeout {
        ProbeAction::Evict(Disconnect { id: b.id, room_id: b.room_id })
    } else {
        ProbeAction::Ping
    }
}

/// The frame-dispatch decision: the session state after the frame and the
/// action it asks for. Only liveness frames move the heartbeat; no frame
/// changes the session's identity or room.
pub open spec fn frame_decision(b: Banker, msg: Frame, now: u64) -> (Banker, FrameAction) {
    match msg {
        Frame::Ping(payload) => (Banker { hb: now, ..b }, FrameAction::Pong(payload)),
        Frame::Pong(_) => (Banker { hb: now, ..b }, FrameAction::Ignore),
        Frame::Binary(payload) => (b, FrameAction::Binary(payload)),
        Frame::Close => (b, FrameAction::CloseEcho),
        Frame::Continuation => (b, FrameAction::Stop),
        Frame::Nop => (b, FrameAction::Ignore),
        Frame::Text(s) => (
            b,
            FrameAction::Forward(ClientActorMessage { id: b.id, room_id: b.room_id, msg: s }),
        ),
        Frame::DecodeError => (b, FrameAction::Ignore),
    }
}

/// Whether an action ends the session (after which the glue emits the leave
/// notice exactly once).
pub open spec fn is_terminal_spec(a: FrameAction) -> bool {
    a is CloseEcho || a is Stop
}

/// Relies on uuid::Uuid::new_v4, a random 128-bit token; nothing is assumed
/// of the value, so every proof about a session holds whatever id it drew.
#[verifier::external_body]
fn fresh_session_id() -> u128 {
    uuid::Uuid::new_v4().as_u128()
}

impl Banker {
    /// A new session for `room_id`, with a freshly drawn random identity and
    /// its heartbeat set to the present instant.
    pub fn new(room_id: u64, now: u64) -> (b: Banker)
        ensures
            b.room_id == room_id,
            b.hb == now,
    {
        Banker { room_id, hb: now, id: fresh_session_id() }
    }

    /// The join request issued when the session starts, carrying the handle
    /// the registry is to deliver through.
    pub fn started(&self, addr: u64) -> (c: Connect)
        ensures
            c == (Connect { id: self.id, room_id: self.room_id, addr }),
    {
        Connect { id: self.id, room_id: self.room_id, addr }
    }

    /// The leave notice emitted exactly once on any terminal transition.
    pub fn stopping(&self) -> (d: Disconnect)
        ensures
            d == (Disconnect { id: self.id, room_id: self.room_id }),
    {
        Disconnect { id: self.id, room_id: self.room_id }
    }

    /// One probe tick: evict the session exactly when more than `timeout`
    /// milliseconds have passed since the last heartbeat, else ping.
    pub fn hb(&self, now: u64, timeout: u64) -> (r: ProbeAction)
        requires
            self.hb <= now,
        ensures
            r == probe_decision(*self, now, timeout),
    {
        if now - self.hb > timeout {
            ProbeAction::Evict(Disconnect { id: self.id, room_id: self.room_id })
        } else {
            ProbeAction::Ping
        }
    }

    /// Dispatch one inbound frame: liveness frames refresh the heartbeat,
    /// text goes to the registry, binary is relayed, close and continuation
    /// end the session, and an undecodable frame is dropped.
    pub fn handle(&mut self, msg: Frame, now: u64) -> (r: FrameAction)
        ensures
            (*final(self), r) == frame_decision(*old(self), msg, now),
    {
        match msg {
            Frame::Ping(payload) => {
                self.hb = now;
                FrameAction::Pong(payload)
            },
            Frame::Pong(_) => {
                self.hb = now;
                FrameAction::Ignore
            },
            Frame::Binary(payload) => FrameAction::Binary(payload),
            Frame::Close => FrameAction::CloseEcho,
            Frame::Continuation => FrameAction::Stop,
            Frame::Nop => FrameAction::Ignore,
            Frame::Text(s) => FrameAction::Forward(
                ClientActorMessage { id: self.id, room_id: self.room_id, msg: s },
            ),
            Frame::DecodeError => FrameAction::Ignore,
        }
    }
}

/// Law: a session silent for longer than the timeout is evicted without the
/// transport signalling closure — the probe tick decides to leave, and the
/// leave removes the id from the registry and its room while every remaining
/// member of the room is told `"disconnected <id>"`.
pub proof fn lemma_heartbeat_eviction(b: Banker, now: u64, timeout: u64, s: RegistryState)
    requires
        b.hb <= now,
        now - b.hb > timeout,
        state_wf(s),
        s.sessions.contains_key(b.id),
        s.rooms.contains_key(b.room_id),
        s.rooms[b.room_id].contains(b.id),
    ensures
        probe_decision(b, now, timeout) == ProbeAction::Evict(
            Disconnect { id: b.id, room_id: b.room_id },
        ),
        !leave_spec(s, b.id, b.room_id).0.sessions.contains_key(b.id),
        !members(leave_spec(s, b.id, b.room_id).0, b.room_id).contains(b.id),
        forall|m: u128|
            s.rooms[b.room_id].contains(m) && m != b.id ==> exists|k: int|
                0 <= k < leave_spec(s, b.id, b.room_id).1.len() && #[trigger] leave_spec(
                    s,
                    b.id,
                    b.room_id,
                ).1[k] == notice(s, m, disconnected_msg(b.id)),
{
    let oldm = members(s, b.room_id);
    let rest = without(oldm, b.id);
    let s2 = leave_spec(s, b.id, b.room_id).0;
    let ds = leave_spec(s, b.id, b.room_id).1;
    lemma_without_props(oldm, b.id);
    assert(!members(s2, b.room_id).contains(b.id)) by {
        if s2.rooms.contains_key(b.room_id) {
            assert(s2.rooms[b.room_id] == rest);
            assert(!rest.contains(b.id));
        }
    }
    assert forall|m: u128| s.rooms[b.room_id].contains(m) && m != b.id implies exists|k: int|
        0 <= k < ds.len() && #[trigger] ds[k] == notice(s, m, disconnected_msg(b.id)) by {
        assert(rest.contains(m));
        let k = choose|k: int| 0 <= k < rest.len() && rest[k] == m;
        assert(ds[k] == notice(s, m, disconnected_msg(b.id)));
    }
}

/// Whether an action ends the session.
pub fn is_terminal(a: &FrameAction) -> (r: bool)
    ensures
        r == is_terminal_spec(*a),
{
    match a {
        FrameAction::CloseEcho => true,
        FrameAction::Stop => true,
        _ => false,
    }
}

/// A configuration value failed to load: the variable is absent, or its text
/// is not a decimal number in range.
pub enum ConfigError {
    Missing,
    Invalid,
}

/// The liveness-probe interval in milliseconds, from the raw configuration
/// text; absence or unparsable text is a fatal startup error.
pub fn heartbeat_interval(raw: Option<&str>) -> (r: Result<u64, ConfigError>)
    ensures
        match raw {
            None => r == Err::<u64, ConfigError>(ConfigError::Missing),
            Some(s) => if is_u64_text(s@) {
                r == Ok::<u64, ConfigError>(dec_value(s@) as u64)
            } else {
                r == Err::<u64, ConfigError>(ConfigError::Invalid)
            },
        },
{
    match raw {
        None => Err(ConfigError::Missing),
        Some(s) => match parse_u64(s) {
            Some(v) => Ok(v),
            None => Err(ConfigError::Invalid),
        },
    }
}

/// The liveness timeout in seconds, from the raw configuration text; absence
/// or unparsable text is a fatal startup error.
pub fn client_timeout(raw: Option<&str>) -> (r: Result<u64, ConfigError>)
    ensures
        match raw {
            None => r == Err::<u64, ConfigError>(ConfigError::Missing),
            Some(s) => if is_u64_text(s@) {
                r == Ok::<u64, ConfigError>(dec_value(s@) as u64)
            } else {
                r == Err::<u64, ConfigError>(ConfigError::Invalid)
            },
        },
{
    match raw {
        None => Err(ConfigError::Missing),
        Some(s) => match parse_u64(s) {
            Some(v) => Ok(v),
            None => Err(ConfigError::Invalid),
        },
    }
}

} // verus!
