//! The immutable records exchanged between sessions and the registry, and the
//! notification text the registry pushes to peers.
use crate::numtext::dec_str;
use crate::numtext::u128_to_string;
use vstd::prelude::*;

verus! {

/// Outbound text: the registry pushes this to a session, which writes it to
/// its transport unmodified.
pub struct WsMessage(pub String);

impl View for WsMessage {
    type V = Seq<char>;

    open spec fn view(&self) -> Seq<char> {
        self.0@
    }
}

/// Join request: a session asks to be entered into a room, handing over the
/// handle the registry is to push outbound text through.
pub struct Connect {
    pub id: u128,
    pub room_id: u64,
    pub addr: u64,
}

/// Leave notice for one session of one room.
pub struct Disconnect {
    pub id: u128,
    pub room_id: u64,
}

/// Inbound text a session forwards to the registry for routing.
pub struct ClientActorMessage {
    pub id: u128,
    pub room_id: u64,
    pub msg: String,
}

/// One push the registry decided on: which session, through which handle,
/// receives which text.
pub struct Delivery {
    pub to: u128,
    pub handle: u64,
    pub msg: WsMessage,
}

/// The mathematical shape of a `Delivery`.
pub struct DeliveryModel {
    pub to: u128,
    pub handle: u64,
    pub text: Seq<char>,
}

impl View for Delivery {
    type V = DeliveryModel;

    open spec fn view(&self) -> DeliveryModel {
        DeliveryModel { to: self.to, handle: self.handle, text: self.msg.0@ }
    }
}

/// The models of a batch of deliveries, in push order.
pub open spec fn dview(v: Seq<Delivery>) -> Seq<DeliveryModel> {
    v.map_values(|d: Delivery| d@)
}

/// Text pushed to every existing member when a peer joins their room.
pub open spec fn connected_msg(id: u128) -> Seq<char> {
    "connected "@ + dec_str(id as int)
}

/// Text pushed to the remaining members when a peer leaves their room.
pub open spec fn disconnected_msg(id: u128) -> Seq<char> {
    "disconnected "@ + dec_str(id as int)
}

/// Text pushed to a joining session itself, acknowledging its identity.
pub open spec fn info_msg(id: u128) -> Seq<char> {
    "info "@ + dec_str(id as int)
}

pub fn connected_text(id: u128) -> (s: String)
    ensures
        s@ == connected_msg(id),
{
    let mut s = String::from_str("connected ");
    let digits = u128_to_string(id);
    s.append(digits.as_str());
    s
}

pub fn disconnected_text(id: u128) -> (s: String)
    ensures
        s@ == disconnected_msg(id),
{
    let mut s = String::from_str("disconnected ");
    let digits = u128_to_string(id);
    s.append(digits.as_str());
    s
}

pub fn info_text(id: u128) -> (s: String)
    ensures
        s@ == info_msg(id),
{
    let mut s = String::from_str("info ");
    let digits = u128_to_string(id);
    s.append(digits.as_str());
    s
}

} // verus!
