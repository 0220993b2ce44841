//! Translation of inbound transport text into a registry routing request.
use crate::banker::Banker;
use crate::message::ClientActorMessage;
use vstd::prelude::*;

verus! {

/// Wrap one inbound text from a session's transport as the routing request
/// the session forwards to the registry, unchanged.
pub fn ws_controller(banker: &Banker, message: String) -> (m: ClientActorMessage)
    ensures
        m == (ClientActorMessage { id: banker.id, room_id: banker.room_id, msg: message }),
{
    ClientActorMessage { id: banker.id, room_id: banker.room_id, msg: message }
}

} // verus!
