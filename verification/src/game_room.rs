//! The room registry: the sole authority over room membership and message
//! fan-out.
//!
//! The registry's state is two invariant-linked maps: `sessions`, from
//! connection id to deliverable handle, and `rooms`, from room id to the
//! member list. Every session is a member of some room and every member has a
//! session; a room exists exactly while it has at least one member.
//!
//! Each operation's effect is a spec-level transition function
//! (`join_spec`, `leave_spec`, `route_spec`); the executable methods are
//! proved to implement them exactly, including the batch of deliveries each
//! operation fans out.
use crate::assoc::amap;
use crate::assoc::keys_unique;
use crate::assoc::lemma_amap_contains;
use crate::assoc::lemma_amap_get;
use crate::assoc::lemma_amap_push;
use crate::assoc::lemma_amap_remove;
use crate::assoc::lemma_unique_push;
use crate::command::parse_command;
use crate::command::parse_command_spec;
use crate::command::Command;
use crate::message::connected_msg;
use crate::message::connected_text;
use crate::message::disconnected_msg;
use crate::message::disconnected_text;
use crate::message::dview;
use crate::message::info_msg;
use crate::message::info_text;
use crate::message::ClientActorMessage;
use crate::message::Connect;
use crate::message::Delivery;
use crate::message::DeliveryModel;
use crate::message::Disconnect;
use crate::message::WsMessage;
use vstd::pervasive::unreached;
use vstd::prelude::*;

verus! {

/// The registry's mathematical state: its two maps.
pub struct RegistryState {
    pub sessions: Map<u128, u64>,
    pub rooms: Map<u64, Seq<u128>>,
}

/// The members of a room; a room that does not exist has none.
pub open spec fn members(s: RegistryState, room_id: u64) -> Seq<u128> {
    if s.rooms.contains_key(room_id) {
        s.rooms[room_id]
    } else {
        Seq::empty()
    }
}

/// `id` is a member of at least one room.
pub open spec fn in_some_room(s: RegistryState, id: u128) -> bool {
    exists|r: u64| s.rooms.contains_key(r) && (#[trigger] s.rooms[r].contains(id))
}

pub open spec fn no_dups(m: Seq<u128>) -> bool {
    forall|i: int, j: int| 0 <= i < j < m.len() ==> m[i] != m[j]
}

/// The member list with every occurrence of `id` taken out, order kept.
pub open spec fn without(s: Seq<u128>, id: u128) -> Seq<u128>
    decreases s.len(),
{
    if s.len() == 0 {
        Seq::empty()
    } else if s.last() == id {
        without(s.drop_last(), id)
    } else {
        without(s.drop_last(), id).push(s.last())
    }
}

/// The registry's invariant: rooms are non-empty and duplicate-free, every
/// member has a session, every session is a member somewhere, and no id is a
/// member of two rooms.
pub open spec fn state_wf(s: RegistryState) -> bool {
    &&& (forall|r: u64| #[trigger] s.rooms.contains_key(r) ==> s.rooms[r].len() >= 1)
    &&& (forall|r: u64| #[trigger] s.rooms.contains_key(r) ==> no_dups(s.rooms[r]))
    &&& (forall|r: u64, i: int|
        s.rooms.contains_key(r) && 0 <= i < s.rooms[r].len() ==> s.sessions.contains_key(
            #[trigger] s.rooms[r][i],
        ))
    &&& (forall|id: u128| #[trigger] s.sessions.contains_key(id) ==> in_some_room(s, id))
    &&& (forall|r1: u64, r2: u64, id: u128|
        s.rooms.contains_key(r1) && s.rooms.contains_key(r2) && #[trigger] s.rooms[r1].contains(
            id,
        ) && #[trigger] s.rooms[r2].contains(id) ==> r1 == r2)
}

/// One push: `m` receives `text` through the handle the registry holds for it.
pub open spec fn notice(s: RegistryState, m: u128, text: Seq<char>) -> DeliveryModel {
    DeliveryModel { to: m, handle: s.sessions[m], text }
}

/// Pushes of the same text to each of `ms`, in member-list order.
pub open spec fn notices(s: RegistryState, ms: Seq<u128>, text: Seq<char>) -> Seq<DeliveryModel> {
    ms.map_values(|m: u128| notice(s, m, text))
}

/// The effect of `Join(id, room_id, handle)`: the id enters both maps, every
/// existing member of the room is told `"connected <id>"`, and the joining id
/// itself is told `"info <id>"`, in that order.
pub open spec fn join_spec(s: RegistryState, id: u128, room_id: u64, handle: u64) -> (
    RegistryState,
    Seq<DeliveryModel>,
) {
    let oldm = members(s, room_id);
    let s2 = RegistryState {
        sessions: s.sessions.insert(id, handle),
        rooms: s.rooms.insert(room_id, oldm.push(id)),
    };
    (
        s2,
        notices(s, oldm, connected_msg(id)).push(
            DeliveryModel { to: id, handle, text: info_msg(id) },
        ),
    )
}

/// The effect of `Leave(id, room_id)`: a no-op for an unknown id; otherwise
/// the id leaves both maps, the remaining members of the room are told
/// `"disconnected <id>"`, and a room left empty is deleted.
pub open spec fn leave_spec(s: RegistryState, id: u128, room_id: u64) -> (
    RegistryState,
    Seq<DeliveryModel>,
) {
    if !s.sessions.contains_key(id) {
        (s, Seq::empty())
    } else {
        let rest = without(members(s, room_id), id);
        let rooms2 = if !s.rooms.contains_key(room_id) {
            s.rooms
        } else if rest.len() == 0 {
            s.rooms.remove(room_id)
        } else {
            s.rooms.insert(room_id, rest)
        };
        (
            RegistryState { sessions: s.sessions.remove(id), rooms: rooms2 },
            notices(s, rest, disconnected_msg(id)),
        )
    }
}

/// The effect of `RouteMessage(_, room_id, text)`: a whisper goes verbatim to
/// its target alone, wherever registered; a malformed whisper and the reserved
/// moderation command go to nobody; anything else goes verbatim to every
/// current member of the room, sender included.
pub open spec fn route_spec(s: RegistryState, room_id: u64, text: Seq<char>) -> Seq<
    DeliveryModel,
> {
    match parse_command_spec(text) {
        Command::Whisper { target } => if s.sessions.contains_key(target) {
            seq![DeliveryModel { to: target, handle: s.sessions[target], text }]
        } else {
            Seq::empty()
        },
        Command::MalformedWhisper => Seq::empty(),
        Command::Reserved => Seq::empty(),
        Command::Broadcast => notices(s, members(s, room_id), text),
    }
}

proof fn lemma_without_take_step(s: Seq<u128>, id: u128, k: int)
    requires
        0 <= k < s.len(),
    ensures
        without(s.take(k + 1), id) == (if s[k] == id {
            without(s.take(k), id)
        } else {
            without(s.take(k), id).push(s[k])
        }),
{
    assert(s.take(k + 1).drop_last() =~= s.take(k));
    assert(s.take(k + 1).last() == s[k]);
}

/// `without(s, id)` holds exactly the elements of `s` other than `id`, no
/// longer than `s`, and duplicate-free when `s` is.
pub proof fn lemma_without_props(s: Seq<u128>, id: u128)
    ensures
        forall|m: u128| #[trigger] without(s, id).contains(m) <==> (s.contains(m) && m != id),
        without(s, id).len() <= s.len(),
        no_dups(s) ==> no_dups(without(s, id)),
    decreases s.len(),
{
    if s.len() == 0 {
        assert forall|m: u128| #[trigger] without(s, id).contains(m) implies false by {}
        assert forall|m: u128| s.contains(m) implies false by {}
    } else {
        let d = s.drop_last();
        let x = s.last();
        lemma_without_props(d, id);
        assert(no_dups(s) ==> no_dups(d));
        // membership in s splits into membership in d or equality with x
        assert forall|m: u128| #[trigger] s.contains(m) implies d.contains(m) || m == x by {
            let i = choose|i: int| 0 <= i < s.len() && s[i] == m;
            if i < s.len() - 1 {
                assert(d[i] == m);
            }
        }
        assert forall|m: u128| d.contains(m) implies #[trigger] s.contains(m) by {
            let i = choose|i: int| 0 <= i < d.len() && d[i] == m;
            assert(s[i] == m);
        }
        assert(s.contains(x)) by {
            assert(s[s.len() - 1] == x);
        }
        if x == id {
            assert(without(s, id) == without(d, id));
        } else {
            let w = without(d, id).push(x);
            assert(without(s, id) == w);
            assert forall|m: u128| #[trigger] w.contains(m) implies (s.contains(m) && m != id) by {
                let i = choose|i: int| 0 <= i < w.len() && w[i] == m;
                if i < w.len() - 1 {
                    assert(without(d, id)[i] == m);
                    assert(without(d, id).contains(m));
                }
            }
            assert forall|m: u128| s.contains(m) && m != id implies #[trigger] w.contains(m) by {
                if m == x {
                    assert(w[w.len() - 1] == m);
                } else {
                    assert(d.contains(m));
                    assert(without(d, id).contains(m));
                    let i = choose|i: int| 0 <= i < without(d, id).len() && without(d, id)[i] == m;
                    assert(w[i] == m);
                }
            }
            if no_dups(s) {
                assert(!d.contains(x)) by {
                    if d.contains(x) {
                        let i = choose|i: int| 0 <= i < d.len() && d[i] == x;
                        assert(s[i] == s[s.len() - 1]);
                        assert(false);
                    }
                }
                assert(!without(d, id).contains(x));
                assert forall|i: int, j: int| 0 <= i < j < w.len() implies w[i] != w[j] by {
                    if j < w.len() - 1 {
                        assert(without(d, id)[i] != without(d, id)[j]);
                    } else {
                        assert(w[i] == without(d, id)[i]);
                        if w[i] == x {
                            assert(without(d, id).contains(x));
                            assert(false);
                        }
                    }
                }
            }
        }
    }
}

/// Joining preserves the registry invariant.
pub proof fn lemma_join_preserves_wf(s: RegistryState, id: u128, room_id: u64, handle: u64)
    requires
        state_wf(s),
        !s.sessions.contains_key(id),
    ensures
        state_wf(join_spec(s, id, room_id, handle).0),
{
    let s2 = join_spec(s, id, room_id, handle).0;
    let oldm = members(s, room_id);
    let newm = oldm.push(id);
    assert forall|r: u64| s.rooms.contains_key(r) implies !(#[trigger] s.rooms[r].contains(
        id,
    )) by {
        if s.rooms[r].contains(id) {
            let i = choose|i: int| 0 <= i < s.rooms[r].len() && s.rooms[r][i] == id;
            assert(s.sessions.contains_key(s.rooms[r][i]));
            assert(false);
        }
    }
    assert(!oldm.contains(id)) by {
        if s.rooms.contains_key(room_id) && oldm.contains(id) {
            assert(s.rooms[room_id].contains(id));
        }
    }
    assert(no_dups(oldm)) by {
        if s.rooms.contains_key(room_id) {
            assert(no_dups(s.rooms[room_id]));
        }
    }
    assert(s2.rooms[room_id] == newm);
    // rooms are non-empty and duplicate-free
    assert forall|r: u64| #[trigger] s2.rooms.contains_key(r) implies s2.rooms[r].len() >= 1
        && no_dups(s2.rooms[r]) by {
        if r == room_id {
            assert(no_dups(newm)) by {
                assert forall|i: int, j: int| 0 <= i < j < newm.len() implies newm[i] != newm[j] by {
                    if j == newm.len() - 1 {
                        assert(newm[i] == oldm[i]);
                        if oldm[i] == id {
                            assert(oldm.contains(id));
                        }
                    } else {
                        assert(newm[i] == oldm[i] && newm[j] == oldm[j]);
                    }
                }
            }
        } else {
            assert(s.rooms.contains_key(r));
            assert(s2.rooms[r] == s.rooms[r]);
        }
    }
    // every member has a session
    assert forall|r: u64, i: int|
        s2.rooms.contains_key(r) && 0 <= i < s2.rooms[r].len() implies s2.sessions.contains_key(
        #[trigger] s2.rooms[r][i],
    ) by {
        if r == room_id {
            if i < oldm.len() {
                assert(newm[i] == oldm[i]);
                assert(s.rooms.contains_key(room_id));
                assert(s.sessions.contains_key(s.rooms[room_id][i]));
            } else {
                assert(newm[i] == id);
            }
        } else {
            assert(s.rooms.contains_key(r));
            assert(s.sessions.contains_key(s.rooms[r][i]));
        }
    }
    // every session is a member somewhere
    assert forall|k: u128| #[trigger] s2.sessions.contains_key(k) implies in_some_room(s2, k) by {
        if k == id {
            assert(newm[newm.len() - 1] == id);
            assert(s2.rooms[room_id].contains(id));
        } else {
            assert(s.sessions.contains_key(k));
            assert(in_some_room(s, k));
            let r = choose|r: u64| s.rooms.contains_key(r) && (#[trigger] s.rooms[r].contains(k));
            if r == room_id {
                let i = choose|i: int| 0 <= i < oldm.len() && oldm[i] == k;
                assert(newm[i] == k);
                assert(s2.rooms[room_id].contains(k));
            } else {
                assert(s2.rooms[r] == s.rooms[r]);
                assert(s2.rooms[r].contains(k));
            }
        }
    }
    // no id is a member of two rooms
    assert forall|r1: u64, r2: u64, k: u128|
        s2.rooms.contains_key(r1) && s2.rooms.contains_key(r2) && #[trigger] s2.rooms[r1].contains(
            k,
        ) && #[trigger] s2.rooms[r2].contains(k) implies r1 == r2 by {
        assert forall|r: u64|
            s2.rooms.contains_key(r) && #[trigger] s2.rooms[r].contains(k) implies (r == room_id
            && k == id) || (s.rooms.contains_key(r) && s.rooms[r].contains(k)) by {
            if r == room_id {
                if k != id {
                    let i = choose|i: int| 0 <= i < newm.len() && newm[i] == k;
                    assert(i < oldm.len());
                    assert(oldm[i] == k);
                    assert(s.rooms.contains_key(room_id));
                    assert(s.rooms[room_id].contains(k));
                }
            }
        }
        if k == id {
            assert(r1 == room_id && r2 == room_id);
        }
    }
}

/// Leaving preserves the registry invariant, provided a known id leaves the
/// room it is a member of.
pub proof fn lemma_leave_preserves_wf(s: RegistryState, id: u128, room_id: u64)
    requires
        state_wf(s),
        s.sessions.contains_key(id) ==> s.rooms.contains_key(room_id) && s.rooms[room_id].contains(
            id,
        ),
    ensures
        state_wf(leave_spec(s, id, room_id).0),
{
    if !s.sessions.contains_key(id) {
    } else {
        let s2 = leave_spec(s, id, room_id).0;
        let oldm = members(s, room_id);
        let rest = without(oldm, id);
        lemma_without_props(oldm, id);
        assert(no_dups(oldm));
        // other rooms do not hold id
        assert forall|r: u64|
            s.rooms.contains_key(r) && r != room_id implies !(#[trigger] s.rooms[r].contains(
            id,
        )) by {
            if s.rooms[r].contains(id) {
                assert(s.rooms[room_id].contains(id));
            }
        }
        // rooms are non-empty and duplicate-free
        assert forall|r: u64| #[trigger] s2.rooms.contains_key(r) implies s2.rooms[r].len() >= 1
            && no_dups(s2.rooms[r]) by {
            if r == room_id {
                assert(s2.rooms[r] == rest);
            } else {
                assert(s.rooms.contains_key(r));
                assert(s2.rooms[r] == s.rooms[r]);
            }
        }
        // every member has a session
        assert forall|r: u64, i: int|
            s2.rooms.contains_key(r) && 0 <= i < s2.rooms[r].len() implies s2.sessions.contains_key(
            #[trigger] s2.rooms[r][i],
        ) by {
            let m = s2.rooms[r][i];
            if r == room_id {
                assert(rest.contains(m)) by {
                    assert(rest[i] == m);
                }
                assert(oldm.contains(m) && m != id);
                let k = choose|k: int| 0 <= k < oldm.len() && oldm[k] == m;
                assert(s.sessions.contains_key(s.rooms[room_id][k]));
            } else {
                assert(s.rooms.contains_key(r));
                assert(s.sessions.contains_key(s.rooms[r][i]));
                assert(s.rooms[r][i] != id) by {
                    if s.rooms[r][i] == id {
                        assert(s.rooms[r].contains(id));
                    }
                }
            }
        }
        // every session is a member somewhere
        assert forall|k: u128| #[trigger] s2.sessions.contains_key(k) implies in_some_room(
            s2,
            k,
        ) by {
            assert(s.sessions.contains_key(k) && k != id);
            assert(in_some_room(s, k));
            let r = choose|r: u64| s.rooms.contains_key(r) && (#[trigger] s.rooms[r].contains(k));
            if r == room_id {
                assert(rest.contains(k));
                assert(rest.len() >= 1) by {
                    let i = choose|i: int| 0 <= i < rest.len() && rest[i] == k;
                }
                assert(s2.rooms.contains_key(room_id));
                assert(s2.rooms[room_id].contains(k));
            } else {
                assert(s2.rooms.contains_key(r));
                assert(s2.rooms[r].contains(k));
            }
        }
        // no id is a member of two rooms
        assert forall|r1: u64, r2: u64, k: u128|
            s2.rooms.contains_key(r1) && s2.rooms.contains_key(r2)
                && #[trigger] s2.rooms[r1].contains(k) && #[trigger] s2.rooms[r2].contains(
                k,
            ) implies r1 == r2 by {
            assert forall|r: u64|
                s2.rooms.contains_key(r) && #[trigger] s2.rooms[r].contains(
                    k,
                ) implies s.rooms.contains_key(r) && s.rooms[r].contains(k) by {
                if r == room_id {
                    assert(rest.contains(k));
                    assert(oldm.contains(k));
                }
            }
        }
    }
}

/// Law: a join makes the id a member of the room with its handle registered,
/// and — since routing never changes the state — it stays so under any number
/// of routed messages.
pub proof fn lemma_join_membership(s: RegistryState, id: u128, room_id: u64, handle: u64)
    requires
        state_wf(s),
        !s.sessions.contains_key(id),
    ensures
        join_spec(s, id, room_id, handle).0.sessions.contains_key(id),
        join_spec(s, id, room_id, handle).0.sessions[id] == handle,
        join_spec(s, id, room_id, handle).0.rooms.contains_key(room_id),
        join_spec(s, id, room_id, handle).0.rooms[room_id].contains(id),
{
    let s2 = join_spec(s, id, room_id, handle).0;
    let newm = members(s, room_id).push(id);
    assert(s2.rooms[room_id] == newm);
    assert(newm[newm.len() - 1] == id);
}

/// Law: a leave for a different id disturbs neither a session's registration
/// nor its room membership; only a leave for the id itself removes them.
pub proof fn lemma_membership_stable_under_other_leave(
    s: RegistryState,
    id: u128,
    other: u128,
    r: u64,
    room_id: u64,
)
    requires
        id != other,
        s.sessions.contains_key(id),
        s.rooms.contains_key(room_id),
        s.rooms[room_id].contains(id),
    ensures
        leave_spec(s, other, r).0.sessions.contains_key(id),
        leave_spec(s, other, r).0.sessions[id] == s.sessions[id],
        members(leave_spec(s, other, r).0, room_id).contains(id),
{
    if s.sessions.contains_key(other) {
        let s2 = leave_spec(s, other, r).0;
        if r == room_id {
            let rest = without(members(s, room_id), other);
            lemma_without_props(members(s, room_id), other);
            assert(rest.contains(id));
            assert(rest.len() >= 1) by {
                let k = choose|k: int| 0 <= k < rest.len() && rest[k] == id;
            }
            assert(s2.rooms.contains_key(room_id));
            assert(s2.rooms[room_id] == rest);
        } else {
            assert(s2.rooms.contains_key(room_id));
            assert(s2.rooms[room_id] == s.rooms[room_id]);
        }
    }
}

/// Law: a second leave for the same id is a no-op — it changes nothing and
/// delivers nothing.
pub proof fn lemma_leave_idempotent(s: RegistryState, id: u128, room_id: u64)
    ensures
        leave_spec(leave_spec(s, id, room_id).0, id, room_id).0 == leave_spec(s, id, room_id).0,
        leave_spec(leave_spec(s, id, room_id).0, id, room_id).1 == Seq::<DeliveryModel>::empty(),
{
    let s1 = leave_spec(s, id, room_id).0;
    assert(!s1.sessions.contains_key(id));
}

/// Law: a room exists exactly while it has at least one member.
pub proof fn lemma_room_cleanup_invariant(s: RegistryState, r: u64)
    requires
        state_wf(s),
    ensures
        s.rooms.contains_key(r) <==> members(s, r).len() >= 1,
{
}

/// Law: a plain text is delivered to exactly the current members of the room,
/// sender included, each receiving the text verbatim through its own handle.
pub proof fn lemma_broadcast_completeness(s: RegistryState, room_id: u64, text: Seq<char>)
    requires
        state_wf(s),
        parse_command_spec(text) is Broadcast,
    ensures
        route_spec(s, room_id, text).len() == members(s, room_id).len(),
        forall|k: int|
            0 <= k < members(s, room_id).len() ==> #[trigger] route_spec(s, room_id, text)[k]
                == notice(s, members(s, room_id)[k], text),
        forall|m: u128| #[trigger]
            members(s, room_id).contains(m) ==> exists|k: int|
                0 <= k < route_spec(s, room_id, text).len() && #[trigger] route_spec(
                    s,
                    room_id,
                    text,
                )[k] == notice(s, m, text),
{
    let ds = route_spec(s, room_id, text);
    let ms = members(s, room_id);
    assert forall|m: u128| #[trigger] ms.contains(m) implies exists|k: int|
        0 <= k < ds.len() && #[trigger] ds[k] == notice(s, m, text) by {
        let k = choose|k: int| 0 <= k < ms.len() && ms[k] == m;
        assert(ds[k] == notice(s, m, text));
    }
}

/// Law: a whisper is delivered only to its target — exactly one delivery,
/// carrying the text verbatim — even when the sender shares a room with
/// others; a target without a session receives nothing and nobody else does.
pub proof fn lemma_whisper_exclusivity(
    s: RegistryState,
    room_id: u64,
    text: Seq<char>,
    target: u128,
)
    requires
        parse_command_spec(text) == (Command::Whisper { target }),
    ensures
        s.sessions.contains_key(target) ==> route_spec(s, room_id, text) == seq![
            DeliveryModel { to: target, handle: s.sessions[target], text },
        ],
        !s.sessions.contains_key(target) ==> route_spec(s, room_id, text) == Seq::<
            DeliveryModel,
        >::empty(),
        forall|k: int|
            0 <= k < route_spec(s, room_id, text).len() ==> (#[trigger] route_spec(
                s,
                room_id,
                text,
            )[k]).to == target,
{
}

/// Law: when a session joins a room, every `"connected <id>"` notice goes to
/// a session that is already a member of the room in the resulting state — the
/// membership is durable before any peer can observe the notice — and the
/// joining session's own acknowledgement comes last.
pub proof fn lemma_join_notification_ordering(
    s: RegistryState,
    id: u128,
    room_id: u64,
    handle: u64,
)
    requires
        state_wf(s),
        !s.sessions.contains_key(id),
    ensures
        join_spec(s, id, room_id, handle).0.rooms[room_id].contains(id),
        join_spec(s, id, room_id, handle).1.len() == members(s, room_id).len() + 1,
        forall|k: int|
            0 <= k < members(s, room_id).len() ==> (#[trigger] join_spec(
                s,
                id,
                room_id,
                handle,
            ).1[k]) == notice(s, members(s, room_id)[k], connected_msg(id)) && join_spec(
                s,
                id,
                room_id,
                handle,
            ).1[k].to != id && join_spec(s, id, room_id, handle).0.rooms[room_id].contains(
                join_spec(s, id, room_id, handle).1[k].to,
            ),
        join_spec(s, id, room_id, handle).1.last() == (DeliveryModel {
            to: id,
            handle,
            text: info_msg(id),
        }),
{
    lemma_join_membership(s, id, room_id, handle);
    let ds = join_spec(s, id, room_id, handle).1;
    let s2 = join_spec(s, id, room_id, handle).0;
    let oldm = members(s, room_id);
    let newm = oldm.push(id);
    assert(s2.rooms[room_id] == newm);
    assert forall|k: int| 0 <= k < oldm.len() implies (#[trigger] ds[k]) == notice(
        s,
        oldm[k],
        connected_msg(id),
    ) && ds[k].to != id && s2.rooms[room_id].contains(ds[k].to) by {
        assert(ds[k] == notices(s, oldm, connected_msg(id))[k]);
        assert(ds[k].to == oldm[k]);
        assert(newm[k] == oldm[k]);
        assert(s2.rooms[room_id].contains(oldm[k]));
        if oldm[k] == id {
            assert(s.rooms.contains_key(room_id));
            assert(s.sessions.contains_key(s.rooms[room_id][k]));
        }
    }
}

/// Law: a whisper without a usable target token is delivered to nobody, and
/// so is the reserved moderation command.
pub proof fn lemma_malformed_whisper_drops(s: RegistryState, room_id: u64, text: Seq<char>)
    requires
        parse_command_spec(text) is MalformedWhisper || parse_command_spec(text) is Reserved,
    ensures
        route_spec(s, room_id, text) == Seq::<DeliveryModel>::empty(),
{
}

/// The room registry. Sessions never touch these maps directly; they send the
/// contract records and the registry alone mutates its state.
pub struct GameRoom {
    sessions: Vec<(u128, u64)>,
    rooms: Vec<(u64, Vec<u128>)>,
}

/// The key/member-list pairs with each member vector abstracted to a sequence.
pub open spec fn room_pairs(s: Seq<(u64, Vec<u128>)>) -> Seq<(u64, Seq<u128>)> {
    s.map_values(|p: (u64, Vec<u128>)| (p.0, p.1@))
}

impl View for GameRoom {
    type V = RegistryState;

    closed spec fn view(&self) -> RegistryState {
        RegistryState { sessions: amap(self.sessions@), rooms: amap(room_pairs(self.rooms@)) }
    }
}

impl GameRoom {
    /// The representation stores each key once.
    pub closed spec fn inv(&self) -> bool {
        keys_unique(self.sessions@) && keys_unique(room_pairs(self.rooms@))
    }

    /// A well-formed registry: sound representation and invariant-linked maps.
    pub open spec fn wf(&self) -> bool {
        self.inv() && state_wf(self@)
    }

    fn lookup_handle(&self, dest_id: u128) -> (r: Option<u64>)
        requires
            keys_unique(self.sessions@),
        ensures
            r == (if self@.sessions.contains_key(dest_id) {
                Some(amap(self.sessions@)[dest_id])
            } else {
                None::<u64>
            }),
    {
        let n = self.sessions.len();
        let mut i: usize = 0;
        while i < n
            invariant
                0 <= i <= n,
                n == self.sessions@.len(),
                keys_unique(self.sessions@),
                forall|j: int| 0 <= j < i ==> (#[trigger] self.sessions@[j]).0 != dest_id,
            decreases n - i,
        {
            if self.sessions[i].0 == dest_id {
                proof {
                    lemma_amap_get(self.sessions@, i as int);
                }
                return Some(self.sessions[i].1);
            }
            i = i + 1;
        }
        proof {
            lemma_amap_contains(self.sessions@, dest_id);
        }
        None
    }

    fn find_room_idx(&self, room_id: u64) -> (r: Option<usize>)
        requires
            keys_unique(room_pairs(self.rooms@)),
        ensures
            match r {
                Some(i) => i < self.rooms@.len() && self.rooms@[i as int].0 == room_id
                    && self@.rooms.contains_key(room_id) && self@.rooms[room_id]
                    == self.rooms@[i as int].1@,
                None => !self@.rooms.contains_key(room_id),
            },
    {
        let n = self.rooms.len();
        let mut i: usize = 0;
        while i < n
            invariant
                0 <= i <= n,
                n == self.rooms@.len(),
                keys_unique(room_pairs(self.rooms@)),
                forall|j: int| 0 <= j < i ==> (#[trigger] self.rooms@[j]).0 != room_id,
            decreases n - i,
        {
            if self.rooms[i].0 == room_id {
                proof {
                    assert(room_pairs(self.rooms@)[i as int].0 == room_id);
                    lemma_amap_get(room_pairs(self.rooms@), i as int);
                }
                return Some(i);
            }
            i = i + 1;
        }
        proof {
            lemma_amap_contains(room_pairs(self.rooms@), room_id);
            assert forall|j: int| 0 <= j < n implies (#[trigger] room_pairs(self.rooms@)[j]).0
                != room_id by {
                assert(room_pairs(self.rooms@)[j].0 == self.rooms@[j].0);
            }
        }
        None
    }

    fn find_session_idx(&self, id: u128) -> (r: Option<usize>)
        requires
            keys_unique(self.sessions@),
        ensures
            match r {
                Some(i) => i < self.sessions@.len() && self.sessions@[i as int].0 == id,
                None => !self@.sessions.contains_key(id),
            },
    {
        let n = self.sessions.len();
        let mut i: usize = 0;
        while i < n
            invariant
                0 <= i <= n,
                n == self.sessions@.len(),
                forall|j: int| 0 <= j < i ==> (#[trigger] self.sessions@[j]).0 != id,
            decreases n - i,
        {
            if self.sessions[i].0 == id {
                return Some(i);
            }
            i = i + 1;
        }
        proof {
            lemma_amap_contains(self.sessions@, id);
        }
        None
    }

    /// Process a join request: enter the id into both maps, tell every
    /// existing member of the room `"connected <id>"`, then tell the joining
    /// session itself `"info <id>"`. Membership is updated before any
    /// notification is composed.
    pub fn handle_connect(&mut self, msg: Connect) -> (out: Vec<Delivery>)
        requires
            old(self).wf(),
            !old(self)@.sessions.contains_key(msg.id),
        ensures
            final(self).wf(),
            final(self)@ == join_spec(old(self)@, msg.id, msg.room_id, msg.addr).0,
            dview(out@) == join_spec(old(self)@, msg.id, msg.room_id, msg.addr).1,
    {
        let ghost s0 = old(self)@;
        let ghost oldm = members(s0, msg.room_id);
        proof {
            assert forall|t: int| 0 <= t < oldm.len() implies s0.sessions.contains_key(
                #[trigger] oldm[t],
            ) by {
                assert(s0.rooms[msg.room_id][t] == oldm[t]);
            }
        }
        // take the room's current member list out (or start a fresh one)
        let mut current: Vec<u128>;
        match self.find_room_idx(msg.room_id) {
            Some(j) => {
                proof {
                    lemma_amap_remove(room_pairs(self.rooms@), j as int);
                    assert(room_pairs(self.rooms@.remove(j as int)) =~= room_pairs(
                        self.rooms@,
                    ).remove(j as int));
                }
                let pair = self.rooms.remove(j);
                current = pair.1;
            },
            None => {
                proof {
                    assert(s0.rooms.remove(msg.room_id) =~= s0.rooms);
                }
                current = Vec::new();
            },
        }
        let ghost rooms1 = self.rooms@;
        proof {
            assert(current@ == oldm);
            assert(keys_unique(room_pairs(rooms1)));
            assert(amap(room_pairs(rooms1)) == s0.rooms.remove(msg.room_id));
            assert(!amap(room_pairs(rooms1)).contains_key(msg.room_id));
        }
        // notify the members present before the join
        let mut out: Vec<Delivery> = Vec::new();
        let n = current.len();
        let mut k: usize = 0;
        while k < n
            invariant
                0 <= k <= n,
                n == current@.len(),
                current@ == oldm,
                self.sessions@ == old(self).sessions@,
                self.rooms@ == rooms1,
                old(self).wf(),
                s0 == old(self)@,
                forall|t: int| 0 <= t < oldm.len() ==> s0.sessions.contains_key(#[trigger] oldm[t]),
                dview(out@) == notices(s0, oldm.take(k as int), connected_msg(msg.id)),
            decreases n - k,
        {
            let m = current[k];
            let h = match self.lookup_handle(m) {
                Some(h) => h,
                None => unreached(),
            };
            out.push(Delivery { to: m, handle: h, msg: WsMessage(connected_text(msg.id)) });
            proof {
                assert(oldm.take(k + 1) =~= oldm.take(k as int).push(m));
                assert(notices(s0, oldm.take(k + 1), connected_msg(msg.id)) =~= notices(
                    s0,
                    oldm.take(k as int),
                    connected_msg(msg.id),
                ).push(notice(s0, m, connected_msg(msg.id))));
                assert(dview(out@) =~= notices(s0, oldm.take(k + 1), connected_msg(msg.id)));
            }
            k = k + 1;
        }
        proof {
            assert(oldm.take(n as int) =~= oldm);
        }
        // make the membership durable, then acknowledge the joining session
        current.push(msg.id);
        self.rooms.push((msg.room_id, current));
        self.sessions.push((msg.id, msg.addr));
        out.push(Delivery { to: msg.id, handle: msg.addr, msg: WsMessage(info_text(msg.id)) });
        proof {
            let target = join_spec(s0, msg.id, msg.room_id, msg.addr);
            // sessions view and uniqueness
            lemma_amap_push(old(self).sessions@, (msg.id, msg.addr));
            lemma_unique_push(old(self).sessions@, (msg.id, msg.addr));
            assert(amap(self.sessions@) == s0.sessions.insert(msg.id, msg.addr));
            // rooms view and uniqueness
            assert(room_pairs(self.rooms@) =~= room_pairs(rooms1).push(
                (msg.room_id, oldm.push(msg.id)),
            ));
            lemma_amap_push(room_pairs(rooms1), (msg.room_id, oldm.push(msg.id)));
            lemma_unique_push(room_pairs(rooms1), (msg.room_id, oldm.push(msg.id)));
            assert(amap(room_pairs(self.rooms@)) =~~= s0.rooms.insert(
                msg.room_id,
                oldm.push(msg.id),
            ));
            assert(self@ == target.0);
            // the batch of deliveries
            assert(dview(out@) =~= notices(s0, oldm, connected_msg(msg.id)).push(
                DeliveryModel { to: msg.id, handle: msg.addr, text: info_msg(msg.id) },
            ));
            // well-formedness
            lemma_join_preserves_wf(s0, msg.id, msg.room_id, msg.addr);
        }
        out
    }

    /// Process a leave notice: a no-op for an unknown id (a duplicate or late
    /// leave); otherwise the id comes out of both maps, the remaining members
    /// of its room are told `"disconnected <id>"`, and a room left empty is
    /// deleted.
    pub fn handle_disconnect(&mut self, msg: Disconnect) -> (out: Vec<Delivery>)
        requires
            old(self).wf(),
            old(self)@.sessions.contains_key(msg.id) ==> old(self)@.rooms.contains_key(msg.room_id)
                && old(self)@.rooms[msg.room_id].contains(msg.id),
        ensures
            final(self).wf(),
            final(self)@ == leave_spec(old(self)@, msg.id, msg.room_id).0,
            dview(out@) == leave_spec(old(self)@, msg.id, msg.room_id).1,
    {
        let ghost s0 = old(self)@;
        let i = match self.find_session_idx(msg.id) {
            None => {
                let out: Vec<Delivery> = Vec::new();
                proof {
                    assert(dview(out@) =~= Seq::<DeliveryModel>::empty());
                }
                return out;
            },
            Some(i) => i,
        };
        proof {
            lemma_amap_get(self.sessions@, i as int);
            assert(s0.sessions.contains_key(msg.id));
            lemma_amap_remove(self.sessions@, i as int);
        }
        self.sessions.remove(i);
        let ghost sess1 = self.sessions@;
        proof {
            assert(amap(sess1) == s0.sessions.remove(msg.id));
            assert(keys_unique(sess1));
        }
        let j = match self.find_room_idx(msg.room_id) {
            None => unreached(),
            Some(j) => j,
        };
        proof {
            lemma_amap_remove(room_pairs(self.rooms@), j as int);
            assert(room_pairs(self.rooms@.remove(j as int)) =~= room_pairs(self.rooms@).remove(
                j as int,
            ));
        }
        let pair = self.rooms.remove(j);
        let old_members = pair.1;
        let ghost rooms1 = self.rooms@;
        let ghost oldm = members(s0, msg.room_id);
        proof {
            assert(old_members@ == oldm);
            assert(keys_unique(room_pairs(rooms1)));
            assert(amap(room_pairs(rooms1)) == s0.rooms.remove(msg.room_id));
            assert(!amap(room_pairs(rooms1)).contains_key(msg.room_id));
            assert forall|t: int| 0 <= t < oldm.len() implies s0.sessions.contains_key(
                #[trigger] oldm[t],
            ) by {
                assert(s0.rooms[msg.room_id][t] == oldm[t]);
            }
            assert(without(oldm.take(0), msg.id) =~= Seq::<u128>::empty());
        }
        // tell the remaining members, and collect them
        let mut rest: Vec<u128> = Vec::new();
        let mut out: Vec<Delivery> = Vec::new();
        let n = old_members.len();
        let mut k: usize = 0;
        while k < n
            invariant
                0 <= k <= n,
                n == old_members@.len(),
                old_members@ == oldm,
                self.sessions@ == sess1,
                self.rooms@ == rooms1,
                amap(sess1) == s0.sessions.remove(msg.id),
                keys_unique(sess1),
                forall|t: int| 0 <= t < oldm.len() ==> s0.sessions.contains_key(#[trigger] oldm[t]),
                rest@ == without(oldm.take(k as int), msg.id),
                dview(out@) == notices(s0, rest@, disconnected_msg(msg.id)),
            decreases n - k,
        {
            let m = old_members[k];
            proof {
                lemma_without_take_step(oldm, msg.id, k as int);
            }
            if m != msg.id {
                let h = match self.lookup_handle(m) {
                    Some(h) => h,
                    None => unreached(),
                };
                out.push(Delivery { to: m, handle: h, msg: WsMessage(disconnected_text(msg.id)) });
                rest.push(m);
                proof {
                    assert(notices(s0, rest@, disconnected_msg(msg.id)) =~= notices(
                        s0,
                        without(oldm.take(k as int), msg.id),
                        disconnected_msg(msg.id),
                    ).push(notice(s0, m, disconnected_msg(msg.id))));
                    assert(dview(out@) =~= notices(s0, rest@, disconnected_msg(msg.id)));
                }
            }
            k = k + 1;
        }
        proof {
            assert(oldm.take(n as int) =~= oldm);
        }
        let ghost restm = rest@;
        if rest.len() > 0 {
            self.rooms.push((msg.room_id, rest));
            proof {
                assert(room_pairs(self.rooms@) =~= room_pairs(rooms1).push((msg.room_id, restm)));
                lemma_amap_push(room_pairs(rooms1), (msg.room_id, restm));
                lemma_unique_push(room_pairs(rooms1), (msg.room_id, restm));
                assert(amap(room_pairs(self.rooms@)) =~~= s0.rooms.insert(msg.room_id, restm));
            }
        } else {
            proof {
                assert(amap(room_pairs(self.rooms@)) == s0.rooms.remove(msg.room_id));
            }
        }
        proof {
            let target = leave_spec(s0, msg.id, msg.room_id);
            assert(self@.sessions == target.0.sessions);
            assert(self@.rooms =~~= target.0.rooms);
            assert(self@ == target.0);
            assert(dview(out@) == target.1);
            lemma_leave_preserves_wf(s0, msg.id, msg.room_id);
        }
        out
    }

    /// Route one inbound text: a whisper goes only to its target (wherever
    /// registered), a malformed whisper and the reserved moderation command go
    /// to nobody, and anything else goes to every current member of the room,
    /// sender included. Routing never changes the registry's state.
    pub fn handle_client_message(&self, msg: &ClientActorMessage) -> (out: Vec<Delivery>)
        requires
            self.wf(),
        ensures
            dview(out@) == route_spec(self@, msg.room_id, msg.msg@),
    {
        let cmd = parse_command(msg.msg.as_str());
        match cmd {
            Command::Whisper { target } => {
                match self.send_message(msg.msg.as_str(), target) {
                    Some(d) => {
                        let mut out: Vec<Delivery> = Vec::new();
                        out.push(d);
                        proof {
                            assert(dview(out@) =~= seq![d@]);
                        }
                        out
                    },
                    None => {
                        let out: Vec<Delivery> = Vec::new();
                        proof {
                            assert(dview(out@) =~= Seq::<DeliveryModel>::empty());
                        }
                        out
                    },
                }
            },
            Command::MalformedWhisper => {
                let out: Vec<Delivery> = Vec::new();
                proof {
                    assert(dview(out@) =~= Seq::<DeliveryModel>::empty());
                }
                out
            },
            Command::Reserved => {
                let out: Vec<Delivery> = Vec::new();
                proof {
                    assert(dview(out@) =~= Seq::<DeliveryModel>::empty());
                }
                out
            },
            Command::Broadcast => {
                match self.find_room_idx(msg.room_id) {
                    None => {
                        let out: Vec<Delivery> = Vec::new();
                        proof {
                            assert(members(self@, msg.room_id) =~= Seq::<u128>::empty());
                            assert(dview(out@) =~= notices(
                                self@,
                                members(self@, msg.room_id),
                                msg.msg@,
                            ));
                        }
                        out
                    },
                    Some(j) => {
                        let ghost ms = members(self@, msg.room_id);
                        proof {
                            assert forall|t: int| 0 <= t < ms.len() implies self@.sessions.contains_key(
                                #[trigger] ms[t],
                            ) by {
                                assert(self@.rooms[msg.room_id][t] == ms[t]);
                            }
                        }
                        let n = self.rooms[j].1.len();
                        let mut out: Vec<Delivery> = Vec::new();
                        let mut k: usize = 0;
                        while k < n
                            invariant
                                0 <= k <= n,
                                self.wf(),
                                j < self.rooms@.len(),
                                self.rooms@[j as int].1@ == ms,
                                n == ms.len(),
                                forall|t: int|
                                    0 <= t < ms.len() ==> self@.sessions.contains_key(
                                        #[trigger] ms[t],
                                    ),
                                dview(out@) == notices(self@, ms.take(k as int), msg.msg@),
                            decreases n - k,
                        {
                            let m = self.rooms[j].1[k];
                            let h = match self.lookup_handle(m) {
                                Some(h) => h,
                                None => unreached(),
                            };
                            out.push(
                                Delivery {
                                    to: m,
                                    handle: h,
                                    msg: WsMessage(String::from_str(msg.msg.as_str())),
                                },
                            );
                            proof {
                                assert(ms.take(k + 1) =~= ms.take(k as int).push(m));
                                assert(notices(self@, ms.take(k + 1), msg.msg@) =~= notices(
                                    self@,
                                    ms.take(k as int),
                                    msg.msg@,
                                ).push(notice(self@, m, msg.msg@)));
                                assert(dview(out@) =~= notices(self@, ms.take(k + 1), msg.msg@));
                            }
                            k = k + 1;
                        }
                        proof {
                            assert(ms.take(n as int) =~= ms);
                        }
                        out
                    },
                }
            },
        }
    }

    /// Whether the registry holds a session for `id`.
    pub fn is_registered(&self, id: u128) -> (r: bool)
        requires
            self.wf(),
        ensures
            r == self@.sessions.contains_key(id),
    {
        self.lookup_handle(id).is_some()
    }

    /// Whether `id` is currently a member of `room_id`.
    pub fn is_member(&self, id: u128, room_id: u64) -> (r: bool)
        requires
            self.wf(),
        ensures
            r == members(self@, room_id).contains(id),
    {
        match self.find_room_idx(room_id) {
            None => {
                proof {
                    assert(members(self@, room_id) =~= Seq::<u128>::empty());
                }
                false
            },
            Some(j) => {
                let ghost ms = members(self@, room_id);
                let n = self.rooms[j].1.len();
                let mut k: usize = 0;
                while k < n
                    invariant
                        0 <= k <= n,
                        j < self.rooms@.len(),
                        self.rooms@[j as int].1@ == ms,
                        ms == members(self@, room_id),
                        n == ms.len(),
                        forall|t: int| 0 <= t < k ==> ms[t] != id,
                    decreases n - k,
                {
                    if self.rooms[j].1[k] == id {
                        proof {
                            assert(ms[k as int] == id);
                            assert(ms.contains(id));
                        }
                        return true;
                    }
                    k = k + 1;
                }
                proof {
                    assert(!ms.contains(id));
                }
                false
            },
        }
    }

    /// The delivery for one recipient: `Some` exactly when the registry holds
    /// a handle for `dest_id`; an unknown recipient is skipped.
    pub fn send_message(&self, message: &str, dest_id: u128) -> (r: Option<Delivery>)
        requires
            self.wf(),
        ensures
            match r {
                Some(d) => self@.sessions.contains_key(dest_id) && d@ == (DeliveryModel {
                    to: dest_id,
                    handle: self@.sessions[dest_id],
                    text: message@,
                }),
                None => !self@.sessions.contains_key(dest_id),
            },
    {
        match self.lookup_handle(dest_id) {
            Some(h) => Some(
                Delivery { to: dest_id, handle: h, msg: WsMessage(String::from_str(message)) },
            ),
            None => None,
        }
    }
}

impl Default for GameRoom {
    /// A fresh registry holds no sessions and no rooms.
    fn default() -> (r: GameRoom)
        ensures
            r.wf(),
            r@.sessions == Map::<u128, u64>::empty(),
            r@.rooms == Map::<u64, Seq<u128>>::empty(),
    {
        let r = GameRoom { sessions: Vec::new(), rooms: Vec::new() };
        proof {
            assert(room_pairs(r.rooms@) =~= Seq::<(u64, Seq<u128>)>::empty());
            assert(r@.sessions =~= Map::<u128, u64>::empty());
            assert(r@.rooms =~= Map::<u64, Seq<u128>>::empty());
            assert(r.wf()) by {
                assert forall|id: u128| #[trigger]
                    r@.sessions.contains_key(id) implies in_some_room(r@, id) by {
                    assert(false);
                }
            }
        }
        r
    }
}

} // verus!
