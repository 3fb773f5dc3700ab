//! Who may change what: every frame is judged by whom our snapshot says its
//! sending app belongs to.

use crate::bytes::Uuid;
use crate::codec::{envelope_of, hello_of, history_resp_of, Cursor, EnvelopeModel};
use crate::frame::{frame_step, is_push, push_payload, push_sender, push_step, sender_name, stamp};
use crate::messages::{ack_step, entries_applied, greetings, hello_step, history_req_step};
use crate::messages::{history_resp_step, msg_step, post_step};
use crate::msg;
use crate::rooms::{add_member_step, invite_step, is_member, leave_step, member_update_step};
use crate::rooms::{open_room_step, remove_member_step};
use crate::state::{AppOwnerModel, NodeModel};
use vstd::prelude::*;

verus! {

/// Whether two nodes agree on everything but their rooms, their clients and
/// their own attachment.
pub open spec fn same_identity(a: NodeModel, b: NodeModel) -> bool {
    &&& a.token == b.token
    &&& a.app_info == b.app_info
    &&& a.destinations == b.destinations
    &&& a.app_owners == b.app_owners
    &&& a.own_user_uuid == b.own_user_uuid
    &&& a.local_device == b.local_device
    &&& a.local_app_id == b.local_app_id
    &&& a.role == b.role
    &&& a.ua == b.ua
    &&& a.directory == b.directory
    &&& a.log == b.log
    &&& a.last_fetch_ok == b.last_fetch_ok
}

proof fn lemma_greetings_identity(n: NodeModel, user: Uuid, dev: Uuid, app: Uuid, rooms: Seq<Cursor>)
    ensures
        same_identity(n, greetings(n, user, dev, app, rooms).0),
    decreases rooms.len(),
{
    if rooms.len() > 0 {
        lemma_greetings_identity(n, user, dev, app, rooms.drop_last());
    }
}

proof fn lemma_entries_identity(n: NodeModel, room_id: Uuid, entries: Seq<Seq<u8>>)
    ensures
        same_identity(n, entries_applied(n, room_id, entries).0),
    decreases entries.len(),
{
    if entries.len() > 0 {
        lemma_entries_identity(n, room_id, entries.drop_last());
    }
}

proof fn lemma_room_steps_identity(
    n: NodeModel,
    env: EnvelopeModel,
    sender_id: Uuid,
    owner: Option<AppOwnerModel>,
    now: u64,
    fresh_id: Uuid,
)
    ensures
        same_identity(n, open_room_step(n, env, sender_id, owner, fresh_id).node),
        same_identity(n, invite_step(n, env, owner, now).node),
        same_identity(n, add_member_step(n, env, owner).node),
        same_identity(n, remove_member_step(n, env, owner).node),
        same_identity(n, leave_step(n, env, owner).node),
        same_identity(n, member_update_step(n, env, owner).node),
{
}

proof fn lemma_message_steps_identity(
    n: NodeModel,
    env: EnvelopeModel,
    owner: Option<AppOwnerModel>,
    ts_ms: u64,
)
    ensures
        same_identity(n, post_step(n, env, owner, ts_ms).node),
        same_identity(n, msg_step(n, env, owner).node),
        same_identity(n, ack_step(n, env, owner).node),
        same_identity(n, history_req_step(n, env, owner).node),
{
}

proof fn lemma_catch_up_steps_identity(
    n: NodeModel,
    env: EnvelopeModel,
    owner: Option<AppOwnerModel>,
)
    ensures
        same_identity(n, hello_step(n, env, owner).node),
        same_identity(n, history_resp_step(n, env, owner).node),
{
    if let (Some(o), Some((dev, app, rooms))) = (owner, hello_of(env.body)) {
        lemma_greetings_identity(n, o.user_uuid, dev, app, rooms);
    }
    if let Some((_, _, _, entries)) = history_resp_of(env.body) {
        lemma_entries_identity(n, env.room_id, entries);
    }
}

/// No frame touches what the node knows of itself and of other users.
pub proof fn frames_keep_identity(
    n: NodeModel,
    env: EnvelopeModel,
    sender_id: Uuid,
    owner: Option<AppOwnerModel>,
    now: u64,
    ts_ms: u64,
    fresh_id: Uuid,
)
    ensures
        same_identity(n, frame_step(n, env, sender_id, owner, now, ts_ms, fresh_id).node),
{
    let t = env.msg_type;
    if t == msg::POST || t == msg::MSG || t == msg::ACK || t == msg::HISTORY_REQ {
        lemma_message_steps_identity(n, env, owner, ts_ms);
    } else if t == msg::HELLO || t == msg::HISTORY_RESP {
        lemma_catch_up_steps_identity(n, env, owner);
    } else {
        lemma_room_steps_identity(n, env, sender_id, owner, now, fresh_id);
    }
}

/// A frame from an app that our snapshot does not list changes nothing and is
/// answered by nothing. (An acknowledgement of our attachment is taken from
/// anyone.)
pub proof fn unresolved_sender_is_powerless(
    n: NodeModel,
    env: EnvelopeModel,
    sender_id: Uuid,
    now: u64,
    ts_ms: u64,
    fresh_id: Uuid,
)
    requires
        env.msg_type != msg::CLIENT_ATTACH_ACK,
    ensures
        frame_step(n, env, sender_id, None, now, ts_ms, fresh_id).node == n,
        frame_step(n, env, sender_id, None, now, ts_ms, fresh_id).sent.len() == 0,
{
}

/// Every push leaves exactly one log line, under the name that our snapshot
/// gives its sender; anything else leaves none.
pub proof fn one_log_line_per_push(
    n: NodeModel,
    data: Seq<u8>,
    now: u64,
    ts_ms: u64,
    logged: u64,
    fresh_id: Uuid,
)
    ensures
        is_push(data) ==> {
            let after = push_step(n, data, now, ts_ms, logged, fresh_id).0.log;
            &&& after.len() == n.log.len() + 1
            &&& after.drop_last() == n.log
            &&& after.last().sender == sender_name(stamp(n, push_sender(data)), push_sender(data))
            &&& after.last().timestamp == logged
        },
        !is_push(data) ==> push_step(n, data, now, ts_ms, logged, fresh_id).0 == n,
{
    if is_push(data) {
        let after = push_step(n, data, now, ts_ms, logged, fresh_id).0.log;
        if let Some(env) = envelope_of(push_payload(data)) {
            let s = push_sender(data);
            frames_keep_identity(n, env, s, stamp(n, s), now, ts_ms, fresh_id);
        }
        assert(after.drop_last() =~= n.log);
    }
}

/// Ordered messages, history and notices of membership are taken from the
/// device of the room's host alone.
pub proof fn only_the_host_is_believed(
    n: NodeModel,
    env: EnvelopeModel,
    sender_id: Uuid,
    owner: AppOwnerModel,
    now: u64,
    ts_ms: u64,
    fresh_id: Uuid,
)
    requires
        env.msg_type == msg::MSG || env.msg_type == msg::HISTORY_RESP || env.msg_type
            == msg::MEMBER_UPDATE,
        n.rooms.contains_key(env.room_id) ==> n.rooms[env.room_id].rh_device != owner.device_uuid,
    ensures
        frame_step(n, env, sender_id, Some(owner), now, ts_ms, fresh_id).node == n,
        frame_step(n, env, sender_id, Some(owner), now, ts_ms, fresh_id).sent.len() == 0,
{
}

/// A user who is neither a member of a hosted room nor our own user can do
/// nothing to it: not post, acknowledge, ask for history, leave, add or remove.
pub proof fn strangers_are_powerless(
    n: NodeModel,
    env: EnvelopeModel,
    sender_id: Uuid,
    owner: AppOwnerModel,
    now: u64,
    ts_ms: u64,
    fresh_id: Uuid,
)
    requires
        env.msg_type == msg::POST || env.msg_type == msg::ACK || env.msg_type == msg::HISTORY_REQ
            || env.msg_type == msg::LEAVE || env.msg_type == msg::ADD_MEMBER || env.msg_type
            == msg::REMOVE_MEMBER,
        !owner.own_user,
        n.rooms.contains_key(env.room_id) ==> !is_member(
            n.rooms[env.room_id].members,
            owner.user_uuid,
        ),
    ensures
        frame_step(n, env, sender_id, Some(owner), now, ts_ms, fresh_id).node == n,
        frame_step(n, env, sender_id, Some(owner), now, ts_ms, fresh_id).sent.len() == 0,
{
}

/// Only the host's own devices change who belongs to a hosted room or open
/// rooms here; a member alone may not.
pub proof fn members_do_not_govern(
    n: NodeModel,
    env: EnvelopeModel,
    sender_id: Uuid,
    owner: AppOwnerModel,
    now: u64,
    ts_ms: u64,
    fresh_id: Uuid,
)
    requires
        env.msg_type == msg::ADD_MEMBER || env.msg_type == msg::REMOVE_MEMBER || env.msg_type
            == msg::OPEN_ROOM || env.msg_type == msg::CLIENT_ATTACH,
        !owner.own_user,
    ensures
        frame_step(n, env, sender_id, Some(owner), now, ts_ms, fresh_id).node == n,
        frame_step(n, env, sender_id, Some(owner), now, ts_ms, fresh_id).sent.len() == 0,
{
}

} // verus!
