//! What is refused is refused for a reason, and the answer or the log gives it.

use crate::api::dev_packet;
use crate::bytes::{lemma_be_bytes_len, text_bytes, uuid_of, zero_id, Uuid};
use crate::codec::{ack_of, dev_text_of, envelope_bytes, hello_of, history_req_of};
use crate::codec::{history_resp_of, invite_of, member_update_of, msg_of, open_room_of, post_of};
use crate::codec::EnvelopeModel;
use crate::frame::{attach_ack_step, attach_step, frame_step};
use crate::messages::ordering;
use crate::msg;
use crate::rooms::{add_member_step, invite_step, is_member, local_add, local_remove};
use crate::rooms::{open_room_step, remove_member_step, Step};
use crate::state::{AppOwnerModel, NodeModel, Role};
use crate::text::{dec, hex_chars};
use vstd::prelude::*;
use vstd::utf8::encode_utf8;

verus! {

/// Whether a step did nothing but give a reason.
pub open spec fn refused(n: NodeModel, step: Step, reason: Seq<char>) -> bool {
    step.node == n && step.sent.len() == 0 && step.detail == reason
}

/// Whether a request failed for a reason.
pub open spec fn fails<T>(outcome: Result<T, Seq<char>>, reason: Seq<char>) -> bool {
    outcome matches Err(e) && e == reason
}

/// A frame from an app that nobody is known to own is refused for that.
pub proof fn strangers_are_refused(
    n: NodeModel,
    env: EnvelopeModel,
    sender: Uuid,
    now: u64,
    ts_ms: u64,
    fresh: Uuid,
)
    ensures
        ({
            let step = frame_step(n, env, sender, None, now, ts_ms, fresh);
            let t = env.msg_type;
            &&& t == 0x01 ==> refused(n, step, "OPEN_ROOM from unresolved sender — dropped"@)
            &&& t == 0x03 ==> refused(n, step, "INVITE from unresolved sender — dropped"@)
            &&& t == 0x04 ==> refused(n, step, "HELLO from unresolved sender — dropped"@)
            &&& t == 0x06 ==> refused(n, step, "ADD_MEMBER from unresolved sender — dropped"@)
            &&& t == 0x07 ==> refused(n, step, "REMOVE_MEMBER from unresolved sender — dropped"@)
            &&& t == 0x08 ==> refused(n, step, "LEAVE from unresolved sender — dropped"@)
            &&& t == 0x09 ==> refused(n, step, "MEMBER_UPDATE from unresolved sender — dropped"@)
            &&& t == 0x0A ==> refused(n, step, "POST from unresolved sender — dropped"@)
            &&& t == 0x0B ==> refused(n, step, "MSG from unresolved sender — dropped"@)
            &&& t == 0x0C ==> refused(n, step, "ACK from unresolved sender — dropped"@)
            &&& t == 0x0D ==> refused(n, step, "HISTORY_REQ from unresolved sender — dropped"@)
            &&& t == 0x0E ==> refused(n, step, "HISTORY_RESP from unresolved sender — dropped"@)
            &&& t == 0x10 ==> refused(
                n,
                step,
                "attach from unresolved sender — dropped (waiting on sync)"@,
            )
        }),
{
}

/// A frame whose body does not read as its kind is refused for that.
pub proof fn malformed_frames_are_refused(
    n: NodeModel,
    env: EnvelopeModel,
    sender: Uuid,
    o: AppOwnerModel,
    now: u64,
    ts_ms: u64,
    fresh: Uuid,
)
    ensures
        ({
            let step = frame_step(n, env, sender, Some(o), now, ts_ms, fresh);
            let t = env.msg_type;
            &&& t == 0x01 && n.role == Role::UserAgent && o.own_user && open_room_of(
                env.body,
            ) is None ==> refused(n, step, "OPEN_ROOM malformed"@)
            &&& t == 0x03 && invite_of(env.body) is None ==> refused(n, step, "INVITE malformed"@)
            &&& t == 0x04 && hello_of(env.body) is None ==> refused(n, step, "HELLO malformed"@)
            &&& t == 0x06 && env.body.len() < 16 ==> refused(n, step, "ADD_MEMBER malformed"@)
            &&& t == 0x07 && env.body.len() < 16 ==> refused(n, step, "REMOVE_MEMBER malformed"@)
            &&& t == 0x09 && member_update_of(env.body) is None ==> refused(
                n,
                step,
                "MEMBER_UPDATE malformed"@,
            )
            &&& t == 0x0A && post_of(env.body) is None ==> refused(n, step, "POST malformed"@)
            &&& t == 0x0B && msg_of(env.body) is None ==> refused(n, step, "MSG malformed"@)
            &&& t == 0x0C && ack_of(env.body) is None ==> refused(n, step, "ACK malformed"@)
            &&& t == 0x0D && history_req_of(env.body) is None ==> refused(
                n,
                step,
                "HISTORY_REQ malformed"@,
            )
            &&& t == 0x0E && n.rooms.contains_key(env.room_id)
                && n.rooms[env.room_id].rh_device == o.device_uuid && history_resp_of(
                env.body,
            ) is None ==> refused(n, step, "HISTORY_RESP malformed"@)
        }),
{
}

/// A frame that reads, for a room that this node does not know, is refused for
/// that.
pub proof fn unknown_rooms_are_refused(
    n: NodeModel,
    env: EnvelopeModel,
    sender: Uuid,
    o: AppOwnerModel,
    now: u64,
    ts_ms: u64,
    fresh: Uuid,
)
    requires
        !n.rooms.contains_key(env.room_id),
    ensures
        ({
            let step = frame_step(n, env, sender, Some(o), now, ts_ms, fresh);
            let t = env.msg_type;
            &&& t == 0x06 && env.body.len() >= 16 ==> refused(
                n,
                step,
                "ADD_MEMBER for unknown room"@,
            )
            &&& t == 0x07 && env.body.len() >= 16 ==> refused(
                n,
                step,
                "REMOVE_MEMBER for unknown room"@,
            )
            &&& t == 0x08 ==> refused(n, step, "LEAVE for unknown room"@)
            &&& t == 0x09 && member_update_of(env.body) is Some ==> refused(
                n,
                step,
                "MEMBER_UPDATE for unknown room"@,
            )
            &&& t == 0x0A && post_of(env.body) is Some ==> refused(
                n,
                step,
                "POST for unknown room"@,
            )
            &&& t == 0x0B && msg_of(env.body) is Some ==> refused(
                n,
                step,
                "MSG not from our RH — dropped"@,
            )
            &&& t == 0x0C && ack_of(env.body) is Some ==> refused(n, step, "ACK for unknown room"@)
            &&& t == 0x0D && history_req_of(env.body) is Some ==> refused(
                n,
                step,
                "HISTORY_REQ for unknown room"@,
            )
            &&& t == 0x0E ==> refused(n, step, "HISTORY_RESP not from our RH — dropped"@)
        }),
{
}

/// A frame that reads and is meant for a room's host is refused, for that, by
/// anyone else.
pub proof fn only_hosts_act_as_hosts(
    n: NodeModel,
    env: EnvelopeModel,
    sender: Uuid,
    o: AppOwnerModel,
    now: u64,
    ts_ms: u64,
    fresh: Uuid,
)
    requires
        n.rooms.contains_key(env.room_id),
        !n.rooms[env.room_id].is_rh,
    ensures
        ({
            let step = frame_step(n, env, sender, Some(o), now, ts_ms, fresh);
            let t = env.msg_type;
            &&& t == 0x06 && env.body.len() >= 16 ==> refused(
                n,
                step,
                "ADD_MEMBER ignored — we are not this room's RH"@,
            )
            &&& t == 0x07 && env.body.len() >= 16 ==> refused(
                n,
                step,
                "REMOVE_MEMBER ignored — we are not this room's RH"@,
            )
            &&& t == 0x08 ==> refused(n, step, "LEAVE ignored — we are not this room's RH"@)
            &&& t == 0x0A && post_of(env.body) is Some ==> refused(
                n,
                step,
                "POST ignored — we are not this room's RH"@,
            )
            &&& t == 0x0C && ack_of(env.body) is Some ==> refused(
                n,
                step,
                "ACK ignored — we are not this room's RH"@,
            )
            &&& t == 0x0D && history_req_of(env.body) is Some ==> refused(
                n,
                step,
                "HISTORY_REQ ignored — we are not this room's RH"@,
            )
        }),
{
}

/// A frame from one who has no say in a room is refused, for that, by its host;
/// and a frame that only the host may send, by its members.
pub proof fn outsiders_are_refused(
    n: NodeModel,
    env: EnvelopeModel,
    sender: Uuid,
    o: AppOwnerModel,
    now: u64,
    ts_ms: u64,
    fresh: Uuid,
)
    requires
        n.rooms.contains_key(env.room_id),
    ensures
        ({
            let step = frame_step(n, env, sender, Some(o), now, ts_ms, fresh);
            let t = env.msg_type;
            let room = n.rooms[env.room_id];
            let outside = room.is_rh && !is_member(room.members, o.user_uuid);
            let other = room.rh_device != o.device_uuid;
            &&& t == 0x06 && env.body.len() >= 16 && room.is_rh && !o.own_user ==> refused(
                n,
                step,
                "ADD_MEMBER rejected — sender is not the host"@,
            )
            &&& t == 0x07 && env.body.len() >= 16 && room.is_rh && !o.own_user ==> refused(
                n,
                step,
                "REMOVE_MEMBER rejected — sender is not the host"@,
            )
            &&& t == 0x08 && outside ==> refused(n, step, "LEAVE from a non-member — ignored"@)
            &&& t == 0x0A && post_of(env.body) is Some && outside && !o.own_user ==> refused(
                n,
                step,
                "POST from non-member "@ + o.label + " dropped"@,
            )
            &&& t == 0x0C && ack_of(env.body) is Some && outside ==> refused(
                n,
                step,
                "ACK from non-member — dropped"@,
            )
            &&& t == 0x0D && history_req_of(env.body) is Some && outside ==> refused(
                n,
                step,
                "HISTORY_REQ from non-member — dropped"@,
            )
            &&& t == 0x09 && member_update_of(env.body) is Some && other ==> refused(
                n,
                step,
                "MEMBER_UPDATE not from our RH — dropped"@,
            )
            &&& t == 0x0B && msg_of(env.body) is Some && other ==> refused(
                n,
                step,
                "MSG not from our RH — dropped"@,
            )
            &&& t == 0x0E && other ==> refused(n, step, "HISTORY_RESP not from our RH — dropped"@)
        }),
{
}

/// A change that makes no sense is refused for what is wrong with it, whether it
/// is asked for by a frame or by the local user.
pub proof fn senseless_changes_are_refused(
    n: NodeModel,
    env: EnvelopeModel,
    o: AppOwnerModel,
    target: Uuid,
)
    requires
        o.own_user,
        n.rooms.contains_key(env.room_id),
        n.rooms[env.room_id].is_rh,
        env.body.len() >= 16,
        uuid_of(env.body.subrange(0, 16)) == target,
    ensures
        ({
            let add = add_member_step(n, env, Some(o));
            let del = remove_member_step(n, env, Some(o));
            let id = env.room_id;
            let known = n.directory.contains_key(target);
            let member = is_member(n.rooms[id].members, target);
            &&& !known ==> refused(n, add, "ADD_MEMBER target not a known contact"@)
            &&& !known ==> fails(local_add(n, id, target), "target not a known contact"@)
            &&& known && n.directory[target].own ==> refused(
                n,
                add,
                "ADD_MEMBER target is our own user"@,
            )
            &&& known && n.directory[target].own ==> fails(
                local_add(n, id, target),
                "target is our own user"@,
            )
            &&& known && !n.directory[target].own && member ==> refused(
                n,
                add,
                "ADD_MEMBER: already a member"@,
            )
            &&& known && !n.directory[target].own && member ==> fails(
                local_add(n, id, target),
                "already a member"@,
            )
            &&& !member ==> refused(n, del, "REMOVE_MEMBER: not a member"@)
            &&& !member ==> fails(local_remove(n, id, target), "not a member"@)
        }),
{
}

/// The local user is told of a room that is not known, or not hosted here.
pub proof fn unknown_rooms_are_named(
    n: NodeModel,
    id: Uuid,
    target: Uuid,
    cid: Uuid,
    text: Seq<char>,
    ts_ms: u64,
)
    ensures
        !n.rooms.contains_key(id) ==> {
            &&& fails(local_add(n, id, target), "unknown room"@)
            &&& fails(local_remove(n, id, target), "unknown room"@)
            &&& fails(ordering(n, id, target, cid, text, ts_ms), "unknown room"@)
        },
        n.rooms.contains_key(id) && !n.rooms[id].is_rh ==> fails(
            ordering(n, id, target, cid, text, ts_ms),
            "not this room's RH"@,
        ),
{
}

/// What only the acting User Agent does for its own user is refused for what
/// stands against it; and a node that does not know who it is joins and creates
/// nothing.
pub proof fn roles_are_kept(
    n: NodeModel,
    env: EnvelopeModel,
    sender: Uuid,
    o: AppOwnerModel,
    now: u64,
    fresh: Uuid,
)
    ensures
        ({
            let open = open_room_step(n, env, sender, Some(o), fresh);
            let attach = attach_step(n, sender, Some(o), now);
            let lost = n.own_user_uuid is None || n.local_device is None || n.local_app_id is None;
            &&& n.role != Role::UserAgent ==> refused(
                n,
                open,
                "OPEN_ROOM ignored — we are not a UserAgent (cannot be an RH)"@,
            )
            &&& n.role == Role::UserAgent && !o.own_user ==> refused(
                n,
                open,
                "OPEN_ROOM from "@ + o.label + " rejected — not our user"@,
            )
            &&& n.role == Role::UserAgent && o.own_user && open_room_of(env.body) is Some && lost
                ==> refused(n, open, "OPEN_ROOM failed — local identity not resolved yet"@)
            &&& n.role != Role::UserAgent ==> refused(
                n,
                attach,
                "attach from "@ + o.label + " ignored — we are not a UserAgent"@,
            )
            &&& n.role == Role::UserAgent && !o.own_user ==> refused(
                n,
                attach,
                "attach from "@ + o.label + " ignored — not our user"@,
            )
            &&& n.role == Role::UserAgent && o.own_user ==> attach.detail == "attach from "@
                + o.label + " — acked"@
            &&& n.role != Role::DataGuest ==> refused(
                n,
                attach_ack_step(n, now),
                "attach-ack received but we are not a DG"@,
            )
            &&& n.role == Role::DataGuest ==> attach_ack_step(n, now).detail
                == "UA acknowledged our attach"@
            &&& invite_of(env.body) is Some && (n.local_device is None || n.local_app_id is None)
                ==> refused(
                n,
                invite_step(n, env, Some(o), now),
                "INVITE received but local identity not resolved yet"@,
            )
        }),
{
}

/// A notice of a change that is none, a text that does not read, and a frame of a
/// kind that is not handled are logged as such.
pub proof fn other_frames_are_logged(
    n: NodeModel,
    env: EnvelopeModel,
    sender: Uuid,
    o: AppOwnerModel,
    now: u64,
    ts_ms: u64,
    fresh: Uuid,
)
    ensures
        ({
            let step = frame_step(n, env, sender, Some(o), now, ts_ms, fresh);
            let t = env.msg_type;
            &&& t == 0x09 && n.rooms.contains_key(env.room_id)
                && n.rooms[env.room_id].rh_device == o.device_uuid && (member_update_of(
                env.body,
            ) matches Some((change, _, _)) && change > 2) ==> refused(
                n,
                step,
                "MEMBER_UPDATE unknown change kind"@,
            )
            &&& t == 0xF0 && dev_text_of(env.body) is None ==> refused(
                n,
                step,
                "<malformed DEV_TEXT>"@,
            )
            &&& t != 0xF0 && (t > 0x11 || t == 0x00 || t == 0x02 || t == 0x05 || t == 0x0F)
                ==> refused(
                n,
                step,
                "room "@ + hex_chars(env.room_id@).take(8) + "…, "@ + dec(env.body.len())
                    + " body byte(s) — not handled until a later phase"@,
            )
        }),
{
}

/// A test text is refused for want of a token, for a destination that is not
/// listed, or for its length, in this order.
pub proof fn texts_are_refused_with_reason(n: NodeModel, i: int, text: Seq<char>)
    requires
        0 <= i,
    ensures
        ({
            let out = dev_packet(n, i, text);
            let size = 20 + encode_utf8(text).len();
            &&& n.token is None ==> fails(out, "not registered"@)
            &&& n.token is Some && i >= n.destinations.len() ==> fails(
                out,
                "invalid destination index"@,
            )
            &&& n.token is Some && i < n.destinations.len() && size > 1024 ==> fails(
                out,
                "message too long ("@ + dec(size) + " > "@ + dec(1024) + " bytes)"@,
            )
        }),
{
    lemma_be_bytes_len(encode_utf8(text).len(), 2);
    assert(envelope_bytes(msg::DEV_TEXT, zero_id(), text_bytes(text)).len() == 20 + encode_utf8(
        text,
    ).len());
}

} // verus!
