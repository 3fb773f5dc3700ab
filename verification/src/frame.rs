//! Inbound frames: who they are from, what they lead to, and what is logged.

use crate::bytes::{read_uuid, uuid_of, zero_id, zero_uuid, Uuid};
use crate::clock::{now_ms, now_secs};
use crate::codec::{decode_dev_text, decode_envelope, dev_text_of, envelope_of, Envelope};
use crate::codec::EnvelopeModel;
use crate::messages::{ack_step, can_order_post, handle_ack, handle_hello, handle_history_req};
use crate::messages::{handle_history_resp, handle_msg, handle_post, hello_step, history_req_step};
use crate::messages::{history_resp_step, msg_step, post_orderable, post_step};
use crate::msg;
use crate::packet::OP_PUSH;
use crate::rooms::{add_member_step, handle_add_member, handle_invite, handle_leave};
use crate::rooms::{handle_member_update, handle_open_room, handle_remove_member, ignored};
use crate::rooms::{invite_step, leave_step, member_update_step, open_room_step, owner_model};
use crate::rooms::{remove_member_step, took, Step};
use crate::state::{AppOwner, AppOwnerModel, AttachState, AttachedClient, AttachedClientModel};
use crate::state::{Inner, LogEntry, LogEntryModel, NodeModel, Outbound, OutboundModel, Role};
use crate::text::{dec, decimal, hex, hex_chars, join3, join5, short_hex, short_hex_chars};
use crate::views::{lemma_views_take, views};
use vstd::prelude::*;

verus! {

// ── Attached clients ─────────────────────────────────────────────────────────

/// The place of the first client with an app, the length when there is none.
pub open spec fn client_index(clients: Seq<AttachedClientModel>, app_hex: Seq<char>) -> int
    decreases clients.len(),
{
    if clients.len() == 0 {
        0
    } else {
        let front = client_index(clients.drop_last(), app_hex);
        if front < clients.len() - 1 {
            front
        } else if clients.last().app_id_hex == app_hex {
            clients.len() - 1
        } else {
            clients.len() as int
        }
    }
}

/// The clients after one announced itself: seen now, and listed if it was not.
pub open spec fn with_client(
    clients: Seq<AttachedClientModel>,
    owner: AppOwnerModel,
    sender_id: Uuid,
    now: u64,
) -> Seq<AttachedClientModel> {
    let app_hex = hex_chars(sender_id@);
    let i = client_index(clients, app_hex);
    if i < clients.len() {
        clients.update(i, AttachedClientModel { last_seen: now, ..clients[i] })
    } else {
        clients.push(
            AttachedClientModel {
                device_uuid_hex: hex_chars(owner.device_uuid@),
                app_id_hex: app_hex,
                label: owner.label,
                last_seen: now,
            },
        )
    }
}

fn find_client(clients: &Vec<AttachedClient>, app_hex: &String) -> (r: usize)
    ensures
        r == client_index(views(clients@), app_hex@),
        r <= clients@.len(),
{
    let ghost all = views(clients@);
    let mut found: usize = 0;
    let mut i: usize = 0;
    assert(all.take(0) =~= Seq::empty());
    while i < clients.len()
        invariant
            i <= clients@.len(),
            found <= i,
            all == views(clients@),
            found == client_index(all.take(i as int), app_hex@),
        decreases clients@.len() - i,
    {
        proof {
            lemma_views_take(clients@, i as int);
        }
        if found == i && clients[i].app_id_hex != *app_hex {
            found = i + 1;
        }
        i += 1;
    }
    assert(all.take(i as int) =~= all);
    found
}

fn note_client(
    clients: &mut Vec<AttachedClient>,
    owner: &AppOwner,
    sender_id: &Uuid,
    now: u64,
)
    ensures
        views(final(clients)@) == with_client(views(old(clients)@), owner@, *sender_id, now),
{
    broadcast use crate::views::group_views;

    let app_id_hex = hex(sender_id.as_slice());
    let i: usize = find_client(clients, &app_id_hex);
    if i < clients.len() {
        let seen = AttachedClient {
            device_uuid_hex: clients[i].device_uuid_hex.clone(),
            app_id_hex: clients[i].app_id_hex.clone(),
            label: clients[i].label.clone(),
            last_seen: now,
        };
        clients.set(i, seen);
    } else {
        clients.push(
            AttachedClient {
                device_uuid_hex: hex(owner.device_uuid.as_slice()),
                app_id_hex,
                label: owner.label.clone(),
                last_seen: now,
            },
        );
    }
    assert(views(clients@) =~= with_client(views(old(clients)@), owner@, *sender_id, now));
}

/// The step for `CLIENT_ATTACH`: a User Agent notes its own user's clients and
/// answers them.
pub open spec fn attach_step(
    n: NodeModel,
    sender_id: Uuid,
    owner: Option<AppOwnerModel>,
    now: u64,
) -> Step {
    match owner {
        None => ignored(n, "attach from unresolved sender — dropped (waiting on sync)"@),
        Some(o) => if n.role != Role::UserAgent {
            ignored(n, "attach from "@ + o.label + " ignored — we are not a UserAgent"@)
        } else if !o.own_user {
            ignored(n, "attach from "@ + o.label + " ignored — not our user"@)
        } else {
            Step {
                node: NodeModel {
                    attached_clients: with_client(n.attached_clients, o, sender_id, now),
                    ..n
                },
                detail: "attach from "@ + o.label + " — acked"@,
                sent: seq![
                    OutboundModel {
                        dest_device: o.device_uuid,
                        dest_app: sender_id,
                        msg_type: msg::CLIENT_ATTACH_ACK,
                        room_id: zero_id(),
                        body: Seq::empty(),
                    },
                ],
            }
        },
    }
}

/// Handle `CLIENT_ATTACH`, received at `now`.
pub fn handle_attach(
    inner: &mut Inner,
    sender_id: Uuid,
    owner: Option<&AppOwner>,
    now: u64,
    outs: &mut Vec<Outbound>,
) -> (r: String)
    ensures
        took(
            attach_step(old(inner)@, sender_id, owner_model(owner), now),
            final(inner)@,
            r@,
            old(outs)@,
            final(outs)@,
        ),
        old(inner)@.wf() ==> final(inner)@.wf(),
{
    broadcast use crate::views::group_views;

    assert(views(outs@) + Seq::<OutboundModel>::empty() =~= views(outs@));
    let Some(owner) = owner else {
        return "attach from unresolved sender — dropped (waiting on sync)".to_owned();
    };
    if inner.role != Role::UserAgent {
        return join3("attach from ", owner.label.as_str(), " ignored — we are not a UserAgent");
    }
    if !owner.own_user {
        return join3("attach from ", owner.label.as_str(), " ignored — not our user");
    }
    note_client(&mut inner.attached_clients, owner, &sender_id, now);
    outs.push(
        Outbound {
            dest_device: owner.device_uuid,
            dest_app: sender_id,
            msg_type: msg::CLIENT_ATTACH_ACK,
            room_id: zero_uuid(),
            body: Vec::new(),
        },
    );
    proof {
        let step = attach_step(old(inner)@, sender_id, Some(owner@), now);
        assert(inner@ =~= step.node);
        assert(views(outs@) =~= views(old(outs)@) + step.sent);
    }
    join3("attach from ", owner.label.as_str(), " — acked")
}

/// The step for `CLIENT_ATTACH_ACK`: a client notes that its User Agent answered.
pub open spec fn attach_ack_step(n: NodeModel, now: u64) -> Step {
    if n.role == Role::DataGuest {
        ignored(
            NodeModel {
                attach: AttachState { last_sent: n.attach.last_sent, last_ack: Some(now) },
                ..n
            },
            "UA acknowledged our attach"@,
        )
    } else {
        ignored(n, "attach-ack received but we are not a DG"@)
    }
}

// ── Dispatch ─────────────────────────────────────────────────────────────────

/// What one frame leads to. `now` and `ts_ms` are the time of its handling in
/// seconds and milliseconds; `fresh_id` names a room that it may open.
pub open spec fn frame_step(
    n: NodeModel,
    env: EnvelopeModel,
    sender_id: Uuid,
    owner: Option<AppOwnerModel>,
    now: u64,
    ts_ms: u64,
    fresh_id: Uuid,
) -> Step {
    if env.msg_type == msg::DEV_TEXT {
        ignored(
            n,
            match dev_text_of(env.body) {
                Some(t) => t,
                None => "<malformed DEV_TEXT>"@,
            },
        )
    } else if env.msg_type == msg::CLIENT_ATTACH {
        attach_step(n, sender_id, owner, now)
    } else if env.msg_type == msg::CLIENT_ATTACH_ACK {
        attach_ack_step(n, now)
    } else if env.msg_type == msg::OPEN_ROOM {
        open_room_step(n, env, sender_id, owner, fresh_id)
    } else if env.msg_type == msg::INVITE {
        invite_step(n, env, owner, now)
    } else if env.msg_type == msg::HELLO {
        hello_step(n, env, owner)
    } else if env.msg_type == msg::ADD_MEMBER {
        add_member_step(n, env, owner)
    } else if env.msg_type == msg::REMOVE_MEMBER {
        remove_member_step(n, env, owner)
    } else if env.msg_type == msg::LEAVE {
        leave_step(n, env, owner)
    } else if env.msg_type == msg::MEMBER_UPDATE {
        member_update_step(n, env, owner)
    } else if env.msg_type == msg::POST {
        post_step(n, env, owner, ts_ms)
    } else if env.msg_type == msg::MSG {
        msg_step(n, env, owner)
    } else if env.msg_type == msg::ACK {
        ack_step(n, env, owner)
    } else if env.msg_type == msg::HISTORY_REQ {
        history_req_step(n, env, owner)
    } else if env.msg_type == msg::HISTORY_RESP {
        history_resp_step(n, env, owner)
    } else {
        ignored(
            n,
            "room "@ + short_hex_chars(env.room_id) + "…, "@ + dec(env.body.len())
                + " body byte(s) — not handled until a later phase"@,
        )
    }
}

/// Whether a frame can be handled: a post that is taken needs a sequence number.
pub open spec fn frame_ready(
    n: NodeModel,
    env: EnvelopeModel,
    owner: Option<AppOwnerModel>,
) -> bool {
    env.msg_type == msg::POST ==> post_orderable(n, env, owner)
}

/// Apply one decoded frame, handled at a given time, and say what became of it.
/// Frames to send are queued into `outs`.
pub fn handle_frame_at(
    inner: &mut Inner,
    env: &Envelope<'_>,
    sender_id: Uuid,
    owner: Option<&AppOwner>,
    now: u64,
    ts_ms: u64,
    fresh_id: Uuid,
    outs: &mut Vec<Outbound>,
) -> (r: String)
    requires
        old(inner)@.wf(),
        frame_ready(old(inner)@, env@, owner_model(owner)),
    ensures
        took(
            frame_step(old(inner)@, env@, sender_id, owner_model(owner), now, ts_ms, fresh_id),
            final(inner)@,
            r@,
            old(outs)@,
            final(outs)@,
        ),
        final(inner)@.wf(),
{
    assert(views(outs@) + Seq::<OutboundModel>::empty() =~= views(outs@));
    match env.msg_type {
        msg::DEV_TEXT => match decode_dev_text(env.body) {
            Some(t) => t,
            None => "<malformed DEV_TEXT>".to_owned(),
        },
        msg::CLIENT_ATTACH => handle_attach(inner, sender_id, owner, now, outs),
        msg::CLIENT_ATTACH_ACK => {
            if inner.role == Role::DataGuest {
                inner.attach = AttachState {
                    last_sent: inner.attach.last_sent,
                    last_ack: Some(now),
                };
                assert(inner@ =~= attach_ack_step(old(inner)@, now).node);
                "UA acknowledged our attach".to_owned()
            } else {
                "attach-ack received but we are not a DG".to_owned()
            }
        },
        msg::OPEN_ROOM => handle_open_room(inner, env, sender_id, owner, fresh_id, outs),
        msg::INVITE => handle_invite(inner, env, owner, now, outs),
        msg::HELLO => handle_hello(inner, env, owner, outs),
        msg::ADD_MEMBER => handle_add_member(inner, env, owner, outs),
        msg::REMOVE_MEMBER => handle_remove_member(inner, env, owner, outs),
        msg::LEAVE => handle_leave(inner, env, owner, outs),
        msg::MEMBER_UPDATE => handle_member_update(inner, env, owner),
        msg::POST => handle_post(inner, env, owner, ts_ms, outs),
        msg::MSG => handle_msg(inner, env, owner, outs),
        msg::ACK => handle_ack(inner, env, owner),
        msg::HISTORY_REQ => handle_history_req(inner, env, owner, outs),
        msg::HISTORY_RESP => handle_history_resp(inner, env, owner, outs),
        _ => join5(
            "room ",
            short_hex(&env.room_id).as_str(),
            "…, ",
            decimal(env.body.len() as u64).as_str(),
            " body byte(s) — not handled until a later phase",
        ),
    }
}

/// Apply one decoded frame now, and say what became of it. Frames to send are
/// queued into `outs`.
pub fn handle_frame(
    inner: &mut Inner,
    env: &Envelope<'_>,
    sender_id: Uuid,
    owner: Option<&AppOwner>,
    fresh_id: Uuid,
    outs: &mut Vec<Outbound>,
) -> (r: String)
    requires
        old(inner)@.wf(),
        frame_ready(old(inner)@, env@, owner_model(owner)),
    ensures
        exists|now: u64, ts_ms: u64|
            took(
                #[trigger] frame_step(
                    old(inner)@,
                    env@,
                    sender_id,
                    owner_model(owner),
                    now,
                    ts_ms,
                    fresh_id,
                ),
                final(inner)@,
                r@,
                old(outs)@,
                final(outs)@,
            ),
        final(inner)@.wf(),
{
    let now: u64 = now_secs();
    let ts_ms: u64 = now_ms();
    handle_frame_at(inner, env, sender_id, owner, now, ts_ms, fresh_id, outs)
}

// ── Pushes ───────────────────────────────────────────────────────────────────

/// Whether a packet is a push: `op, sender_app_id:16, payload`.
pub open spec fn is_push(data: Seq<u8>) -> bool {
    data.len() >= 17 && data[0] == OP_PUSH
}

/// The app that a push is from.
pub open spec fn push_sender(data: Seq<u8>) -> Uuid {
    uuid_of(data.subrange(1, 17))
}

/// The payload of a push.
pub open spec fn push_payload(data: Seq<u8>) -> Seq<u8> {
    data.subrange(17, data.len() as int)
}

/// Who our snapshot says an app belongs to.
pub open spec fn stamp(n: NodeModel, sender_id: Uuid) -> Option<AppOwnerModel> {
    if n.app_owners.contains_key(sender_id) {
        Some(n.app_owners[sender_id])
    } else {
        None
    }
}

/// What the log calls a sender.
pub open spec fn sender_name(owner: Option<AppOwnerModel>, sender_id: Uuid) -> Seq<char> {
    match owner {
        Some(o) => o.label,
        None => "app#"@ + hex_chars(sender_id@) + " (unresolved)"@,
    }
}

/// What the log calls a message type.
pub open spec fn kind_name(t: u8) -> Seq<char> {
    if msg::is_known(t) {
        msg::name_of(t)
    } else {
        "UNKNOWN(0x"@ + hex_chars(seq![t]) + ")"@
    }
}

/// What a push leads to: the node, with one more log line, and the frames to
/// send. `logged` is the time of the log line.
pub open spec fn push_step(
    n: NodeModel,
    data: Seq<u8>,
    now: u64,
    ts_ms: u64,
    logged: u64,
    fresh_id: Uuid,
) -> (NodeModel, Seq<OutboundModel>) {
    if !is_push(data) {
        (n, Seq::empty())
    } else {
        let sender_id = push_sender(data);
        let owner = stamp(n, sender_id);
        let (step, kind) = match envelope_of(push_payload(data)) {
            Some(env) => (
                frame_step(n, env, sender_id, owner, now, ts_ms, fresh_id),
                kind_name(env.msg_type),
            ),
            None => (
                ignored(
                    n,
                    "undecodable payload ("@ + dec(push_payload(data).len()) + " byte(s))"@,
                ),
                "BAD_FRAME"@,
            ),
        };
        let line = LogEntryModel {
            sender: sender_name(owner, sender_id),
            kind,
            detail: step.detail,
            timestamp: logged,
        };
        (NodeModel { log: step.node.log.push(line), ..step.node }, step.sent)
    }
}

/// Whether a push can be handled: a post that is taken needs a sequence number.
pub open spec fn push_ready(n: NodeModel, data: Seq<u8>) -> bool {
    is_push(data) ==> match envelope_of(push_payload(data)) {
        Some(env) => frame_ready(n, env, stamp(n, push_sender(data))),
        None => true,
    }
}

/// Whether a push can be handled.
pub fn can_take_push(inner: &Inner, data: &[u8]) -> (r: bool)
    ensures
        r == push_ready(inner@, data@),
{
    if data.len() < 17 || data[0] != OP_PUSH {
        return true;
    }
    let mut pos: usize = 1;
    let Some(sender_id) = read_uuid(data, &mut pos) else {
        return true;
    };
    match decode_envelope(&data[17..data.len()]) {
        Some(env) => env.msg_type != msg::POST || can_order_post(
            inner,
            &env,
            inner.app_owners.get(&sender_id),
        ),
        None => true,
    }
}

fn kind_text(t: u8) -> (r: String)
    ensures
        r@ == kind_name(t),
{
    if msg::known(t) {
        msg::name(t).to_owned()
    } else {
        let one = [t];
        assert(one@ =~= seq![t]);
        join3("UNKNOWN(0x", hex(one.as_slice()).as_str(), ")")
    }
}

/// Take a push, handled at a given time: resolve who it is really from, apply
/// its frame, and log it. Says whether the packet was a push at all.
pub fn handle_push_at(
    inner: &mut Inner,
    data: &[u8],
    now: u64,
    ts_ms: u64,
    logged: u64,
    fresh_id: Uuid,
    outs: &mut Vec<Outbound>,
) -> (r: bool)
    requires
        old(inner)@.wf(),
        push_ready(old(inner)@, data@),
    ensures
        r == is_push(data@),
        final(inner)@ == push_step(old(inner)@, data@, now, ts_ms, logged, fresh_id).0,
        views(final(outs)@) == views(old(outs)@) + push_step(
            old(inner)@,
            data@,
            now,
            ts_ms,
            logged,
            fresh_id,
        ).1,
        final(inner)@.wf(),
{
    broadcast use crate::views::group_views;

    assert(views(outs@) + Seq::<OutboundModel>::empty() =~= views(outs@));
    if data.len() < 17 || data[0] != OP_PUSH {
        return false;
    }
    let mut pos: usize = 1;
    let Some(sender_id) = read_uuid(data, &mut pos) else {
        return false;
    };
    let payload = &data[17..data.len()];
    let owner: Option<AppOwner> = match inner.app_owners.get(&sender_id) {
        Some(o) => Some(o.clone()),
        None => None,
    };
    let sender = match &owner {
        Some(o) => o.label.clone(),
        None => join3("app#", hex(sender_id.as_slice()).as_str(), " (unresolved)"),
    };
    let (kind, detail) = match decode_envelope(payload) {
        Some(env) => {
            let detail = handle_frame_at(
                inner,
                &env,
                sender_id,
                owner.as_ref(),
                now,
                ts_ms,
                fresh_id,
                outs,
            );
            (kind_text(env.msg_type), detail)
        },
        None => (
            "BAD_FRAME".to_owned(),
            join3("undecodable payload (", decimal(payload.len() as u64).as_str(), " byte(s))"),
        ),
    };
    inner.log.push(LogEntry { sender, kind, detail, timestamp: logged });
    assert(inner@ =~= push_step(old(inner)@, data@, now, ts_ms, logged, fresh_id).0);
    true
}

/// Take a push now.
pub fn handle_push(
    inner: &mut Inner,
    data: &[u8],
    fresh_id: Uuid,
    outs: &mut Vec<Outbound>,
) -> (r: bool)
    requires
        old(inner)@.wf(),
        push_ready(old(inner)@, data@),
    ensures
        r == is_push(data@),
        exists|now: u64, ts_ms: u64, logged: u64|
            {
                let step = #[trigger] push_step(
                    old(inner)@,
                    data@,
                    now,
                    ts_ms,
                    logged,
                    fresh_id,
                );
                final(inner)@ == step.0 && views(final(outs)@) == views(old(outs)@) + step.1
            },
        final(inner)@.wf(),
{
    let now: u64 = now_secs();
    let ts_ms: u64 = now_ms();
    let logged: u64 = now_secs();
    handle_push_at(inner, data, now, ts_ms, logged, fresh_id, outs)
}

} // verus!
