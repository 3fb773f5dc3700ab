//! What becomes of a payload that the daemon hands over: whom it is taken to come
//! from, which rule it falls under, and what is logged of it.

use crate::api::{post_ready, Outcome};
use crate::bytes::{lemma_uuid_of_view, text_bytes, uuid_of, zero_id, Uuid};
use crate::codec::{envelope_bytes, post_bytes, EnvelopeModel};
use crate::frame::{attach_ack_step, attach_step, client_index, frame_step, push_ready, push_step};
use crate::frame::with_client;
use crate::laws::changes::nothing_done;
use crate::messages::{ack_step, hello_step, history_req_step, history_resp_step, hosts_member};
use crate::messages::{msg_step, post_step};
use crate::msg;
use crate::rooms::{add_member_step, answered, invite_step, leave_step, member_update_step};
use crate::rooms::{open_room_step, remove_member_step, took, Step};
use crate::round_trip::{dev_text_round_trip, envelope_round_trip, fits_text};
use crate::round_trip::{foreign_payload_is_dropped, post_round_trip};
use crate::state::{fresh_node, reach, AppOwnerModel, AttachedClientModel, NodeModel, Outbound};
use crate::state::Role;
use crate::text::{dec, hex_chars, hex_round_trip, is_blank};
use crate::views::views;
use vstd::prelude::*;

verus! {

// ── Clients of a User Agent ──────────────────────────────────────────────────

/// Whether the `i`-th client is the first with an app's identifier.
pub open spec fn is_first_client(clients: Seq<AttachedClientModel>, app: Uuid, i: int) -> bool {
    &&& 0 <= i < clients.len()
    &&& clients[i].app_id_hex == hex_chars(app@)
    &&& forall|j: int| 0 <= j < i ==> (#[trigger] clients[j]).app_id_hex != hex_chars(app@)
}

proof fn lemma_client_index(clients: Seq<AttachedClientModel>, app: Uuid)
    ensures
        ({
            let i = client_index(clients, hex_chars(app@));
            &&& 0 <= i <= clients.len()
            &&& i < clients.len() ==> is_first_client(clients, app, i)
            &&& i == clients.len() ==> forall|j: int|
                0 <= j < clients.len() ==> (#[trigger] clients[j]).app_id_hex != hex_chars(app@)
        }),
    decreases clients.len(),
{
    if clients.len() > 0 {
        let front = clients.drop_last();
        lemma_client_index(front, app);
        assert forall|j: int| 0 <= j < front.len() implies front[j] == #[trigger] clients[j] by {}
    }
}

/// A client that attaches again is seen again, and nothing else of it or of any
/// other client changes; one that was not attached is listed last, under its own
/// device, app and label.
pub proof fn attached_clients_are_exact(
    clients: Seq<AttachedClientModel>,
    owner: AppOwnerModel,
    app: Uuid,
    now: u64,
    i: int,
)
    ensures
        is_first_client(clients, app, i) ==> with_client(clients, owner, app, now)
            == clients.update(i, AttachedClientModel { last_seen: now, ..clients[i] }),
        (forall|j: int|
            0 <= j < clients.len() ==> (#[trigger] clients[j]).app_id_hex != hex_chars(app@))
            ==> with_client(clients, owner, app, now) == clients + seq![
            AttachedClientModel {
                device_uuid_hex: hex_chars(owner.device_uuid@),
                app_id_hex: hex_chars(app@),
                label: owner.label,
                last_seen: now,
            },
        ],
{
    lemma_client_index(clients, app);
    let k = client_index(clients, hex_chars(app@));
    if is_first_client(clients, app, i) {
        assert(clients[i].app_id_hex == hex_chars(app@));
        if k < clients.len() {
            if k < i {
                assert(clients[k].app_id_hex != hex_chars(app@));
            }
            if i < k {
                assert(clients[i].app_id_hex != hex_chars(app@));
            }
        }
    }
}

/// The acting User Agent answers the attach of an app of our own user, to that app
/// on its own device, and lists it; it does nothing on any other attach, nor does
/// anyone else.
pub proof fn attaching_is_exact(
    n: NodeModel,
    app: Uuid,
    owner: Option<AppOwnerModel>,
    now: u64,
)
    ensures
        ({
            let step = attach_step(n, app, owner, now);
            if n.role == Role::UserAgent && owner is Some && owner->0.own_user {
                &&& step.node == (NodeModel {
                    attached_clients: with_client(n.attached_clients, owner->0, app, now),
                    ..n
                })
                &&& step.sent.len() == 1
                &&& step.sent[0].dest_device == owner->0.device_uuid
                &&& step.sent[0].dest_app == app
                &&& step.sent[0].msg_type == msg::CLIENT_ATTACH_ACK
                &&& step.sent[0].room_id == zero_id()
                &&& step.sent[0].body.len() == 0
            } else {
                nothing_done(n, step.node, step.sent)
            }
        }),
{
}

/// A guest notes when its attach was acknowledged, and nothing else.
pub proof fn acknowledged_attach_is_noted(n: NodeModel, now: u64)
    ensures
        ({
            let step = attach_ack_step(n, now);
            &&& step.sent.len() == 0
            &&& step.node.attach.last_sent == n.attach.last_sent
            &&& step.node.attach.last_ack == if n.role == Role::DataGuest {
                Some(now)
            } else {
                n.attach.last_ack
            }
            &&& step.node == (NodeModel { attach: step.node.attach, ..n })
        }),
{
}

// ── Frames ───────────────────────────────────────────────────────────────────

/// Each kind of frame falls under the rule for that kind, with the sender's owner
/// as it was looked up; a text is only logged, and the other kinds do nothing.
pub proof fn frames_go_by_their_kind(
    n: NodeModel,
    env: EnvelopeModel,
    sender: Uuid,
    owner: Option<AppOwnerModel>,
    now: u64,
    ts_ms: u64,
    fresh: Uuid,
)
    ensures
        ({
            let step = frame_step(n, env, sender, owner, now, ts_ms, fresh);
            &&& env.msg_type == 0x01 ==> step == open_room_step(n, env, sender, owner, fresh)
            &&& env.msg_type == 0x03 ==> step == invite_step(n, env, owner, now)
            &&& env.msg_type == 0x04 ==> step == hello_step(n, env, owner)
            &&& env.msg_type == 0x06 ==> step == add_member_step(n, env, owner)
            &&& env.msg_type == 0x07 ==> step == remove_member_step(n, env, owner)
            &&& env.msg_type == 0x08 ==> step == leave_step(n, env, owner)
            &&& env.msg_type == 0x09 ==> step == member_update_step(n, env, owner)
            &&& env.msg_type == 0x0A ==> step == post_step(n, env, owner, ts_ms)
            &&& env.msg_type == 0x0B ==> step == msg_step(n, env, owner)
            &&& env.msg_type == 0x0C ==> step == ack_step(n, env, owner)
            &&& env.msg_type == 0x0D ==> step == history_req_step(n, env, owner)
            &&& env.msg_type == 0x0E ==> step == history_resp_step(n, env, owner)
            &&& env.msg_type == 0x10 ==> step == attach_step(n, sender, owner, now)
            &&& env.msg_type == 0x11 ==> step == attach_ack_step(n, now)
            &&& !(0x01 <= env.msg_type <= 0x11) || env.msg_type == 0x02 || env.msg_type == 0x05
                || env.msg_type == 0x0F ==> nothing_done(n, step.node, step.sent)
        }),
{
}

/// A text frame is logged word for word.
pub proof fn texts_are_logged_as_sent(
    n: NodeModel,
    text: Seq<char>,
    tail: Seq<u8>,
    room_id: Uuid,
    sender: Uuid,
    owner: Option<AppOwnerModel>,
    now: u64,
    ts_ms: u64,
    fresh: Uuid,
)
    requires
        fits_text(text),
    ensures
        ({
            let env = EnvelopeModel { msg_type: 0xF0, room_id, body: text_bytes(text) + tail };
            let step = frame_step(n, env, sender, owner, now, ts_ms, fresh);
            nothing_done(n, step.node, step.sent) && step.detail == text
        }),
{
    dev_text_round_trip(text, tail);
}

// ── Pushes ───────────────────────────────────────────────────────────────────

/// A push: its operation, the sending app, and a payload.
pub open spec fn push_from(sender: Uuid, payload: Seq<u8>) -> Seq<u8> {
    seq![0x04u8] + sender@ + payload
}

/// How the log names a sender: by the label of the app's owner, or by the app.
pub open spec fn logged_sender(n: NodeModel, sender: Uuid) -> Seq<char> {
    if n.app_owners.contains_key(sender) {
        n.app_owners[sender].label
    } else {
        "app#"@ + hex_chars(sender@) + " (unresolved)"@
    }
}

/// A pushed frame is taken as coming from the app that the daemon names, and that
/// app as belonging to whom the directory lists it under. It falls under the rule
/// for its kind, whose frames go out; and one line is logged, with the sender, the
/// kind, what came of it, and the time.
pub proof fn pushed_frame_is_taken(
    n: NodeModel,
    sender: Uuid,
    msg_type: u8,
    room_id: Uuid,
    body: Seq<u8>,
    now: u64,
    ts_ms: u64,
    logged: u64,
    fresh: Uuid,
)
    ensures
        ({
            let payload = envelope_bytes(msg_type, room_id, body);
            let owner = if n.app_owners.contains_key(sender) {
                Some(n.app_owners[sender])
            } else {
                None
            };
            let env = EnvelopeModel { msg_type, room_id, body };
            let step = frame_step(n, env, sender, owner, now, ts_ms, fresh);
            let (after, sent) = push_step(
                n,
                push_from(sender, payload),
                now,
                ts_ms,
                logged,
                fresh,
            );
            &&& sent == step.sent
            &&& after.log.len() == step.node.log.len() + 1
            &&& after.log.drop_last() == step.node.log
            &&& after.log.last().sender == logged_sender(n, sender)
            &&& after.log.last().detail == step.detail
            &&& after.log.last().timestamp == logged
            &&& msg::is_known(msg_type) ==> after.log.last().kind == msg::name_of(msg_type)
            &&& !msg::is_known(msg_type) ==> after.log.last().kind == "UNKNOWN(0x"@ + hex_chars(
                seq![msg_type],
            ) + ")"@
            &&& after == (NodeModel { log: after.log, ..step.node })
        }),
{
    let payload = envelope_bytes(msg_type, room_id, body);
    let data = push_from(sender, payload);
    let (after, sent) = push_step(n, data, now, ts_ms, logged, fresh);
    envelope_round_trip(msg_type, room_id, body);
    lemma_uuid_of_view(sender);
    assert(data.subrange(1, 17) =~= sender@);
    assert(data.subrange(17, data.len() as int) =~= payload);
    assert(after.log.drop_last() =~= after.log.take(after.log.len() - 1));
    assert(after.log.drop_last() =~= frame_step(
        n,
        EnvelopeModel { msg_type, room_id, body },
        sender,
        if n.app_owners.contains_key(sender) {
            Some(n.app_owners[sender])
        } else {
            None
        },
        now,
        ts_ms,
        fresh,
    ).node.log);
}

/// A push whose payload is no frame changes nothing but the log, which says so; a
/// packet that is no push changes nothing at all.
pub proof fn other_packets_are_powerless(
    n: NodeModel,
    data: Seq<u8>,
    now: u64,
    ts_ms: u64,
    logged: u64,
    fresh: Uuid,
)
    ensures
        ({
            let (after, sent) = push_step(n, data, now, ts_ms, logged, fresh);
            &&& data.len() < 17 || data[0] != 0x04 ==> after == n && sent.len() == 0
            &&& data.len() >= 17 && data[0] == 0x04 && (data.len() < 35 || data[17] != 1) ==> {
                &&& sent.len() == 0
                &&& after == (NodeModel { log: after.log, ..n })
                &&& after.log.len() == n.log.len() + 1
                &&& after.log.drop_last() == n.log
                &&& after.log.last().kind == "BAD_FRAME"@
                &&& after.log.last().sender == logged_sender(n, uuid_of(data.subrange(1, 17)))
                &&& after.log.last().detail == "undecodable payload ("@ + dec(
                    (data.len() - 17) as nat,
                ) + " byte(s))"@
                &&& after.log.last().timestamp == logged
            }
        }),
{
    if data.len() >= 17 {
        let payload = data.subrange(17, data.len() as int);
        if data.len() < 35 || data[17] != 1 {
            foreign_payload_is_dropped(payload);
            let (after, sent) = push_step(n, data, now, ts_ms, logged, fresh);
            assert(after.log.drop_last() =~= if data[0] == 0x04 {
                n.log
            } else {
                n.log.drop_last()
            });
        }
    }
}

// ── Room for numbers ─────────────────────────────────────────────────────────

/// A push is held back, and a post of the local user, only where a room that this
/// node hosts has handed out every number.
pub proof fn only_spent_numbers_hold_back(
    n: NodeModel,
    data: Seq<u8>,
    room_hex: Seq<char>,
    text: Seq<char>,
)
    requires
        forall|id: Uuid|
            n.rooms.contains_key(id) && n.rooms[id].is_rh ==> (#[trigger] n.rooms[id]).next_seq
                < u64::MAX,
    ensures
        push_ready(n, data),
        post_ready(n, room_hex, text),
{
}

/// Where every number is handed out, a post to be ordered is held back.
pub proof fn spent_numbers_hold_back(
    n: NodeModel,
    o: AppOwnerModel,
    sender: Uuid,
    id: Uuid,
    cid: Uuid,
    text: Seq<char>,
)
    requires
        fits_text(text),
        n.app_owners.contains_key(sender),
        n.app_owners[sender] == o,
        hosts_member(n, id, o.user_uuid),
        n.rooms[id].next_seq == u64::MAX,
    ensures
        !push_ready(n, push_from(sender, envelope_bytes(0x0A, id, post_bytes(cid, text)))),
        !is_blank(text) ==> !post_ready(n, hex_chars(id@), text),
{
    let payload = envelope_bytes(0x0A, id, post_bytes(cid, text));
    let data = push_from(sender, payload);
    envelope_round_trip(0x0A, id, post_bytes(cid, text));
    post_round_trip(cid, text, Seq::empty());
    assert(post_bytes(cid, text) + Seq::<u8>::empty() =~= post_bytes(cid, text));
    lemma_uuid_of_view(sender);
    assert(data.subrange(1, 17) =~= sender@);
    assert(data.subrange(17, data.len() as int) =~= payload);
    hex_round_trip(id);
}

// ── Names of kinds ───────────────────────────────────────────────────────────

/// Each kind of the protocol goes by its own name.
pub proof fn kinds_go_by_their_names(t: u8)
    ensures
        msg::name_of(msg::OPEN_ROOM) == "OPEN_ROOM"@,
        msg::name_of(msg::ROOM_CREATED) == "ROOM_CREATED"@,
        msg::name_of(msg::INVITE) == "INVITE"@,
        msg::name_of(msg::HELLO) == "HELLO"@,
        msg::name_of(msg::ADD_MEMBER) == "ADD_MEMBER"@,
        msg::name_of(msg::REMOVE_MEMBER) == "REMOVE_MEMBER"@,
        msg::name_of(msg::LEAVE) == "LEAVE"@,
        msg::name_of(msg::MEMBER_UPDATE) == "MEMBER_UPDATE"@,
        msg::name_of(msg::POST) == "POST"@,
        msg::name_of(msg::MSG) == "MSG"@,
        msg::name_of(msg::ACK) == "ACK"@,
        msg::name_of(msg::HISTORY_REQ) == "HISTORY_REQ"@,
        msg::name_of(msg::HISTORY_RESP) == "HISTORY_RESP"@,
        msg::name_of(msg::HOST_MOVED) == "HOST_MOVED"@,
        msg::name_of(msg::CLIENT_ATTACH) == "CLIENT_ATTACH"@,
        msg::name_of(msg::CLIENT_ATTACH_ACK) == "CLIENT_ATTACH_ACK"@,
        msg::name_of(msg::MEDIA_JOIN) == "MEDIA_JOIN"@,
        msg::name_of(msg::MEDIA_LEAVE) == "MEDIA_LEAVE"@,
        msg::name_of(msg::MEDIA_FRAME) == "MEDIA_FRAME"@,
        msg::name_of(msg::BLOB_OFFER) == "BLOB_OFFER"@,
        msg::name_of(msg::BLOB_CHUNK) == "BLOB_CHUNK"@,
        msg::name_of(msg::BLOB_ACK) == "BLOB_ACK"@,
        msg::name_of(msg::BLOB_NACK) == "BLOB_NACK"@,
        msg::name_of(msg::DEV_TEXT) == "DEV_TEXT"@,
        !msg::is_known(t) ==> msg::name_of(t) == "UNKNOWN"@,
{
}

// ── Handlers and steps ───────────────────────────────────────────────────────

/// A handler that took a step left the node as the step says, and put exactly the
/// step's frames behind those that were waiting.
pub proof fn steps_are_taken_in_full(
    step: Step,
    node: NodeModel,
    detail: Seq<char>,
    before: Seq<Outbound>,
    after: Seq<Outbound>,
    i: int,
)
    requires
        took(step, node, detail, before, after),
    ensures
        node == step.node,
        detail == step.detail,
        after.len() == before.len() + step.sent.len(),
        0 <= i < before.len() ==> after[i]@ == before[i]@,
        0 <= i < step.sent.len() ==> after[before.len() + i]@ == step.sent[i],
{
    let a = views(after);
    let b = views(before);
    assert(a.len() == b.len() + step.sent.len());
    if 0 <= i < before.len() {
        assert(a[i] == b[i]);
    }
    if 0 <= i < step.sent.len() {
        assert(a[before.len() + i] == step.sent[i]);
    }
}

/// A request that was granted left the node as the outcome says, and put exactly
/// the outcome's frames behind those that were waiting; one that was refused left
/// everything as it was.
pub proof fn requests_are_answered_in_full(
    outcome: Outcome,
    r: Result<String, String>,
    was: NodeModel,
    is: NodeModel,
    before: Seq<Outbound>,
    after: Seq<Outbound>,
    i: int,
)
    requires
        answered(outcome, r, was, is, before, after),
    ensures
        outcome is Ok <==> r is Ok,
        outcome matches Ok((node, sent, note)) ==> {
            &&& is == node
            &&& (r->Ok_0)@ == note
            &&& after.len() == before.len() + sent.len()
            &&& 0 <= i < before.len() ==> after[i]@ == before[i]@
            &&& 0 <= i < sent.len() ==> after[before.len() + i]@ == sent[i]
        },
        outcome matches Err(note) ==> {
            &&& is == was
            &&& (r->Err_0)@ == note
            &&& after.len() == before.len()
            &&& 0 <= i < before.len() ==> after[i]@ == before[i]@
        },
{
    let a = views(after);
    let b = views(before);
    assert(a.len() == after.len() && b.len() == before.len());
    if 0 <= i < before.len() {
        assert(b[i] == before[i]@);
        if i < after.len() {
            assert(a[i] == after[i]@);
        }
    }
    if let Ok((node, sent, note)) = outcome {
        if 0 <= i < sent.len() {
            assert(a[before.len() + i] == sent[i]);
        }
    }
}

// ── A node to start with ─────────────────────────────────────────────────────

/// A new node holds its token, has no role and no rooms, can reach nobody, and
/// takes every sender for unknown.
pub proof fn new_nodes_know_nothing(token: Option<Uuid>, u: Uuid)
    ensures
        ({
            let n = fresh_node(token);
            &&& n.wf()
            &&& n.token == token
            &&& n.role == Role::Unknown
            &&& n.app_info is None && n.ua is None && n.last_fetch_ok is None
            &&& n.own_user_uuid is None && n.local_device is None && n.local_app_id is None
            &&& n.attach.last_sent is None && n.attach.last_ack is None
            &&& !n.rooms.contains_key(u)
            &&& !n.app_owners.contains_key(u)
            &&& !n.directory.contains_key(u)
            &&& reach(n.directory, u) is None
            &&& n.destinations.len() == 0
            &&& n.attached_clients.len() == 0
            &&& n.log.len() == 0
        }),
{
}

} // verus!
