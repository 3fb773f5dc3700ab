//! What becomes of a message: who numbers it, who keeps it, as what, and who
//! gets it.

use crate::bytes::{be_bytes, zero_id, Uuid};
use crate::codec::{ack_of, hello_of, history_req_bytes, history_req_of, history_resp_of};
use crate::codec::{msg_bytes, msg_of, post_of, Cursor, DecodedMsgModel, EnvelopeModel};
use crate::laws::changes::{fan_out_is_one_frame_each, first_alias, nothing_done, one_frame_each};
use crate::laws::changes::{only_room_changed, reached};
use crate::messages::{ack_frame, ack_step, acked, after, applied, contiguous, entries_applied};
use crate::messages::{greeted, greetings, hello_step, history_resp_step, host_frame};
use crate::messages::{hosts_member, is_new, kept_msg, lemma_applied_wf, lemma_with_msg, msg_step};
use crate::messages::{ordering, post_step, replay, replay_frames, resent, sender_alias, seq_left};
use crate::messages::slot;
use crate::msg;
use crate::rooms::{is_member, lemma_member_index, member_index};
use crate::round_trip::{ack_round_trip, fits_text, history_req_round_trip, msg_round_trip};
use crate::state::{ascending, has_seq, reach, AppOwnerModel, ChatMsgModel, MemberModel};
use crate::state::{NodeModel, OutboundModel, RoomModel, UserDirModel};
use crate::text::{hex_chars, hex_round_trip, uuid_of_hex};
use vstd::prelude::*;

verus! {

// ── Keeping a message ────────────────────────────────────────────────────────

/// Whether a kept message is the one that was sent.
pub open spec fn kept_as(
    m: ChatMsgModel,
    seq: u64,
    sender: Uuid,
    ts_ms: u64,
    text: Seq<char>,
) -> bool {
    &&& m.seq == seq
    &&& m.sender_user_hex == hex_chars(sender@)
    &&& m.ts_ms == ts_ms
    &&& m.text == text
}

/// Whether a node calls a user by an alias in a room: the one under which the
/// room lists them, else the directory's, else a stand-in.
pub open spec fn called(n: NodeModel, id: Uuid, user: Uuid, alias: Seq<char>) -> bool {
    if n.rooms.contains_key(id) && is_member(n.rooms[id].members, user) {
        first_alias(n.rooms[id].members, user, alias)
    } else if n.directory.contains_key(user) {
        alias == n.directory[user].alias
    } else if n.own_user_uuid == Some(user) {
        alias == "me"@
    } else {
        alias == "user#"@ + hex_chars(user@).subrange(0, 8)
    }
}

/// Senders are called by the room's alias for them, else by the directory's.
pub proof fn senders_are_called_by_name(n: NodeModel, id: Uuid, user: Uuid)
    ensures
        called(n, id, user, sender_alias(n, id, user)),
{
    if n.rooms.contains_key(id) && is_member(n.rooms[id].members, user) {
        let members = n.rooms[id].members;
        lemma_member_index(members, user);
        assert(members[member_index(members, user)].alias == sender_alias(n, id, user));
    } else {
        assert(hex_chars(user@).take(8) =~= hex_chars(user@).subrange(0, 8));
    }
}

/// Whether `a`, offered a message for a room, has become `b`: a room that lacks
/// the number gains exactly this message, in its place; anything else changes
/// nothing.
pub open spec fn takes_in(
    a: NodeModel,
    b: NodeModel,
    id: Uuid,
    seq: u64,
    sender: Uuid,
    ts_ms: u64,
    text: Seq<char>,
) -> bool {
    let room = a.rooms[id];
    if a.rooms.contains_key(id) && !has_seq(room.messages, seq) {
        &&& only_room_changed(a, b, id)
        &&& ascending(b.rooms[id].messages)
        &&& exists|k: int, m: ChatMsgModel|
            0 <= k <= room.messages.len() && kept_as(m, seq, sender, ts_ms, text) && called(
                a,
                id,
                sender,
                m.sender_alias,
            ) && m.sender_is_self == (a.own_user_uuid == Some(sender)) && b.rooms[id] == (
            RoomModel {
                messages: #[trigger] room.messages.insert(k, m),
                last_seq: if seq > room.last_seq {
                    seq
                } else {
                    room.last_seq
                },
                ..room
            })
    } else {
        b == a
    }
}

/// Applying a message takes in exactly that message.
pub proof fn applying_is_exact(
    n: NodeModel,
    id: Uuid,
    seq: u64,
    sender: Uuid,
    ts_ms: u64,
    text: Seq<char>,
)
    requires
        n.wf(),
    ensures
        takes_in(n, applied(n, id, seq, sender, ts_ms, text), id, seq, sender, ts_ms, text),
{
    if is_new(n, id, seq) {
        let room = n.rooms[id];
        let m = kept_msg(n, id, seq, sender, ts_ms, text);
        let k = slot(room.messages, seq);
        lemma_with_msg(room.messages, m);
        lemma_slot_within(room.messages, seq);
        senders_are_called_by_name(n, id, sender);
        let after = applied(n, id, seq, sender, ts_ms, text);
        assert(after.rooms[id].messages == room.messages.insert(k, m));
        assert(kept_as(m, seq, sender, ts_ms, text));
        assert(only_room_changed(n, after, id));
    }
}

proof fn lemma_slot_within(ms: Seq<ChatMsgModel>, seq: u64)
    ensures
        0 <= slot(ms, seq) <= ms.len(),
    decreases ms.len(),
{
    if ms.len() > 0 {
        lemma_slot_within(ms.drop_last(), seq);
    }
}

/// What a node has taken in is there, and so is everything that was.
proof fn lemma_takes_in(
    a: NodeModel,
    b: NodeModel,
    id: Uuid,
    seq: u64,
    sender: Uuid,
    ts_ms: u64,
    text: Seq<char>,
)
    requires
        takes_in(a, b, id, seq, sender, ts_ms, text),
        a.rooms.contains_key(id),
    ensures
        b.rooms.contains_key(id),
        forall|i: int|
            0 <= i < a.rooms[id].messages.len() ==> b.rooms[id].messages.contains(
                #[trigger] a.rooms[id].messages[i],
            ),
        !has_seq(a.rooms[id].messages, seq) ==> exists|j: int|
            0 <= j < b.rooms[id].messages.len() && kept_as(
                #[trigger] b.rooms[id].messages[j],
                seq,
                sender,
                ts_ms,
                text,
            ),
        forall|j: int|
            0 <= j < b.rooms[id].messages.len() ==> a.rooms[id].messages.contains(
                #[trigger] b.rooms[id].messages[j],
            ) || kept_as(b.rooms[id].messages[j], seq, sender, ts_ms, text),
        forall|s: u64| #[trigger]
            has_seq(b.rooms[id].messages, s) <==> s == seq || has_seq(a.rooms[id].messages, s),
{
    let ms = a.rooms[id].messages;
    let out = b.rooms[id].messages;
    if !has_seq(ms, seq) {
        let (k, m) = choose|k: int, m: ChatMsgModel|
            0 <= k <= ms.len() && kept_as(m, seq, sender, ts_ms, text) && called(
                a,
                id,
                sender,
                m.sender_alias,
            ) && m.sender_is_self == (a.own_user_uuid == Some(sender)) && b.rooms[id] == (
            RoomModel {
                messages: #[trigger] ms.insert(k, m),
                last_seq: if seq > a.rooms[id].last_seq {
                    seq
                } else {
                    a.rooms[id].last_seq
                },
                ..a.rooms[id]
            });
        assert(out == ms.insert(k, m));
        assert(out[k] == m);
        assert forall|i: int| 0 <= i < ms.len() implies out.contains(#[trigger] ms[i]) by {
            if i < k {
                assert(out[i] == ms[i]);
            } else {
                assert(out[i + 1] == ms[i]);
            }
        }
        assert forall|j: int| 0 <= j < out.len() implies ms.contains(#[trigger] out[j]) || kept_as(
            out[j],
            seq,
            sender,
            ts_ms,
            text,
        ) by {
            if j < k {
                assert(ms[j] == out[j]);
            } else if j > k {
                assert(ms[j - 1] == out[j]);
            }
        }
    } else {
        assert forall|i: int| 0 <= i < ms.len() implies out.contains(#[trigger] ms[i]) by {
            assert(out[i] == ms[i]);
        }
        assert forall|j: int| 0 <= j < out.len() implies ms.contains(#[trigger] out[j]) by {
            assert(ms[j] == out[j]);
        }
    }
    assert forall|s: u64| #[trigger]
        has_seq(out, s) <==> s == seq || has_seq(ms, s) by {
        if has_seq(out, s) {
            let j = choose|j: int| 0 <= j < out.len() && (#[trigger] out[j]).seq == s;
            if ms.contains(out[j]) {
                let i = choose|i: int| 0 <= i < ms.len() && ms[i] == out[j];
                assert(ms[i].seq == s);
            }
        }
        if has_seq(ms, s) {
            let i = choose|i: int| 0 <= i < ms.len() && (#[trigger] ms[i]).seq == s;
            assert(out.contains(ms[i]));
            let j = choose|j: int| 0 <= j < out.len() && out[j] == ms[i];
            assert(out[j].seq == s);
        }
        if s == seq && !has_seq(ms, seq) {
            let j = choose|j: int|
                0 <= j < out.len() && kept_as(#[trigger] out[j], seq, sender, ts_ms, text);
            assert(out[j].seq == s);
        }
    }
}

// ── Ordering ─────────────────────────────────────────────────────────────────

/// Whether frames bring one message to all of `members` who can be reached, and
/// do nothing else.
pub open spec fn delivers(
    sent: Seq<OutboundModel>,
    directory: Map<Uuid, UserDirModel>,
    members: Seq<MemberModel>,
    id: Uuid,
    m: DecodedMsgModel,
) -> bool {
    exists|body: Seq<u8>|
        sent == #[trigger] one_frame_each(directory, members, msg::MSG, id, body) && (fits_text(
            m.text,
        ) ==> msg_of(body) == Some(m))
}

/// A host orders a message under its next number: it takes it in as the sender's,
/// moves on to the number after, changes nothing else, and sends it to every
/// member who can be reached. Only the host of a room orders in it.
pub proof fn ordering_is_exact(
    n: NodeModel,
    id: Uuid,
    sender: Uuid,
    cid: Uuid,
    text: Seq<char>,
    ts_ms: u64,
)
    requires
        n.wf(),
        seq_left(n, id),
    ensures
        match ordering(n, id, sender, cid, text, ts_ms) {
            Err(_) => !(n.rooms.contains_key(id) && n.rooms[id].is_rh),
            Ok((after, sent, seq)) => {
                &&& n.rooms.contains_key(id) && n.rooms[id].is_rh
                &&& seq == n.rooms[id].next_seq
                &&& exists|kept: NodeModel| #[trigger]
                    takes_in(n, kept, id, seq, sender, ts_ms, text) && only_room_changed(
                        kept,
                        after,
                        id,
                    ) && after.rooms[id] == (RoomModel {
                        next_seq: (seq + 1) as u64,
                        ..kept.rooms[id]
                    })
                &&& delivers(
                    sent,
                    n.directory,
                    n.rooms[id].members,
                    id,
                    DecodedMsgModel { seq, sender_user: sender, ts_ms, client_msg_id: cid, text },
                )
            },
        },
{
    if let Ok((after, sent, seq)) = ordering(n, id, sender, cid, text, ts_ms) {
        applying_is_exact(n, id, seq, sender, ts_ms, text);
        let kept = applied(n, id, seq, sender, ts_ms, text);
        assert(takes_in(n, kept, id, seq, sender, ts_ms, text));
        assert(only_room_changed(kept, after, id));
        let m = DecodedMsgModel { seq, sender_user: sender, ts_ms, client_msg_id: cid, text };
        let body = msg_bytes(m);
        fan_out_is_one_frame_each(n.directory, n.rooms[id].members, msg::MSG, id, body);
        if fits_text(text) {
            msg_round_trip(m, Seq::empty());
            assert(body + Seq::<u8>::empty() =~= body);
        }
        assert(sent == one_frame_each(n.directory, n.rooms[id].members, msg::MSG, id, body));
    }
}

/// When a host orders a message, every member whose User Agent can be resolved
/// is sent it there, and what is sent decodes to the number, the poster, the
/// time and the text.
pub proof fn ordered_message_reaches_every_member(
    n: NodeModel,
    id: Uuid,
    sender: Uuid,
    cid: Uuid,
    text: Seq<char>,
    ts_ms: u64,
    i: int,
)
    requires
        n.wf(),
        seq_left(n, id),
        fits_text(text),
        n.rooms.contains_key(id),
        n.rooms[id].is_rh,
        0 <= i < n.rooms[id].members.len(),
        reach(n.directory, n.rooms[id].members[i].user_uuid) is Some,
    ensures
        ordering(n, id, sender, cid, text, ts_ms) matches Ok((_, sent, seq)) && exists|k: int|
            {
                &&& 0 <= k < sent.len()
                &&& (#[trigger] sent[k]).msg_type == msg::MSG
                &&& sent[k].room_id == id
                &&& reach(n.directory, n.rooms[id].members[i].user_uuid) == Some(
                    (sent[k].dest_device, sent[k].dest_app),
                )
                &&& msg_of(sent[k].body) == Some(
                    DecodedMsgModel { seq, sender_user: sender, ts_ms, client_msg_id: cid, text },
                )
            },
{
    ordering_is_exact(n, id, sender, cid, text, ts_ms);
    let (after, sent, seq) = ordering(n, id, sender, cid, text, ts_ms)->Ok_0;
    let members = n.rooms[id].members;
    let m = DecodedMsgModel { seq, sender_user: sender, ts_ms, client_msg_id: cid, text };
    let body = choose|body: Seq<u8>|
        sent == #[trigger] one_frame_each(n.directory, members, msg::MSG, id, body) && (fits_text(
            m.text,
        ) ==> msg_of(body) == Some(m));
    let kept = members.filter(reached(n.directory));
    members.lemma_filter_contains(reached(n.directory), i);
    assert(kept.contains(members[i]));
    let k = choose|k: int| 0 <= k < kept.len() && kept[k] == members[i];
    assert(sent[k].msg_type == msg::MSG);
}

/// `POST` from a member or from our own user, to a room that this node hosts, is
/// ordered in the poster's name with the poster's text; any other does nothing.
pub proof fn posts_are_judged(n: NodeModel, env: EnvelopeModel, o: AppOwnerModel, ts_ms: u64)
    ensures
        ({
            let step = post_step(n, env, Some(o), ts_ms);
            let id = env.room_id;
            if post_of(env.body) is Some && n.rooms.contains_key(id) && n.rooms[id].is_rh
                && (is_member(n.rooms[id].members, o.user_uuid) || o.own_user) {
                let (cid, text) = post_of(env.body)->0;
                ordering(n, id, o.user_uuid, cid, text, ts_ms) matches Ok((after, sent, _))
                    && step.node == after && step.sent == sent
            } else {
                nothing_done(n, step.node, step.sent)
            }
        }),
{
}

// ── Receiving ────────────────────────────────────────────────────────────────

/// Whether a frame goes from a member to its room's host.
pub open spec fn to_host(o: OutboundModel, n: NodeModel, id: Uuid, msg_type: u8) -> bool {
    &&& o.dest_device == n.rooms[id].rh_device
    &&& o.dest_app == n.rooms[id].rh_app_id
    &&& o.msg_type == msg_type
    &&& o.room_id == id
}

/// Whether a member's answer ends in the acknowledgement of its cursor, behind a
/// request for everything after `ask`, if there is one to make. A host answers
/// itself nothing.
pub open spec fn answers_host(
    sent: Seq<OutboundModel>,
    after: NodeModel,
    id: Uuid,
    ask: Option<u64>,
) -> bool {
    if after.rooms[id].is_rh {
        sent.len() == 0
    } else {
        &&& sent.len() == if ask is Some {
            2int
        } else {
            1
        }
        &&& to_host(sent.last(), after, id, msg::ACK)
        &&& ack_of(sent.last().body) == Some(contiguous(after.rooms[id].messages))
        &&& ask matches Some(since) ==> to_host(sent[0], after, id, msg::HISTORY_REQ)
            && history_req_of(sent[0].body) == Some((since, 0u16))
    }
}

proof fn lemma_answers(n: NodeModel, id: Uuid, since: u64)
    ensures
        n.rooms.contains_key(id) ==> answers_host(
            ack_frame(n, id),
            n,
            id,
            None,
        ),
        n.rooms.contains_key(id) ==> answers_host(
            host_frame(
                n,
                id,
                msg::HISTORY_REQ,
                history_req_bytes(since, 0),
            ) + ack_frame(n, id),
            n,
            id,
            Some(since),
        ),
{
    let cursor = contiguous(n.rooms[id].messages);
    let a = be_bytes(cursor as nat, 8);
    ack_round_trip(cursor, Seq::empty());
    assert(a + Seq::<u8>::empty() =~= a);
    let q = history_req_bytes(since, 0);
    history_req_round_trip(since, 0, Seq::empty());
    assert(q + Seq::<u8>::empty() =~= q);
}

/// `MSG` from the device of the room's host is taken in as it was sent and
/// answered; one that runs ahead of the cursor is answered by asking for what
/// comes after the cursor. Any other does nothing.
pub proof fn receiving_is_exact(n: NodeModel, env: EnvelopeModel, o: AppOwnerModel)
    requires
        n.wf(),
    ensures
        ({
            let step = msg_step(n, env, Some(o));
            let id = env.room_id;
            if msg_of(env.body) is Some && n.rooms.contains_key(id) && n.rooms[id].rh_device
                == o.device_uuid {
                let m = msg_of(env.body)->0;
                let cursor = contiguous(n.rooms[id].messages);
                &&& takes_in(n, step.node, id, m.seq, m.sender_user, m.ts_ms, m.text)
                &&& answers_host(
                    step.sent,
                    step.node,
                    id,
                    if m.seq > cursor + 1 {
                        Some(cursor)
                    } else {
                        None
                    },
                )
            } else {
                nothing_done(n, step.node, step.sent)
            }
        }),
{
    let id = env.room_id;
    let step = msg_step(n, env, Some(o));
    if msg_of(env.body) is Some && n.rooms.contains_key(id) && n.rooms[id].rh_device
        == o.device_uuid {
        let m = msg_of(env.body)->0;
        applying_is_exact(n, id, m.seq, m.sender_user, m.ts_ms, m.text);
        lemma_answers(step.node, id, contiguous(n.rooms[id].messages));
        let ack = ack_frame(step.node, id);
        assert(Seq::<OutboundModel>::empty() + ack =~= ack);
    }
}

/// `ACK` from a member of a room that this node hosts raises what that member
/// has acknowledged and changes nothing else; any other does nothing. None is
/// answered.
pub proof fn acknowledging_is_exact(n: NodeModel, env: EnvelopeModel, o: AppOwnerModel)
    ensures
        ({
            let step = ack_step(n, env, Some(o));
            let id = env.room_id;
            let room = n.rooms[id];
            &&& step.sent.len() == 0
            &&& if ack_of(env.body) is Some && n.rooms.contains_key(id) && room.is_rh
                && is_member(room.members, o.user_uuid) {
                let seq = ack_of(env.body)->0;
                let known = room.member_acks.contains_key(o.user_uuid)
                    && room.member_acks[o.user_uuid] > seq;
                &&& only_room_changed(n, step.node, id)
                &&& step.node.rooms[id] == (RoomModel {
                    member_acks: room.member_acks.insert(
                        o.user_uuid,
                        if known {
                            room.member_acks[o.user_uuid]
                        } else {
                            seq
                        },
                    ),
                    ..room
                })
            } else {
                step.node == n
            }
        }),
{
}

// ── Sending again ────────────────────────────────────────────────────────────

/// The messages after a number.
pub open spec fn later(since: u64) -> spec_fn(ChatMsgModel) -> bool {
    |m: ChatMsgModel| m.seq > since
}

/// A kept message as it goes to one address again.
pub open spec fn resend(id: Uuid, dev: Uuid, app: Uuid) -> spec_fn(ChatMsgModel) -> OutboundModel {
    |m: ChatMsgModel|
        OutboundModel {
            dest_device: dev,
            dest_app: app,
            msg_type: msg::MSG,
            room_id: id,
            body: msg_bytes(resent(m)),
        }
}

/// What comes after a number is every message with a higher one, in order.
pub proof fn after_is_a_filter(ms: Seq<ChatMsgModel>, since: u64)
    ensures
        after(ms, since) == ms.filter(later(since)),
    decreases ms.len(),
{
    reveal(Seq::filter);
    if ms.len() > 0 {
        after_is_a_filter(ms.drop_last(), since);
    }
}

/// A message that is sent again decodes to its number, its sender, its time and
/// its text.
pub proof fn resent_message_is_the_kept_one(m: ChatMsgModel)
    requires
        fits_text(m.text),
        uuid_of_hex(m.sender_user_hex) is Some,
    ensures
        msg_of(msg_bytes(resent(m))) == Some(
            DecodedMsgModel {
                seq: m.seq,
                sender_user: uuid_of_hex(m.sender_user_hex)->0,
                ts_ms: m.ts_ms,
                client_msg_id: zero_id(),
                text: m.text,
            },
        ),
{
    let body = msg_bytes(resent(m));
    msg_round_trip(resent(m), Seq::empty());
    assert(body + Seq::<u8>::empty() =~= body);
}

/// Sending messages again is one frame for each, in their order.
proof fn lemma_replay_frames(ms: Seq<ChatMsgModel>, id: Uuid, dev: Uuid, app: Uuid)
    ensures
        replay_frames(ms, id, dev, app) == ms.map_values(resend(id, dev, app)),
{
    assert(replay_frames(ms, id, dev, app) =~= ms.map_values(resend(id, dev, app)));
}

// ── Announcements ────────────────────────────────────────────────────────────

/// A member list in which only the first entry of a user may have changed, by
/// being marked present.
pub open spec fn marks_only(
    before: Seq<MemberModel>,
    after: Seq<MemberModel>,
    user: Uuid,
) -> bool {
    &&& after.len() == before.len()
    &&& forall|i: int|
        0 <= i < before.len() && (#[trigger] before[i]).user_uuid != user ==> after[i] == before[i]
    &&& forall|i: int|
        0 <= i < before.len() && (#[trigger] before[i]).user_uuid == user && (forall|k: int|
            0 <= k < i ==> (#[trigger] before[k]).user_uuid != user) ==> after[i] == (
        MemberModel { present: true, ..before[i] })
    &&& forall|i: int|
        #![trigger before[i]]
        0 <= i < before.len() && before[i].user_uuid == user && (exists|k: int|
            0 <= k < i && (#[trigger] before[k]).user_uuid == user) ==> after[i] == before[i]
}

/// Announcing one room: a hosted room that the sender belongs to marks the
/// sender present and nobody else, raises the sender's cursor, and changes in no
/// other way; the address that was announced gets every message after the
/// cursor, in order. Any other room is left alone, and nothing is sent.
pub proof fn announcing_one_room_is_exact(
    n: NodeModel,
    user: Uuid,
    dev: Uuid,
    app: Uuid,
    id: Uuid,
    seq: u64,
)
    ensures
        ({
            let (node, sent, count) = greetings(n, user, dev, app, seq![(id, seq)]);
            let room = n.rooms[id];
            if n.rooms.contains_key(id) && room.is_rh && is_member(room.members, user) {
                let now = node.rooms[id];
                let known = room.member_acks.contains_key(user) && room.member_acks[user] > seq;
                let cursor = if known {
                    room.member_acks[user]
                } else {
                    seq
                };
                &&& count == 1
                &&& only_room_changed(n, node, id)
                &&& marks_only(room.members, now.members, user)
                &&& now == (RoomModel {
                    members: now.members,
                    member_acks: room.member_acks.insert(user, cursor),
                    ..room
                })
                &&& sent == room.messages.filter(later(cursor)).map_values(resend(id, dev, app))
            } else {
                node == n && sent.len() == 0 && count == 0
            }
        }),
{
    let rooms = seq![(id, seq)];
    assert(rooms.drop_last() =~= Seq::empty());
    reveal_with_fuel(greetings, 2);
    let room = n.rooms[id];
    if n.rooms.contains_key(id) && room.is_rh && is_member(room.members, user) {
        let now = greeted(room, user, seq);
        let next = n.with_room(id, now);
        let cursor = acked(now, user);
        lemma_member_index(room.members, user);
        let j = member_index(room.members, user);
        assert(room.members[j].user_uuid == user);
        assert forall|i: int|
            #![trigger room.members[i]]
            0 <= i < room.members.len() && room.members[i].user_uuid == user && (exists|k: int|
                0 <= k < i && (#[trigger] room.members[k]).user_uuid == user) implies
            now.members[i] == room.members[i] by {
            assert(i != j);
        }
        after_is_a_filter(room.messages, cursor);
        lemma_replay_frames(after(room.messages, cursor), id, dev, app);
        let sent = greetings(n, user, dev, app, rooms).1;
        assert(sent =~= replay(next, id, user, dev, app));
    }
}

/// Announcing several rooms is announcing them one after the other.
pub proof fn announcements_add_up(
    n: NodeModel,
    user: Uuid,
    dev: Uuid,
    app: Uuid,
    a: Seq<Cursor>,
    b: Seq<Cursor>,
)
    ensures
        ({
            let (m, sent, count) = greetings(n, user, dev, app, a);
            let (m2, sent2, count2) = greetings(m, user, dev, app, b);
            greetings(n, user, dev, app, a + b) == (m2, sent + sent2, count + count2)
        }),
        greetings(n, user, dev, app, Seq::empty()) == (n, Seq::<OutboundModel>::empty(), 0nat),
    decreases b.len(),
{
    let (m, sent, count) = greetings(n, user, dev, app, a);
    if b.len() == 0 {
        assert(a + b =~= a);
        assert(sent + Seq::<OutboundModel>::empty() =~= sent);
    } else {
        announcements_add_up(n, user, dev, app, a, b.drop_last());
        assert((a + b).drop_last() =~= a + b.drop_last());
        let (m1, sent1, count1) = greetings(m, user, dev, app, b.drop_last());
        let (id, seq) = b.last();
        if hosts_member(m1, id, user) {
            let next = m1.with_room(id, greeted(m1.rooms[id], user, seq));
            let r = replay(next, id, user, dev, app);
            assert(sent + sent1 + r =~= sent + (sent1 + r));
        }
    }
}

/// `HELLO` announces the rooms that it lists, in the name of the user whom the
/// snapshot gives the sender; one that does not read does nothing.
pub proof fn announcements_are_judged(n: NodeModel, env: EnvelopeModel, o: AppOwnerModel)
    ensures
        ({
            let step = hello_step(n, env, Some(o));
            match hello_of(env.body) {
                Some((dev, app, rooms)) => {
                    let (node, sent, _) = greetings(n, o.user_uuid, dev, app, rooms);
                    step.node == node && step.sent == sent
                },
                None => nothing_done(n, step.node, step.sent),
            }
        }),
{
}

/// However many rooms a `HELLO` lists, no member of any room but the sender is
/// touched, and no history is.
pub proof fn announcements_touch_the_sender_only(
    n: NodeModel,
    user: Uuid,
    dev: Uuid,
    app: Uuid,
    rooms: Seq<Cursor>,
    id: Uuid,
)
    requires
        n.rooms.contains_key(id),
    ensures
        ({
            let node = greetings(n, user, dev, app, rooms).0;
            &&& node.rooms.contains_key(id)
            &&& node.rooms[id].members.len() == n.rooms[id].members.len()
            &&& forall|i: int|
                0 <= i < n.rooms[id].members.len() && (#[trigger] n.rooms[id].members[i]).user_uuid
                    != user ==> node.rooms[id].members[i] == n.rooms[id].members[i]
            &&& forall|i: int|
                0 <= i < n.rooms[id].members.len() ==> node.rooms[id].members[i].user_uuid == (
                #[trigger] n.rooms[id].members[i]).user_uuid
            &&& forall|u: Uuid|
                u != user ==> (#[trigger] node.rooms[id].member_acks.contains_key(u)
                    <==> n.rooms[id].member_acks.contains_key(u))
            &&& forall|u: Uuid|
                u != user ==> #[trigger] node.rooms[id].member_acks[u]
                    == n.rooms[id].member_acks[u]
            &&& node.rooms[id] == (RoomModel {
                members: node.rooms[id].members,
                member_acks: node.rooms[id].member_acks,
                ..n.rooms[id]
            })
            &&& node == (NodeModel { rooms: node.rooms, ..n })
        }),
    decreases rooms.len(),
{
    if rooms.len() > 0 {
        announcements_touch_the_sender_only(n, user, dev, app, rooms.drop_last(), id);
        let mid = greetings(n, user, dev, app, rooms.drop_last()).0;
        let (rid, seq) = rooms.last();
        assert(rooms =~= rooms.drop_last() + seq![(rid, seq)]);
        announcements_add_up(n, user, dev, app, rooms.drop_last(), seq![(rid, seq)]);
        announcing_one_room_is_exact(mid, user, dev, app, rid, seq);
        let node = greetings(n, user, dev, app, rooms).0;
        assert forall|i: int|
            0 <= i < n.rooms[id].members.len() && (#[trigger] n.rooms[id].members[i]).user_uuid
                != user implies node.rooms[id].members[i] == n.rooms[id].members[i] by {
            assert(mid.rooms[id].members[i].user_uuid != user);
        }
        assert forall|i: int| 0 <= i < n.rooms[id].members.len() implies
            node.rooms[id].members[i].user_uuid == (#[trigger] n.rooms[id].members[i]).user_uuid by {
            let b = mid.rooms[id].members;
            assert(b[i].user_uuid == n.rooms[id].members[i].user_uuid);
            if hosts_member(mid, rid, user) && rid == id && b[i].user_uuid == user {
                if forall|k: int| 0 <= k < i ==> (#[trigger] b[k]).user_uuid != user {
                    assert(node.rooms[id].members[i] == (MemberModel { present: true, ..b[i] }));
                } else {
                    assert(node.rooms[id].members[i] == b[i]);
                }
            }
        }
    }
}

// ── History ──────────────────────────────────────────────────────────────────

/// An entry of a history answer that decodes is taken in as it was sent, and
/// counts if it was new; one that does not is passed over.
pub proof fn taking_one_entry_is_exact(n: NodeModel, id: Uuid, entry: Seq<u8>)
    requires
        n.wf(),
    ensures
        ({
            let (node, count) = entries_applied(n, id, seq![entry]);
            match msg_of(entry) {
                Some(d) => takes_in(n, node, id, d.seq, d.sender_user, d.ts_ms, d.text) && count
                    == if n.rooms.contains_key(id) && !has_seq(n.rooms[id].messages, d.seq) {
                    1nat
                } else {
                    0
                },
                None => node == n && count == 0,
            }
        }),
{
    assert(seq![entry].drop_last() =~= Seq::empty());
    reveal_with_fuel(entries_applied, 2);
    if let Some(d) = msg_of(entry) {
        applying_is_exact(n, id, d.seq, d.sender_user, d.ts_ms, d.text);
    }
}

/// Taking several entries is taking them one after the other.
pub proof fn entries_add_up(n: NodeModel, id: Uuid, a: Seq<Seq<u8>>, b: Seq<Seq<u8>>)
    ensures
        ({
            let (m, count) = entries_applied(n, id, a);
            let (m2, count2) = entries_applied(m, id, b);
            entries_applied(n, id, a + b) == (m2, count + count2)
        }),
        entries_applied(n, id, Seq::empty()) == (n, 0nat),
    decreases b.len(),
{
    if b.len() == 0 {
        assert(a + b =~= a);
    } else {
        entries_add_up(n, id, a, b.drop_last());
        assert((a + b).drop_last() =~= a + b.drop_last());
    }
}

/// Whether an entry is the first of its number.
pub open spec fn first_of_its_number(entries: Seq<Seq<u8>>, i: int) -> bool {
    forall|k: int|
        0 <= k < i ==> (msg_of(#[trigger] entries[k]) matches Some(d) ==> d.seq != (msg_of(
            entries[i],
        )->0).seq)
}

proof fn lemma_names_number(entries: Seq<Seq<u8>>)
    requires
        entries.len() > 0,
    ensures
        forall|s: u64| #[trigger]
            names_number(entries, s) <==> names_number(entries.drop_last(), s) || (msg_of(
                entries.last(),
            ) matches Some(d) && d.seq == s),
{
    let front = entries.drop_last();
    let last = entries.last();
    assert forall|s: u64| #[trigger]
        names_number(entries, s) <==> names_number(front, s) || (msg_of(last) matches Some(d)
            && d.seq == s) by {
        if names_number(front, s) {
            let k = choose|k: int|
                0 <= k < front.len() && (msg_of(#[trigger] front[k]) matches Some(d) && d.seq
                    == s);
            assert(entries[k] == front[k]);
        }
        if msg_of(last) is Some && (msg_of(last)->0).seq == s {
            assert(entries[entries.len() - 1] == last);
        }
        if names_number(entries, s) {
            let k = choose|k: int|
                0 <= k < entries.len() && (msg_of(#[trigger] entries[k]) matches Some(d)
                    && d.seq == s);
            if k < front.len() {
                assert(front[k] == entries[k]);
            }
        }
    }
}

/// Whether a history still holds what it held.
pub open spec fn keeps_all(held: Seq<ChatMsgModel>, got: Seq<ChatMsgModel>) -> bool {
    forall|i: int| 0 <= i < held.len() ==> got.contains(#[trigger] held[i])
}

/// Whether a history holds each entry that it lacked as it was sent.
pub open spec fn keeps_new(
    held: Seq<ChatMsgModel>,
    got: Seq<ChatMsgModel>,
    entries: Seq<Seq<u8>>,
) -> bool {
    forall|i: int|
        0 <= i < entries.len() && msg_of(#[trigger] entries[i]) is Some && !has_seq(
            held,
            (msg_of(entries[i])->0).seq,
        ) && first_of_its_number(entries, i) ==> holds_as_sent(got, msg_of(entries[i])->0)
}

/// Whether a history holds nothing but what it held and the entries as sent.
pub open spec fn keeps_only(
    held: Seq<ChatMsgModel>,
    got: Seq<ChatMsgModel>,
    entries: Seq<Seq<u8>>,
) -> bool {
    forall|j: int|
        0 <= j < got.len() ==> held.contains(#[trigger] got[j]) || is_an_entry(got[j], entries)
}

/// Whether a history holds the numbers that it held and those of the entries.
pub open spec fn keeps_numbers(
    held: Seq<ChatMsgModel>,
    got: Seq<ChatMsgModel>,
    entries: Seq<Seq<u8>>,
) -> bool {
    forall|s: u64| #[trigger] has_seq(got, s) <==> has_seq(held, s) || names_number(entries, s)
}

/// Whether one entry was taken into a history.
spec fn one_taken(had: Seq<ChatMsgModel>, got: Seq<ChatMsgModel>, entry: Seq<u8>) -> bool {
    match msg_of(entry) {
        Some(d) => {
            &&& keeps_all(had, got)
            &&& !has_seq(had, d.seq) ==> holds_as_sent(got, d)
            &&& forall|j: int|
                0 <= j < got.len() ==> had.contains(#[trigger] got[j]) || kept_as(
                    got[j],
                    d.seq,
                    d.sender_user,
                    d.ts_ms,
                    d.text,
                )
            &&& forall|s: u64| #[trigger] has_seq(got, s) <==> s == d.seq || has_seq(had, s)
        },
        None => got == had,
    }
}

proof fn lemma_one_taken(n: NodeModel, id: Uuid, entry: Seq<u8>)
    requires
        n.wf(),
        n.rooms.contains_key(id),
    ensures
        ({
            let node = entries_applied(n, id, seq![entry]).0;
            &&& node.wf()
            &&& node.rooms.contains_key(id)
            &&& one_taken(n.rooms[id].messages, node.rooms[id].messages, entry)
        }),
{
    taking_one_entry_is_exact(n, id, entry);
    if let Some(d) = msg_of(entry) {
        let node = entries_applied(n, id, seq![entry]).0;
        lemma_takes_in(n, node, id, d.seq, d.sender_user, d.ts_ms, d.text);
        lemma_applied_wf(n, id, d.seq, d.sender_user, d.ts_ms, d.text);
        assert(seq![entry].drop_last() =~= Seq::empty());
        reveal_with_fuel(entries_applied, 2);
    }
}

proof fn lemma_keeps_all(
    held: Seq<ChatMsgModel>,
    had: Seq<ChatMsgModel>,
    got: Seq<ChatMsgModel>,
    entry: Seq<u8>,
)
    requires
        keeps_all(held, had),
        one_taken(had, got, entry),
    ensures
        keeps_all(held, got),
{
    assert forall|i: int| 0 <= i < held.len() implies got.contains(#[trigger] held[i]) by {
        assert(had.contains(held[i]));
        let k = choose|k: int| 0 <= k < had.len() && had[k] == held[i];
        if msg_of(entry) is Some {
            assert(got.contains(had[k]));
        }
    }
}

proof fn lemma_keeps_new(
    held: Seq<ChatMsgModel>,
    had: Seq<ChatMsgModel>,
    got: Seq<ChatMsgModel>,
    entries: Seq<Seq<u8>>,
    i: int,
)
    requires
        0 <= i < entries.len(),
        keeps_new(held, had, entries.drop_last()),
        keeps_numbers(held, had, entries.drop_last()),
        one_taken(had, got, entries.last()),
        msg_of(entries[i]) is Some,
        !has_seq(held, (msg_of(entries[i])->0).seq),
        first_of_its_number(entries, i),
    ensures
        holds_as_sent(got, msg_of(entries[i])->0),
{
    let front = entries.drop_last();
    let d = msg_of(entries[i])->0;
    if i < front.len() {
        assert(front[i] == entries[i]);
        assert(first_of_its_number(front, i)) by {
            assert forall|k: int| 0 <= k < i implies (msg_of(#[trigger] front[k]) matches Some(e)
                ==> e.seq != d.seq) by {
                assert(front[k] == entries[k]);
            }
        }
        assert(holds_as_sent(had, d));
        let k = choose|k: int|
            0 <= k < had.len() && kept_as(#[trigger] had[k], d.seq, d.sender_user, d.ts_ms, d.text);
        if msg_of(entries.last()) is Some {
            assert(got.contains(had[k]));
            let j = choose|j: int| 0 <= j < got.len() && got[j] == had[k];
            assert(kept_as(got[j], d.seq, d.sender_user, d.ts_ms, d.text));
        }
    } else {
        assert(entries[i] == entries.last());
        if names_number(front, d.seq) {
            let k = choose|k: int|
                0 <= k < front.len() && (msg_of(#[trigger] front[k]) matches Some(e) && e.seq
                    == d.seq);
            assert(entries[k] == front[k]);
        }
        assert(!has_seq(had, d.seq));
    }
}

proof fn lemma_keeps_only(
    held: Seq<ChatMsgModel>,
    had: Seq<ChatMsgModel>,
    got: Seq<ChatMsgModel>,
    entries: Seq<Seq<u8>>,
    j: int,
)
    requires
        entries.len() > 0,
        keeps_only(held, had, entries.drop_last()),
        one_taken(had, got, entries.last()),
        0 <= j < got.len(),
    ensures
        held.contains(got[j]) || is_an_entry(got[j], entries),
{
    let front = entries.drop_last();
    let last = entries.last();
    if msg_of(last) is None {
        assert(had.contains(had[j]));
    }
    if had.contains(got[j]) {
        let k = choose|k: int| 0 <= k < had.len() && had[k] == got[j];
        if !held.contains(had[k]) {
            assert(is_an_entry(had[k], front));
            let i = choose|i: int|
                0 <= i < front.len() && (msg_of(#[trigger] front[i]) matches Some(d) && kept_as(
                    had[k],
                    d.seq,
                    d.sender_user,
                    d.ts_ms,
                    d.text,
                ));
            assert(entries[i] == front[i]);
            assert(is_an_entry(got[j], entries));
        }
    } else {
        assert(entries[entries.len() - 1] == last);
        assert(is_an_entry(got[j], entries));
    }
}

/// After a member has taken over a history answer, it has kept each message that
/// it lacked as the answer gave it: the number, the sender, the time and the
/// text. What it had it still has, and it has nothing else.
pub proof fn history_is_kept_as_sent(n: NodeModel, id: Uuid, entries: Seq<Seq<u8>>)
    requires
        n.wf(),
        n.rooms.contains_key(id),
    ensures
        ({
            let node = entries_applied(n, id, entries).0;
            let held = n.rooms[id].messages;
            let got = node.rooms[id].messages;
            &&& node.wf()
            &&& node.rooms.contains_key(id)
            &&& keeps_all(held, got)
            &&& keeps_new(held, got, entries)
            &&& keeps_only(held, got, entries)
            &&& keeps_numbers(held, got, entries)
        }),
    decreases entries.len(),
{
    let held = n.rooms[id].messages;
    if entries.len() == 0 {
        assert(keeps_numbers(held, held, entries));
    } else {
        let front = entries.drop_last();
        let last = entries.last();
        history_is_kept_as_sent(n, id, front);
        assert(entries =~= front + seq![last]);
        entries_add_up(n, id, front, seq![last]);
        let mid = entries_applied(n, id, front).0;
        let node = entries_applied(n, id, entries).0;
        lemma_one_taken(mid, id, last);
        lemma_history_step(
            held,
            mid.rooms[id].messages,
            node.rooms[id].messages,
            entries,
        );
    }
}

proof fn lemma_history_step(
    held: Seq<ChatMsgModel>,
    had: Seq<ChatMsgModel>,
    got: Seq<ChatMsgModel>,
    entries: Seq<Seq<u8>>,
)
    requires
        entries.len() > 0,
        keeps_all(held, had),
        keeps_new(held, had, entries.drop_last()),
        keeps_only(held, had, entries.drop_last()),
        keeps_numbers(held, had, entries.drop_last()),
        one_taken(had, got, entries.last()),
    ensures
        keeps_all(held, got),
        keeps_new(held, got, entries),
        keeps_only(held, got, entries),
        keeps_numbers(held, got, entries),
{
    assert(keeps_all(held, got)) by {
        lemma_keeps_all(held, had, got, entries.last());
    }
    assert(keeps_new(held, got, entries)) by {
        assert forall|i: int|
            0 <= i < entries.len() && msg_of(#[trigger] entries[i]) is Some && !has_seq(
                held,
                (msg_of(entries[i])->0).seq,
            ) && first_of_its_number(entries, i) implies holds_as_sent(
            got,
            msg_of(entries[i])->0,
        ) by {
            lemma_keeps_new(held, had, got, entries, i);
        }
    }
    assert(keeps_only(held, got, entries)) by {
        assert forall|j: int| 0 <= j < got.len() implies held.contains(#[trigger] got[j])
            || is_an_entry(got[j], entries) by {
            lemma_keeps_only(held, had, got, entries, j);
        }
    }
    assert(keeps_numbers(held, got, entries)) by {
        lemma_names_number(entries);
    }
}

/// Whether a history holds a message as it was sent.
pub open spec fn holds_as_sent(ms: Seq<ChatMsgModel>, d: DecodedMsgModel) -> bool {
    exists|j: int|
        0 <= j < ms.len() && kept_as(#[trigger] ms[j], d.seq, d.sender_user, d.ts_ms, d.text)
}

/// Whether a kept message is one of the entries.
pub open spec fn is_an_entry(m: ChatMsgModel, entries: Seq<Seq<u8>>) -> bool {
    exists|i: int|
        0 <= i < entries.len() && (msg_of(#[trigger] entries[i]) matches Some(d) && kept_as(
            m,
            d.seq,
            d.sender_user,
            d.ts_ms,
            d.text,
        ))
}

/// Whether one of the entries has a number.
pub open spec fn names_number(entries: Seq<Seq<u8>>, s: u64) -> bool {
    exists|k: int|
        0 <= k < entries.len() && (msg_of(#[trigger] entries[k]) matches Some(d) && d.seq == s)
}

/// A kept message, sent again, gives back what was received, but for the
/// poster's own identifier.
pub proof fn kept_message_is_given_back(m: ChatMsgModel, d: DecodedMsgModel)
    requires
        kept_as(m, d.seq, d.sender_user, d.ts_ms, d.text),
    ensures
        resent(m) == (DecodedMsgModel { client_msg_id: zero_id(), ..d }),
{
    hex_round_trip(d.sender_user);
}

/// `HISTORY_RESP` from the device of the room's host has its entries taken over
/// and is answered, by asking on from where it ended if there is more; any other
/// does nothing.
pub proof fn history_answers_are_judged(n: NodeModel, env: EnvelopeModel, o: AppOwnerModel)
    requires
        n.wf(),
    ensures
        ({
            let step = history_resp_step(n, env, Some(o));
            let id = env.room_id;
            if n.rooms.contains_key(id) && n.rooms[id].rh_device == o.device_uuid
                && history_resp_of(env.body) is Some {
                let (_, to, more, entries) = history_resp_of(env.body)->0;
                &&& step.node == entries_applied(n, id, entries).0
                &&& answers_host(
                    step.sent,
                    step.node,
                    id,
                    if more {
                        Some(to)
                    } else {
                        None
                    },
                )
            } else {
                nothing_done(n, step.node, step.sent)
            }
        }),
{
    let id = env.room_id;
    let step = history_resp_step(n, env, Some(o));
    if n.rooms.contains_key(id) && n.rooms[id].rh_device == o.device_uuid && history_resp_of(
        env.body,
    ) is Some {
        let (_, to, more, entries) = history_resp_of(env.body)->0;
        history_is_kept_as_sent(n, id, entries);
        lemma_answers(step.node, id, to);
        let ack = ack_frame(step.node, id);
        assert(Seq::<OutboundModel>::empty() + ack =~= ack);
    }
}

} // verus!
