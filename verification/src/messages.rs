//! Text messages: the host orders what members post and fans it out; members
//! apply it, acknowledge it and ask for what they miss.

use crate::bytes::{be_bytes, zero_id, zero_uuid, Uuid};
use crate::codec::{ack_of, decode_ack, decode_hello, decode_history_req, decode_history_resp};
use crate::codec::{decode_msg, decode_post, encode_ack, encode_history_req, encode_history_resp};
use crate::codec::{encode_msg, hello_of, history_req_bytes, history_req_of, history_resp_bytes};
use crate::codec::{history_resp_of, msg_bytes, msg_of, post_of, Cursor, DecodedMsgModel};
use crate::codec::{Envelope, EnvelopeModel, ENVELOPE_LEN, MAX_APP_PAYLOAD};
use crate::msg;
use crate::rooms::{fan_out, find_member, frame_to, has_member, ignored, is_member, member_index};
use crate::rooms::{owner_model, queue_to, queue_to_all, took, with_members, Step};
use crate::state::{ascending, has_seq, highest_seq, AppOwner, AppOwnerModel, ChatMsg};
use crate::state::{ChatMsgModel, Inner, MemberModel, NodeModel, Outbound, OutboundModel};
use crate::state::{RoomModel, RoomState};
use crate::text::{bool_text, bool_word, dec, decimal, hex, hex_chars, hex_round_trip, join3};
use crate::text::{join5, join7, unknown_user, unknown_user_text, uuid_from_hex, uuid_of_hex};
use crate::text::uuid_of_hex_or_zero;
use crate::uuid::{is_uuid, uuid_eq};
use crate::views::{lemma_views_take, views};
use vstd::prelude::*;
use vstd::string::StringExecFns;

verus! {

// ── Applying a message ───────────────────────────────────────────────────────

/// What a sender is called: by the room, else by the directory.
pub open spec fn sender_alias(n: NodeModel, room_id: Uuid, user: Uuid) -> Seq<char> {
    if n.rooms.contains_key(room_id) && is_member(n.rooms[room_id].members, user) {
        let members = n.rooms[room_id].members;
        members[member_index(members, user)].alias
    } else if n.directory.contains_key(user) {
        n.directory[user].alias
    } else if n.own_user_uuid == Some(user) {
        "me"@
    } else {
        unknown_user(user)
    }
}

/// Resolve a sender's alias, and whether the sender is our own user.
pub fn resolve_sender(inner: &Inner, room_id: &Uuid, user: &Uuid) -> (r: (String, bool))
    ensures
        r.0@ == sender_alias(inner@, *room_id, *user),
        r.1 == (inner@.own_user_uuid == Some(*user)),
{
    let is_self = is_uuid(&inner.own_user_uuid, user);
    if let Some(room) = inner.rooms.get(room_id) {
        if let Some(i) = find_member(&room.members, user) {
            return (room.members[i].alias.clone(), is_self);
        }
    }
    if let Some(d) = inner.directory.get(user) {
        return (d.alias.clone(), is_self);
    }
    if is_self {
        ("me".to_owned(), true)
    } else {
        (unknown_user_text(user), false)
    }
}

/// Where a sequence number belongs in an ascending history.
pub open spec fn slot(ms: Seq<ChatMsgModel>, seq: u64) -> int
    decreases ms.len(),
{
    if ms.len() == 0 {
        0
    } else if ms.last().seq < seq {
        ms.len() as int
    } else {
        slot(ms.drop_last(), seq)
    }
}

/// A message as this node keeps it.
pub open spec fn kept_msg(
    n: NodeModel,
    room_id: Uuid,
    seq: u64,
    sender: Uuid,
    ts_ms: u64,
    text: Seq<char>,
) -> ChatMsgModel {
    ChatMsgModel {
        seq,
        sender_user_hex: hex_chars(sender@),
        sender_alias: sender_alias(n, room_id, sender),
        sender_is_self: n.own_user_uuid == Some(sender),
        ts_ms,
        text,
    }
}

/// A history with one more message, in order.
pub open spec fn with_msg(ms: Seq<ChatMsgModel>, m: ChatMsgModel) -> Seq<ChatMsgModel> {
    ms.insert(slot(ms, m.seq), m)
}

/// Whether a message would be new to this node: the room is known and its
/// history lacks the sequence number.
pub open spec fn is_new(n: NodeModel, room_id: Uuid, seq: u64) -> bool {
    n.rooms.contains_key(room_id) && !has_seq(n.rooms[room_id].messages, seq)
}

/// The node after applying a message; a known sequence number changes nothing.
pub open spec fn applied(
    n: NodeModel,
    room_id: Uuid,
    seq: u64,
    sender: Uuid,
    ts_ms: u64,
    text: Seq<char>,
) -> NodeModel {
    if is_new(n, room_id, seq) {
        let room = n.rooms[room_id];
        n.with_room(
            room_id,
            RoomModel {
                messages: with_msg(
                    room.messages,
                    kept_msg(n, room_id, seq, sender, ts_ms, text),
                ),
                last_seq: if seq > room.last_seq {
                    seq
                } else {
                    room.last_seq
                },
                ..room
            },
        )
    } else {
        n
    }
}

proof fn lemma_slot(ms: Seq<ChatMsgModel>, seq: u64)
    requires
        ascending(ms),
    ensures
        0 <= slot(ms, seq) <= ms.len(),
        forall|i: int| 0 <= i < slot(ms, seq) ==> (#[trigger] ms[i]).seq < seq,
        forall|i: int| slot(ms, seq) <= i < ms.len() ==> (#[trigger] ms[i]).seq >= seq,
    decreases ms.len(),
{
    if ms.len() > 0 && ms.last().seq >= seq {
        let front = ms.drop_last();
        assert(ascending(front));
        lemma_slot(front, seq);
        assert forall|i: int| 0 <= i < slot(ms, seq) implies (#[trigger] ms[i]).seq < seq by {
            assert(front[i] == ms[i]);
        }
        assert forall|i: int| slot(ms, seq) <= i < ms.len() implies (#[trigger] ms[i]).seq
            >= seq by {
            if i < front.len() {
                assert(front[i] == ms[i]);
            }
        }
    }
}

/// The highest number of a history is an upper bound that it attains.
pub proof fn lemma_highest(ms: Seq<ChatMsgModel>)
    ensures
        forall|i: int| 0 <= i < ms.len() ==> (#[trigger] ms[i]).seq <= highest_seq(ms),
        highest_seq(ms) == 0 || has_seq(ms, highest_seq(ms)),
    decreases ms.len(),
{
    if ms.len() > 0 {
        let front = ms.drop_last();
        lemma_highest(front);
        assert forall|i: int| 0 <= i < ms.len() implies (#[trigger] ms[i]).seq <= highest_seq(
            ms,
        ) by {
            if i < front.len() {
                assert(front[i] == ms[i]);
            }
        }
        if ms.last().seq > highest_seq(front) {
            assert(ms[ms.len() - 1].seq == highest_seq(ms));
        } else if highest_seq(front) != 0 {
            let i = choose|i: int|
                0 <= i < front.len() && (#[trigger] front[i]).seq == highest_seq(front);
            assert(ms[i] == front[i]);
        }
    }
}

/// Inserting a new sequence number keeps a history in order, keeps what it
/// held, and raises the highest number if need be.
pub proof fn lemma_with_msg(ms: Seq<ChatMsgModel>, m: ChatMsgModel)
    requires
        ascending(ms),
        !has_seq(ms, m.seq),
    ensures
        ascending(with_msg(ms, m)),
        forall|s: u64| #[trigger] has_seq(with_msg(ms, m), s) <==> s == m.seq || has_seq(ms, s),
        highest_seq(with_msg(ms, m)) == if m.seq > highest_seq(ms) {
            m.seq
        } else {
            highest_seq(ms)
        },
{
    let k = slot(ms, m.seq);
    let out = with_msg(ms, m);
    lemma_slot(ms, m.seq);
    assert(out.len() == ms.len() + 1);
    assert(forall|i: int| 0 <= i < k ==> #[trigger] out[i] == ms[i]);
    assert(out[k] == m);
    assert(forall|i: int| k < i < out.len() ==> #[trigger] out[i] == ms[i - 1]);
    assert forall|i: int| k <= i < ms.len() implies (#[trigger] ms[i]).seq > m.seq by {}
    assert forall|s: u64| #[trigger] has_seq(out, s) <==> s == m.seq || has_seq(ms, s) by {
        if has_seq(out, s) && s != m.seq {
            let i = choose|i: int| 0 <= i < out.len() && (#[trigger] out[i]).seq == s;
            if i < k {
                assert(ms[i].seq == s);
            } else {
                assert(ms[i - 1].seq == s);
            }
        }
        if has_seq(ms, s) {
            let i = choose|i: int| 0 <= i < ms.len() && (#[trigger] ms[i]).seq == s;
            if i < k {
                assert(out[i].seq == s);
            } else {
                assert(out[i + 1].seq == s);
            }
        }
        if s == m.seq {
            assert(out[k].seq == s);
        }
    }
    lemma_highest(ms);
    lemma_highest(out);
    assert(has_seq(out, m.seq));
    assert forall|s: u64| has_seq(ms, s) implies s <= highest_seq(out) by {
        assert(has_seq(out, s));
    }
    if highest_seq(out) != 0 {
        assert(has_seq(out, highest_seq(out)));
    }
}

/// Applying a message keeps a node well formed, and the message's number is in
/// the room's history afterwards.
pub proof fn lemma_applied_wf(
    n: NodeModel,
    room_id: Uuid,
    seq: u64,
    sender: Uuid,
    ts_ms: u64,
    text: Seq<char>,
)
    requires
        n.wf(),
    ensures
        applied(n, room_id, seq, sender, ts_ms, text).wf(),
        n.rooms.contains_key(room_id) ==> has_seq(
            applied(n, room_id, seq, sender, ts_ms, text).rooms[room_id].messages,
            seq,
        ),
{
    if is_new(n, room_id, seq) {
        let m = kept_msg(n, room_id, seq, sender, ts_ms, text);
        let room = n.rooms[room_id];
        lemma_with_msg(room.messages, m);
        let after = applied(n, room_id, seq, sender, ts_ms, text);
        let out = after.rooms[room_id].messages;
        lemma_slot(room.messages, seq);
        hex_round_trip(sender);
        assert forall|i: int| 0 <= i < out.len() implies uuid_of_hex(
            (#[trigger] out[i]).sender_user_hex,
        ) is Some by {
            let k = slot(room.messages, seq);
            if i < k {
                assert(out[i] == room.messages[i]);
            } else if i > k {
                assert(out[i] == room.messages[i - 1]);
            }
        }
        assert forall|s: u64| 1 <= s < room.next_seq implies #[trigger] has_seq(
            after.rooms[room_id].messages,
            s,
        ) by {
            assert(has_seq(room.messages, s));
        }
    }
}

/// Whether a history holds a sequence number.
pub fn holds_seq(ms: &Vec<ChatMsg>, seq: u64) -> (r: bool)
    ensures
        r == has_seq(views(ms@), seq),
{
    let ghost all = views(ms@);
    let mut i: usize = 0;
    while i < ms.len()
        invariant
            i <= ms@.len(),
            all == views(ms@),
            forall|j: int| 0 <= j < i ==> (#[trigger] all[j]).seq != seq,
        decreases ms@.len() - i,
    {
        if ms[i].seq == seq {
            assert(all[i as int].seq == seq);
            return true;
        }
        i += 1;
    }
    false
}

/// Apply an ordered message to a room's history, once per sequence number, and
/// say whether it was new.
pub fn apply_message(
    inner: &mut Inner,
    room_id: &Uuid,
    seq: u64,
    sender_user: Uuid,
    ts_ms: u64,
    text: String,
) -> (r: bool)
    requires
        old(inner)@.wf(),
    ensures
        final(inner)@ == applied(old(inner)@, *room_id, seq, sender_user, ts_ms, text@),
        r == is_new(old(inner)@, *room_id, seq),
        final(inner)@.wf(),
{
    let ghost n = inner@;
    let (alias, is_self) = resolve_sender(inner, room_id, &sender_user);
    match inner.rooms.get(room_id) {
        Some(held) => {
            if holds_seq(&held.messages, seq) {
                return false;
            }
        },
        None => {
            return false;
        },
    }
    let Some(mut room) = inner.rooms.remove(room_id) else {
        return false;
    };
    let m = ChatMsg {
        seq,
        sender_user_hex: hex(sender_user.as_slice()),
        sender_alias: alias,
        sender_is_self: is_self,
        ts_ms,
        text,
    };
    let ghost all = views(room.messages@);
    let mut k: usize = room.messages.len();
    assert(all.take(k as int) =~= all);
    while k > 0 && room.messages[k - 1].seq >= seq
        invariant
            k <= room.messages@.len(),
            all == views(room.messages@),
            slot(all, seq) == slot(all.take(k as int), seq),
        decreases k,
    {
        k -= 1;
        proof {
            lemma_views_take(room.messages@, k as int);
        }
    }
    proof {
        if k > 0 {
            lemma_views_take(room.messages@, k - 1);
        }
        assert(k == slot(all, seq));
    }
    room.messages.insert(k, m);
    if seq > room.last_seq {
        room.last_seq = seq;
    }
    proof {
        assert(views(room.messages@) =~= with_msg(all, m@));
    }
    inner.rooms.insert(*room_id, room);
    proof {
        let after = applied(n, *room_id, seq, sender_user, ts_ms, text@);
        lemma_applied_wf(n, *room_id, seq, sender_user, ts_ms, text@);
        assert(inner@.rooms[*room_id] =~= after.rooms[*room_id]);
        assert(inner@.rooms =~= after.rooms);
        assert(inner@ =~= after);
    }
    true
}

// ── Ordering at the host ─────────────────────────────────────────────────────

/// Whether a room, if this node hosts it, still has sequence numbers to hand
/// out.
pub open spec fn seq_left(n: NodeModel, room_id: Uuid) -> bool {
    n.rooms.contains_key(room_id) && n.rooms[room_id].is_rh ==> n.rooms[room_id].next_seq
        < u64::MAX
}

/// Whether a room, if this node hosts it, still has sequence numbers to hand
/// out.
pub fn has_seq_left(inner: &Inner, room_id: &Uuid) -> (r: bool)
    ensures
        r == seq_left(inner@, *room_id),
{
    match inner.rooms.get(room_id) {
        Some(r) => !r.is_rh || r.next_seq < u64::MAX,
        None => true,
    }
}

/// The outcome of ordering a message: the next number is taken, the message is
/// kept under it, and every member's User Agent gets it.
pub open spec fn ordering(
    n: NodeModel,
    room_id: Uuid,
    sender: Uuid,
    cid: Uuid,
    text: Seq<char>,
    ts_ms: u64,
) -> Result<(NodeModel, Seq<OutboundModel>, u64), Seq<char>> {
    if !n.rooms.contains_key(room_id) {
        Err("unknown room"@)
    } else if !n.rooms[room_id].is_rh {
        Err("not this room's RH"@)
    } else {
        let seq = n.rooms[room_id].next_seq;
        let kept = applied(n, room_id, seq, sender, ts_ms, text);
        let m = DecodedMsgModel { seq, sender_user: sender, ts_ms, client_msg_id: cid, text };
        Ok(
            (
                kept.with_room(
                    room_id,
                    RoomModel { next_seq: (seq + 1) as u64, ..kept.rooms[room_id] },
                ),
                fan_out(
                    n.directory,
                    n.rooms[room_id].members,
                    msg::MSG,
                    room_id,
                    msg_bytes(m),
                ),
                seq,
            ),
        )
    }
}

/// Order a message in a room that this node hosts, at `ts_ms`: assign the next
/// sequence number, keep it, and fan it out.
pub fn rh_accept_message(
    inner: &mut Inner,
    room_id: &Uuid,
    sender_user: Uuid,
    cid: Uuid,
    text: String,
    ts_ms: u64,
    outs: &mut Vec<Outbound>,
) -> (r: Result<u64, String>)
    requires
        old(inner)@.wf(),
        seq_left(old(inner)@, *room_id),
    ensures
        match ordering(old(inner)@, *room_id, sender_user, cid, text@, ts_ms) {
            Ok((n, sent, seq)) => r == Ok::<u64, String>(seq) && final(inner)@ == n && views(
                final(outs)@,
            ) == views(old(outs)@) + sent,
            Err(note) => (r matches Err(e) && e@ == note) && final(inner)@ == old(inner)@
                && views(final(outs)@) == views(old(outs)@),
        },
        final(inner)@.wf(),
{
    let ghost n = inner@;
    let Some(held) = inner.rooms.get(room_id) else {
        return Err("unknown room".to_owned());
    };
    if !held.is_rh {
        return Err("not this room's RH".to_owned());
    }
    let seq: u64 = held.next_seq;
    let body = encode_msg(seq, &sender_user, ts_ms, &cid, text.as_str());
    queue_to_all(&inner.directory, &held.members, msg::MSG, room_id, &body, outs);
    proof {
        lemma_applied_wf(n, *room_id, seq, sender_user, ts_ms, text@);
    }
    apply_message(inner, room_id, seq, sender_user, ts_ms, text);
    let ghost kept = inner@;
    let Some(mut room) = inner.rooms.remove(room_id) else {
        return Ok(seq);
    };
    room.next_seq = seq + 1;
    inner.rooms.insert(*room_id, room);
    proof {
        let after = kept.with_room(
            *room_id,
            RoomModel { next_seq: (seq + 1) as u64, ..kept.rooms[*room_id] },
        );
        assert(inner@.rooms[*room_id] =~= after.rooms[*room_id]);
        assert(inner@.rooms =~= after.rooms);
        assert(inner@ =~= after);
        assert forall|s: u64| 1 <= s < seq + 1 implies #[trigger] has_seq(
            after.rooms[*room_id].messages,
            s,
        ) by {
            if s < seq {
                assert(has_seq(kept.rooms[*room_id].messages, s));
            }
        }
    }
    Ok(seq)
}

/// Whether a post is taken: it reads, the node hosts the room, and the sender
/// is a member or our own user.
pub open spec fn takes_post(
    n: NodeModel,
    env: EnvelopeModel,
    owner: Option<AppOwnerModel>,
) -> bool {
    &&& owner is Some
    &&& post_of(env.body) is Some
    &&& n.rooms.contains_key(env.room_id)
    &&& n.rooms[env.room_id].is_rh
    &&& is_member(n.rooms[env.room_id].members, owner->0.user_uuid) || owner->0.own_user
}

/// Whether a post, if it is taken, can be ordered.
pub open spec fn post_orderable(
    n: NodeModel,
    env: EnvelopeModel,
    owner: Option<AppOwnerModel>,
) -> bool {
    takes_post(n, env, owner) ==> seq_left(n, env.room_id)
}

/// Whether a post, if it is taken, can be ordered.
pub fn can_order_post(inner: &Inner, env: &Envelope<'_>, owner: Option<&AppOwner>) -> (r: bool)
    ensures
        r == post_orderable(inner@, env@, owner_model(owner)),
{
    let Some(owner) = owner else {
        return true;
    };
    if decode_post(env.body).is_none() {
        return true;
    }
    let Some(room) = inner.rooms.get(&env.room_id) else {
        return true;
    };
    if !room.is_rh || !(has_member(&room.members, &owner.user_uuid) || owner.own_user) {
        return true;
    }
    has_seq_left(inner, &env.room_id)
}

/// The step for `POST`: members and our own user may post to a room that this
/// node hosts.
pub open spec fn post_step(
    n: NodeModel,
    env: EnvelopeModel,
    owner: Option<AppOwnerModel>,
    ts_ms: u64,
) -> Step {
    match owner {
        None => ignored(n, "POST from unresolved sender — dropped"@),
        Some(o) => match post_of(env.body) {
            None => ignored(n, "POST malformed"@),
            Some((cid, text)) => if !n.rooms.contains_key(env.room_id) {
                ignored(n, "POST for unknown room"@)
            } else if !n.rooms[env.room_id].is_rh {
                ignored(n, "POST ignored — we are not this room's RH"@)
            } else if !(is_member(n.rooms[env.room_id].members, o.user_uuid) || o.own_user) {
                ignored(n, "POST from non-member "@ + o.label + " dropped"@)
            } else {
                match ordering(n, env.room_id, o.user_uuid, cid, text, ts_ms) {
                    Ok((node, sent, seq)) => Step {
                        node,
                        detail: "POST from "@ + o.label + " ordered as seq "@ + dec(seq as nat),
                        sent,
                    },
                    Err(note) => ignored(n, note),
                }
            },
        },
    }
}

/// Handle `POST`, received at `ts_ms`.
pub fn handle_post(
    inner: &mut Inner,
    env: &Envelope<'_>,
    owner: Option<&AppOwner>,
    ts_ms: u64,
    outs: &mut Vec<Outbound>,
) -> (r: String)
    requires
        old(inner)@.wf(),
        post_orderable(old(inner)@, env@, owner_model(owner)),
    ensures
        took(
            post_step(old(inner)@, env@, owner_model(owner), ts_ms),
            final(inner)@,
            r@,
            old(outs)@,
            final(outs)@,
        ),
        final(inner)@.wf(),
{
    assert(views(outs@) + Seq::<OutboundModel>::empty() =~= views(outs@));
    let Some(owner) = owner else {
        return "POST from unresolved sender — dropped".to_owned();
    };
    let Some((cid, text)) = decode_post(env.body) else {
        return "POST malformed".to_owned();
    };
    let Some(room) = inner.rooms.get(&env.room_id) else {
        return "POST for unknown room".to_owned();
    };
    if !room.is_rh {
        return "POST ignored — we are not this room's RH".to_owned();
    }
    if !(has_member(&room.members, &owner.user_uuid) || owner.own_user) {
        return join3("POST from non-member ", owner.label.as_str(), " dropped");
    }
    match rh_accept_message(inner, &env.room_id, owner.user_uuid, cid, text, ts_ms, outs) {
        Ok(seq) => {
            let mut d = join3("POST from ", owner.label.as_str(), " ordered as seq ");
            d.append(decimal(seq).as_str());
            d
        },
        Err(e) => e,
    }
}

// ── Receiving at a member ────────────────────────────────────────────────────

/// The last number of the unbroken run that goes on after `n`.
pub open spec fn run_end(ms: Seq<ChatMsgModel>, n: u64) -> u64
    decreases u64::MAX - n,
{
    if n < u64::MAX && has_seq(ms, (n + 1) as u64) {
        run_end(ms, (n + 1) as u64)
    } else {
        n
    }
}

/// The highest number N such that 1..=N are all in the history.
pub open spec fn contiguous(ms: Seq<ChatMsgModel>) -> u64 {
    run_end(ms, 0)
}

/// The cursor that a node acknowledges is the highest number up to which its
/// history has no gap: everything up to it is there, and its successor is not.
pub proof fn contiguous_is_highest(ms: Seq<ChatMsgModel>, s: u64)
    ensures
        1 <= s <= contiguous(ms) ==> has_seq(ms, s),
        contiguous(ms) < u64::MAX ==> !has_seq(ms, (contiguous(ms) + 1) as u64),
{
    lemma_run_end(ms, 0, s);
}

proof fn lemma_run_end(ms: Seq<ChatMsgModel>, n: u64, s: u64)
    ensures
        n <= run_end(ms, n),
        n < s <= run_end(ms, n) ==> has_seq(ms, s),
        run_end(ms, n) < u64::MAX ==> !has_seq(ms, (run_end(ms, n) + 1) as u64),
    decreases u64::MAX - n,
{
    if n < u64::MAX && has_seq(ms, (n + 1) as u64) {
        lemma_run_end(ms, (n + 1) as u64, s);
    }
}

/// The highest number N such that 1..=N are all in the room's history: the
/// cursor that we acknowledge. A gap below blocks it.
pub fn contiguous_seq(room: &RoomState) -> (r: u64)
    ensures
        r == contiguous(room@.messages),
{
    let mut n: u64 = 0;
    while n < u64::MAX && holds_seq(&room.messages, n + 1)
        invariant
            run_end(room@.messages, n) == contiguous(room@.messages),
        decreases u64::MAX - n,
    {
        n += 1;
    }
    n
}

/// The address of a room's host, none for a room we host or do not hold.
pub open spec fn host_addr(n: NodeModel, room_id: Uuid) -> Option<(Uuid, Uuid)> {
    if n.rooms.contains_key(room_id) && !n.rooms[room_id].is_rh {
        Some((n.rooms[room_id].rh_device, n.rooms[room_id].rh_app_id))
    } else {
        None
    }
}

/// The address of a room's host, for frames from a member.
pub fn rh_addr(inner: &Inner, room_id: &Uuid) -> (r: Option<(Uuid, Uuid)>)
    ensures
        r == host_addr(inner@, *room_id),
{
    match inner.rooms.get(room_id) {
        Some(r) => if !r.is_rh {
            Some((r.rh_device, r.rh_app_id))
        } else {
            None
        },
        None => None,
    }
}

/// A frame from a member to its room's host.
pub open spec fn host_frame(
    n: NodeModel,
    room_id: Uuid,
    msg_type: u8,
    body: Seq<u8>,
) -> Seq<OutboundModel> {
    match host_addr(n, room_id) {
        Some((dest_device, dest_app)) => seq![
            OutboundModel { dest_device, dest_app, msg_type, room_id, body },
        ],
        None => Seq::empty(),
    }
}

/// Queue a frame from a member to its room's host.
pub fn to_rh(
    inner: &Inner,
    room_id: &Uuid,
    msg_type: u8,
    body: Vec<u8>,
    outs: &mut Vec<Outbound>,
)
    ensures
        views(final(outs)@) == views(old(outs)@) + host_frame(inner@, *room_id, msg_type, body@),
{
    broadcast use crate::views::group_views;

    if let Some((dest_device, dest_app)) = rh_addr(inner, room_id) {
        outs.push(Outbound { dest_device, dest_app, msg_type, room_id: *room_id, body });
    }
    assert(views(outs@) =~= views(old(outs)@) + host_frame(inner@, *room_id, msg_type, body@));
}

/// The acknowledgement of our cursor; a host does not acknowledge itself.
pub open spec fn ack_frame(n: NodeModel, room_id: Uuid) -> Seq<OutboundModel> {
    host_frame(
        n,
        room_id,
        msg::ACK,
        be_bytes(contiguous(n.rooms[room_id].messages) as nat, 8),
    )
}

/// Queue the acknowledgement of our cursor to a room's host.
pub fn ack_to_rh(inner: &Inner, room_id: &Uuid, outs: &mut Vec<Outbound>)
    ensures
        views(final(outs)@) == views(old(outs)@) + ack_frame(inner@, *room_id),
{
    if let Some(room) = inner.rooms.get(room_id) {
        if !room.is_rh {
            let cursor: u64 = contiguous_seq(room);
            to_rh(inner, room_id, msg::ACK, encode_ack(cursor), outs);
            return ;
        }
    }
    assert(views(outs@) =~= views(old(outs)@) + ack_frame(inner@, *room_id));
}

/// Whether a frame comes from the device of a room's host.
pub open spec fn from_host(n: NodeModel, room_id: Uuid, owner: AppOwnerModel) -> bool {
    n.rooms.contains_key(room_id) && n.rooms[room_id].rh_device == owner.device_uuid
}

fn is_from_host(inner: &Inner, room_id: &Uuid, owner: &AppOwner) -> (r: bool)
    ensures
        r == from_host(inner@, *room_id, owner@),
{
    match inner.rooms.get(room_id) {
        Some(r) => uuid_eq(&r.rh_device, &owner.device_uuid),
        None => false,
    }
}

/// The step for `MSG`: only the device of the room's host is believed. A
/// message ahead of our cursor makes us ask for the gap; every message is
/// acknowledged.
pub open spec fn msg_step(n: NodeModel, env: EnvelopeModel, owner: Option<AppOwnerModel>) -> Step {
    match owner {
        None => ignored(n, "MSG from unresolved sender — dropped"@),
        Some(o) => match msg_of(env.body) {
            None => ignored(n, "MSG malformed"@),
            Some(m) => if !from_host(n, env.room_id, o) {
                ignored(n, "MSG not from our RH — dropped"@)
            } else {
                let prev = contiguous(n.rooms[env.room_id].messages);
                let node = applied(n, env.room_id, m.seq, m.sender_user, m.ts_ms, m.text);
                Step {
                    node,
                    detail: if is_new(n, env.room_id, m.seq) {
                        "MSG seq "@ + dec(m.seq as nat) + " applied"@
                    } else {
                        "MSG seq "@ + dec(m.seq as nat) + " duplicate — ignored"@
                    },
                    sent: (if m.seq > prev + 1 {
                        host_frame(
                            node,
                            env.room_id,
                            msg::HISTORY_REQ,
                            history_req_bytes(prev, 0),
                        )
                    } else {
                        Seq::empty()
                    }) + ack_frame(node, env.room_id),
                }
            },
        },
    }
}

/// Handle `MSG`.
pub fn handle_msg(
    inner: &mut Inner,
    env: &Envelope<'_>,
    owner: Option<&AppOwner>,
    outs: &mut Vec<Outbound>,
) -> (r: String)
    requires
        old(inner)@.wf(),
    ensures
        took(
            msg_step(old(inner)@, env@, owner_model(owner)),
            final(inner)@,
            r@,
            old(outs)@,
            final(outs)@,
        ),
        final(inner)@.wf(),
{
    assert(views(outs@) + Seq::<OutboundModel>::empty() =~= views(outs@));
    let Some(owner) = owner else {
        return "MSG from unresolved sender — dropped".to_owned();
    };
    let Some(m) = decode_msg(env.body) else {
        return "MSG malformed".to_owned();
    };
    if !is_from_host(inner, &env.room_id, owner) {
        return "MSG not from our RH — dropped".to_owned();
    }
    let prev: u64 = match inner.rooms.get(&env.room_id) {
        Some(r) => contiguous_seq(r),
        None => 0,
    };
    let fresh = apply_message(inner, &env.room_id, m.seq, m.sender_user, m.ts_ms, m.text);
    if m.seq > prev && m.seq - prev > 1 {
        to_rh(inner, &env.room_id, msg::HISTORY_REQ, encode_history_req(prev, 0), outs);
    }
    ack_to_rh(inner, &env.room_id, outs);
    assert(views(outs@) =~= views(old(outs)@) + msg_step(old(inner)@, env@, Some(owner@)).sent);
    if fresh {
        join3("MSG seq ", decimal(m.seq).as_str(), " applied")
    } else {
        join3("MSG seq ", decimal(m.seq).as_str(), " duplicate — ignored")
    }
}

// ── Acknowledgements at the host ─────────────────────────────────────────────

/// The highest number that a member has acknowledged.
pub open spec fn acked(room: RoomModel, user: Uuid) -> u64 {
    if room.member_acks.contains_key(user) {
        room.member_acks[user]
    } else {
        0
    }
}

/// A room in which a member has acknowledged `seq`; acknowledgements only grow.
pub open spec fn with_ack(room: RoomModel, user: Uuid, seq: u64) -> RoomModel {
    RoomModel {
        member_acks: room.member_acks.insert(
            user,
            if seq > acked(room, user) {
                seq
            } else {
                acked(room, user)
            },
        ),
        ..room
    }
}

/// The highest number that a member has acknowledged.
pub fn acked_seq(room: &RoomState, user: &Uuid) -> (r: u64)
    ensures
        r == acked(room@, *user),
{
    match room.member_acks.get(user) {
        Some(s) => *s,
        None => 0,
    }
}

fn raise_ack(room: &mut RoomState, user: Uuid, seq: u64)
    ensures
        final(room)@ == with_ack(old(room)@, user, seq),
{
    let cur: u64 = acked_seq(room, &user);
    room.member_acks.insert(
        user,
        if seq > cur {
            seq
        } else {
            cur
        },
    );
    assert(room@ =~= with_ack(old(room)@, user, seq));
}

/// The step for `ACK`: a member of a room that this node hosts acknowledges.
pub open spec fn ack_step(n: NodeModel, env: EnvelopeModel, owner: Option<AppOwnerModel>) -> Step {
    match owner {
        None => ignored(n, "ACK from unresolved sender — dropped"@),
        Some(o) => match ack_of(env.body) {
            None => ignored(n, "ACK malformed"@),
            Some(seq) => if !n.rooms.contains_key(env.room_id) {
                ignored(n, "ACK for unknown room"@)
            } else if !n.rooms[env.room_id].is_rh {
                ignored(n, "ACK ignored — we are not this room's RH"@)
            } else if !is_member(n.rooms[env.room_id].members, o.user_uuid) {
                ignored(n, "ACK from non-member — dropped"@)
            } else {
                ignored(
                    n.with_room(
                        env.room_id,
                        with_ack(n.rooms[env.room_id], o.user_uuid, seq),
                    ),
                    "ACK from "@ + o.label + " → seq "@ + dec(seq as nat),
                )
            },
        },
    }
}

/// Handle `ACK`.
pub fn handle_ack(inner: &mut Inner, env: &Envelope<'_>, owner: Option<&AppOwner>) -> (r: String)
    ensures
        final(inner)@ == ack_step(old(inner)@, env@, owner_model(owner)).node,
        r@ == ack_step(old(inner)@, env@, owner_model(owner)).detail,
        old(inner)@.wf() ==> final(inner)@.wf(),
{
    let Some(owner) = owner else {
        return "ACK from unresolved sender — dropped".to_owned();
    };
    let Some(seq) = decode_ack(env.body) else {
        return "ACK malformed".to_owned();
    };
    let Some(held) = inner.rooms.get(&env.room_id) else {
        return "ACK for unknown room".to_owned();
    };
    if !held.is_rh {
        return "ACK ignored — we are not this room's RH".to_owned();
    }
    if !has_member(&held.members, &owner.user_uuid) {
        return "ACK from non-member — dropped".to_owned();
    }
    let mut detail = join3("ACK from ", owner.label.as_str(), " → seq ");
    detail.append(decimal(seq).as_str());
    let Some(mut room) = inner.rooms.remove(&env.room_id) else {
        return detail;
    };
    raise_ack(&mut room, owner.user_uuid, seq);
    inner.rooms.insert(env.room_id, room);
    proof {
        let step = ack_step(old(inner)@, env@, Some(owner@));
        assert(inner@.rooms =~= step.node.rooms);
        assert(inner@ =~= step.node);
    }
    detail
}

// ── Replay at the host ───────────────────────────────────────────────────────

/// The messages of a history after a sequence number.
pub open spec fn after(ms: Seq<ChatMsgModel>, since: u64) -> Seq<ChatMsgModel>
    decreases ms.len(),
{
    if ms.len() == 0 {
        Seq::empty()
    } else if ms.last().seq > since {
        after(ms.drop_last(), since).push(ms.last())
    } else {
        after(ms.drop_last(), since)
    }
}

/// A kept message as it is sent again, without the poster's own identifier.
pub open spec fn resent(m: ChatMsgModel) -> DecodedMsgModel {
    DecodedMsgModel {
        seq: m.seq,
        sender_user: uuid_of_hex_or_zero(m.sender_user_hex),
        ts_ms: m.ts_ms,
        client_msg_id: zero_id(),
        text: m.text,
    }
}

/// The bodies of messages that are sent again.
pub open spec fn resent_bodies(ms: Seq<ChatMsgModel>) -> Seq<Seq<u8>> {
    Seq::new(ms.len(), |i: int| msg_bytes(resent(ms[i])))
}

fn resend_body(m: &ChatMsg) -> (r: Vec<u8>)
    ensures
        r@ == msg_bytes(resent(m@)),
{
    let sender = uuid_from_hex(m.sender_user_hex.as_str());
    encode_msg(m.seq, &sender, m.ts_ms, &zero_uuid(), m.text.as_str())
}

/// Messages sent again to one address.
pub open spec fn replay_frames(
    ms: Seq<ChatMsgModel>,
    room_id: Uuid,
    dest_device: Uuid,
    dest_app: Uuid,
) -> Seq<OutboundModel> {
    Seq::new(
        ms.len(),
        |i: int|
            OutboundModel {
                dest_device,
                dest_app,
                msg_type: msg::MSG,
                room_id,
                body: msg_bytes(resent(ms[i])),
            },
    )
}

/// Queue the messages of a history after a sequence number to one address.
pub fn replay_after(
    messages: &Vec<ChatMsg>,
    since: u64,
    room_id: &Uuid,
    dev: &Uuid,
    app: &Uuid,
    outs: &mut Vec<Outbound>,
)
    ensures
        views(final(outs)@) == views(old(outs)@) + replay_frames(
            after(views(messages@), since),
            *room_id,
            *dev,
            *app,
        ),
{
    broadcast use crate::views::group_views;

    let ghost all = views(messages@);
    let mut i: usize = 0;
    assert(all.take(0) =~= Seq::empty());
    assert(views(outs@) =~= views(outs@) + replay_frames(Seq::empty(), *room_id, *dev, *app));
    while i < messages.len()
        invariant
            i <= messages@.len(),
            all == views(messages@),
            views(outs@) == views(old(outs)@) + replay_frames(
                after(all.take(i as int), since),
                *room_id,
                *dev,
                *app,
            ),
        decreases messages@.len() - i,
    {
        broadcast use crate::views::group_views;

        proof {
            lemma_views_take(messages@, i as int);
        }
        if messages[i].seq > since {
            let body = resend_body(&messages[i]);
            outs.push(
                Outbound {
                    dest_device: *dev,
                    dest_app: *app,
                    msg_type: msg::MSG,
                    room_id: *room_id,
                    body,
                },
            );
        }
        assert(views(outs@) =~= views(old(outs)@) + replay_frames(
            after(all.take(i + 1), since),
            *room_id,
            *dev,
            *app,
        ));
        i += 1;
    }
    assert(all.take(i as int) =~= all);
}

/// What a member who announced themself gets: the messages after their cursor.
pub open spec fn replay(
    n: NodeModel,
    room_id: Uuid,
    member: Uuid,
    dev: Uuid,
    app: Uuid,
) -> Seq<OutboundModel> {
    if n.rooms.contains_key(room_id) && n.rooms[room_id].is_rh {
        let room = n.rooms[room_id];
        replay_frames(after(room.messages, acked(room, member)), room_id, dev, app)
    } else {
        Seq::empty()
    }
}

/// Replay the messages above a member's cursor to its User Agent's address, in
/// ascending order.
pub fn replay_to_member(
    inner: &Inner,
    room_id: &Uuid,
    member: &Uuid,
    dev: &Uuid,
    app: &Uuid,
    outs: &mut Vec<Outbound>,
)
    requires
        inner@.wf(),
    ensures
        views(final(outs)@) == views(old(outs)@) + replay(inner@, *room_id, *member, *dev, *app),
{
    if let Some(room) = inner.rooms.get(room_id) {
        if room.is_rh {
            let cursor: u64 = acked_seq(room, member);
            replay_after(&room.messages, cursor, room_id, dev, app, outs);
            return ;
        }
    }
    assert(views(outs@) =~= views(old(outs)@) + replay(inner@, *room_id, *member, *dev, *app));
}

/// Whether a user is a member of a room that this node hosts.
pub open spec fn hosts_member(n: NodeModel, room_id: Uuid, user: Uuid) -> bool {
    n.rooms.contains_key(room_id) && n.rooms[room_id].is_rh && is_member(
        n.rooms[room_id].members,
        user,
    )
}

/// The members with the first entry of a user marked present.
pub open spec fn marked_present(members: Seq<MemberModel>, user: Uuid) -> Seq<MemberModel> {
    let i = member_index(members, user);
    members.update(i, MemberModel { present: true, ..members[i] })
}

/// A hosted room after a member announced themself with a cursor.
pub open spec fn greeted(room: RoomModel, user: Uuid, seq: u64) -> RoomModel {
    with_ack(with_members(room, marked_present(room.members, user)), user, seq)
}

/// What an announcement of several rooms leads to: the node, the replayed
/// messages, and how many rooms it concerned.
pub open spec fn greetings(
    n: NodeModel,
    user: Uuid,
    dev: Uuid,
    app: Uuid,
    rooms: Seq<Cursor>,
) -> (NodeModel, Seq<OutboundModel>, nat)
    decreases rooms.len(),
{
    if rooms.len() == 0 {
        (n, Seq::empty(), 0)
    } else {
        let (m, sent, touched) = greetings(n, user, dev, app, rooms.drop_last());
        let (room_id, seq) = rooms.last();
        if hosts_member(m, room_id, user) {
            let next = m.with_room(room_id, greeted(m.rooms[room_id], user, seq));
            (next, sent + replay(next, room_id, user, dev, app), touched + 1)
        } else {
            (m, sent, touched)
        }
    }
}

/// The step for `HELLO`: in each announced room that this node hosts and that
/// the sender belongs to, the sender is marked present and gets what it lacks.
pub open spec fn hello_step(
    n: NodeModel,
    env: EnvelopeModel,
    owner: Option<AppOwnerModel>,
) -> Step {
    match owner {
        None => ignored(n, "HELLO from unresolved sender — dropped"@),
        Some(o) => match hello_of(env.body) {
            None => ignored(n, "HELLO malformed"@),
            Some((dev, app, rooms)) => {
                let (node, sent, touched) = greetings(n, o.user_uuid, dev, app, rooms);
                Step {
                    node,
                    detail: if touched > 0 {
                        "HELLO from "@ + o.label + " — present + replayed in "@ + dec(touched)
                            + " room(s)"@
                    } else {
                        "HELLO from "@ + o.label + " — no matching room we host"@
                    },
                    sent,
                }
            },
        },
    }
}

fn greet(inner: &mut Inner, room_id: &Uuid, user: &Uuid, seq: u64) -> (r: bool)
    requires
        old(inner)@.wf(),
    ensures
        r == hosts_member(old(inner)@, *room_id, *user),
        final(inner)@ == if r {
            old(inner)@.with_room(*room_id, greeted(old(inner)@.rooms[*room_id], *user, seq))
        } else {
            old(inner)@
        },
        final(inner)@.wf(),
{
    let ghost n = inner@;
    let i: usize = match inner.rooms.get(room_id) {
        Some(held) => {
            if !held.is_rh {
                return false;
            }
            match find_member(&held.members, user) {
                Some(i) => i,
                None => {
                    return false;
                },
            }
        },
        None => {
            return false;
        },
    };
    let Some(mut room) = inner.rooms.remove(room_id) else {
        return false;
    };
    let mut m = room.members[i].clone();
    m.present = true;
    room.members.set(i, m);
    proof {
        let old_room = n.rooms[*room_id];
        assert(views(room.members@) =~= marked_present(old_room.members, *user));
        assert(room@ =~= with_members(old_room, marked_present(old_room.members, *user)));
    }
    raise_ack(&mut room, *user, seq);
    inner.rooms.insert(*room_id, room);
    proof {
        let next = n.with_room(*room_id, greeted(n.rooms[*room_id], *user, seq));
        assert(inner@.rooms =~= next.rooms);
        assert(inner@ =~= next);
    }
    true
}

/// Handle `HELLO`.
pub fn handle_hello(
    inner: &mut Inner,
    env: &Envelope<'_>,
    owner: Option<&AppOwner>,
    outs: &mut Vec<Outbound>,
) -> (r: String)
    requires
        old(inner)@.wf(),
    ensures
        took(
            hello_step(old(inner)@, env@, owner_model(owner)),
            final(inner)@,
            r@,
            old(outs)@,
            final(outs)@,
        ),
        final(inner)@.wf(),
{
    assert(views(outs@) + Seq::<OutboundModel>::empty() =~= views(outs@));
    let Some(owner) = owner else {
        return "HELLO from unresolved sender — dropped".to_owned();
    };
    let Some((dev, app, rooms)) = decode_hello(env.body) else {
        return "HELLO malformed".to_owned();
    };
    let ghost n = inner@;
    let ghost user = owner.user_uuid;
    let mut touched: u64 = 0;
    let mut i: usize = 0;
    assert(rooms@.take(0) =~= Seq::empty());
    while i < rooms.len()
        invariant
            i <= rooms@.len(),
            touched <= i,
            user == owner.user_uuid,
            inner@.wf(),
            inner@ == greetings(n, user, dev, app, rooms@.take(i as int)).0,
            views(outs@) == views(old(outs)@) + greetings(
                n,
                user,
                dev,
                app,
                rooms@.take(i as int),
            ).1,
            touched == greetings(n, user, dev, app, rooms@.take(i as int)).2,
        decreases rooms@.len() - i,
    {
        let (room_id, seq) = rooms[i];
        proof {
            assert(rooms@.take(i + 1).drop_last() =~= rooms@.take(i as int));
            assert(rooms@.take(i + 1).last() == rooms@[i as int]);
        }
        if greet(inner, &room_id, &owner.user_uuid, seq) {
            replay_to_member(inner, &room_id, &owner.user_uuid, &dev, &app, outs);
            touched += 1;
        }
        assert(views(outs@) =~= views(old(outs)@) + greetings(
            n,
            user,
            dev,
            app,
            rooms@.take(i + 1),
        ).1);
        i += 1;
    }
    assert(rooms@.take(i as int) =~= rooms@);
    if touched > 0 {
        join5(
            "HELLO from ",
            owner.label.as_str(),
            " — present + replayed in ",
            decimal(touched).as_str(),
            " room(s)",
        )
    } else {
        join3("HELLO from ", owner.label.as_str(), " — no matching room we host")
    }
}

// ── History ──────────────────────────────────────────────────────────────────

/// The size of a `HISTORY_RESP` payload with these entries, envelope included.
pub open spec fn resp_size(entries: Seq<Seq<u8>>) -> nat
    decreases entries.len(),
{
    if entries.len() == 0 {
        (ENVELOPE_LEN + 8 + 8 + 1 + 2) as nat
    } else {
        resp_size(entries.drop_last()) + 2 + entries.last().len()
    }
}

/// How many entries go into one answer that already has the first `k`: as many
/// as fit one datagram, but at least one.
pub open spec fn chunk_len(entries: Seq<Seq<u8>>, k: int) -> int
    decreases entries.len() - k,
{
    if 0 <= k < entries.len() && (k == 0 || resp_size(entries.take(k + 1)) <= MAX_APP_PAYLOAD) {
        chunk_len(entries, k + 1)
    } else {
        k
    }
}

/// The messages that a request asks for: those after `since`, at most `max` of
/// them unless `max` is zero.
pub open spec fn requested(ms: Seq<ChatMsgModel>, since: u64, max: u16) -> Seq<ChatMsgModel> {
    let all = after(ms, since);
    if max == 0 || all.len() <= max {
        all
    } else {
        all.take(max as int)
    }
}

/// The messages that one answer carries.
pub open spec fn chunk(ms: Seq<ChatMsgModel>, since: u64, max: u16) -> Seq<ChatMsgModel> {
    let asked = requested(ms, since, max);
    asked.take(chunk_len(resent_bodies(asked), 0))
}

/// The highest number that an answer carries, `since` when it carries none.
pub open spec fn chunk_to(ms: Seq<ChatMsgModel>, since: u64, max: u16) -> u64 {
    let c = chunk(ms, since, max);
    if c.len() == 0 {
        since
    } else {
        c.last().seq
    }
}

/// The body of the answer to a history request.
pub open spec fn history_answer(ms: Seq<ChatMsgModel>, since: u64, max: u16) -> Seq<u8> {
    let to = chunk_to(ms, since, max);
    history_resp_bytes(
        since,
        to,
        to < highest_seq(ms),
        resent_bodies(chunk(ms, since, max)),
    )
}

/// The step for `HISTORY_REQ`: a member of a room that this node hosts gets the
/// messages after a number, as many as fit one datagram.
pub open spec fn history_req_step(
    n: NodeModel,
    env: EnvelopeModel,
    owner: Option<AppOwnerModel>,
) -> Step {
    match owner {
        None => ignored(n, "HISTORY_REQ from unresolved sender — dropped"@),
        Some(o) => match history_req_of(env.body) {
            None => ignored(n, "HISTORY_REQ malformed"@),
            Some((since, max)) => if !n.rooms.contains_key(env.room_id) {
                ignored(n, "HISTORY_REQ for unknown room"@)
            } else if !n.rooms[env.room_id].is_rh {
                ignored(n, "HISTORY_REQ ignored — we are not this room's RH"@)
            } else if !is_member(n.rooms[env.room_id].members, o.user_uuid) {
                ignored(n, "HISTORY_REQ from non-member — dropped"@)
            } else {
                let ms = n.rooms[env.room_id].messages;
                Step {
                    node: n,
                    detail: "HISTORY_REQ since "@ + dec(since as nat) + " → replied "@ + dec(
                        chunk(ms, since, max).len(),
                    ) + " entries (more="@ + bool_word(
                        chunk_to(ms, since, max) < highest_seq(ms),
                    ) + ")"@,
                    sent: frame_to(
                        n.directory,
                        o.user_uuid,
                        msg::HISTORY_RESP,
                        env.room_id,
                        history_answer(ms, since, max),
                    ),
                }
            },
        },
    }
}

/// The highest number of a history, 0 when it is empty.
pub fn top_seq(ms: &Vec<ChatMsg>) -> (r: u64)
    ensures
        r == highest_seq(views(ms@)),
{
    let ghost all = views(ms@);
    let mut best: u64 = 0;
    let mut i: usize = 0;
    assert(all.take(0) =~= Seq::empty());
    while i < ms.len()
        invariant
            i <= ms@.len(),
            all == views(ms@),
            best == highest_seq(all.take(i as int)),
        decreases ms@.len() - i,
    {
        proof {
            lemma_views_take(ms@, i as int);
        }
        if ms[i].seq > best {
            best = ms[i].seq;
        }
        i += 1;
    }
    assert(all.take(i as int) =~= all);
    best
}

/// The places of the messages that a request asks for.
fn list_requested(ms: &Vec<ChatMsg>, since: u64, max: u16) -> (r: Vec<usize>)
    ensures
        r@.len() == requested(views(ms@), since, max).len(),
        forall|j: int|
            0 <= j < r@.len() ==> (#[trigger] r@[j]) < ms@.len() && ms@[r@[j] as int]@
                == requested(views(ms@), since, max)[j],
{
    let ghost all = views(ms@);
    let mut out: Vec<usize> = Vec::new();
    let mut i: usize = 0;
    assert(all.take(0) =~= Seq::empty());
    while i < ms.len()
        invariant
            i <= ms@.len(),
            all == views(ms@),
            out@.len() == after(all.take(i as int), since).len(),
            forall|j: int|
                0 <= j < out@.len() ==> (#[trigger] out@[j]) < ms@.len() && ms@[out@[j] as int]@
                    == after(all.take(i as int), since)[j],
        decreases ms@.len() - i,
    {
        proof {
            lemma_views_take(ms@, i as int);
        }
        if ms[i].seq > since {
            out.push(i);
        }
        i += 1;
    }
    assert(all.take(i as int) =~= all);
    if max != 0 && out.len() > max as usize {
        out.truncate(max as usize);
    }
    out
}

/// Build the answer to a history request: its entries, and the highest number
/// among them.
fn build_chunk(ms: &Vec<ChatMsg>, since: u64, max: u16) -> (r: (Vec<Vec<u8>>, u64))
    ensures
        views(r.0@) == resent_bodies(chunk(views(ms@), since, max)),
        r.1 == chunk_to(views(ms@), since, max),
{
    broadcast use crate::views::group_views;

    let ghost asked = requested(views(ms@), since, max);
    let ghost bodies = resent_bodies(asked);
    let places = list_requested(ms, since, max);
    let mut entries: Vec<Vec<u8>> = Vec::new();
    let mut size: usize = ENVELOPE_LEN + 8 + 8 + 1 + 2;
    let mut to: u64 = since;
    let mut full = false;
    assert(bodies.take(0) =~= Seq::empty());
    while !full && entries.len() < places.len()
        invariant
            asked == requested(views(ms@), since, max),
            bodies == resent_bodies(asked),
            places@.len() == asked.len(),
            forall|j: int|
                0 <= j < places@.len() ==> (#[trigger] places@[j]) < ms@.len()
                    && ms@[places@[j] as int]@ == asked[j],
            entries@.len() <= asked.len(),
            views(entries@) == bodies.take(entries@.len() as int),
            chunk_len(bodies, 0) == if full {
                entries@.len() as int
            } else {
                chunk_len(bodies, entries@.len() as int)
            },
            size == resp_size(bodies.take(entries@.len() as int)) || (size > MAX_APP_PAYLOAD
                && resp_size(bodies.take(entries@.len() as int)) > MAX_APP_PAYLOAD),
            to == if entries@.len() == 0 {
                since
            } else {
                asked[entries@.len() - 1].seq
            },
        decreases places@.len() - entries@.len() + if full {
            0int
        } else {
            1
        },
    {
        broadcast use crate::views::group_views;

        let ghost k = entries@.len() as int;
        let m = &ms[places[entries.len()]];
        let e = resend_body(m);
        proof {
            assert(bodies[k] == e@);
            assert(bodies.take(k + 1).drop_last() =~= bodies.take(k));
            assert(bodies.take(k + 1).last() == e@);
            assert(bodies.take(k).push(e@) =~= bodies.take(k + 1));
        }
        let over = size > MAX_APP_PAYLOAD || e.len() > MAX_APP_PAYLOAD || size + 2 + e.len()
            > MAX_APP_PAYLOAD;
        if over && entries.len() > 0 {
            full = true;
        } else {
            size = if over {
                MAX_APP_PAYLOAD + 1
            } else {
                size + 2 + e.len()
            };
            to = m.seq;
            entries.push(e);
        }
    }
    proof {
        let k = entries@.len() as int;
        assert(k == chunk_len(bodies, 0));
        assert(resent_bodies(asked.take(k)) =~= bodies.take(k));
    }
    (entries, to)
}

/// Handle `HISTORY_REQ`.
pub fn handle_history_req(
    inner: &Inner,
    env: &Envelope<'_>,
    owner: Option<&AppOwner>,
    outs: &mut Vec<Outbound>,
) -> (r: String)
    requires
        inner@.wf(),
    ensures
        took(
            history_req_step(inner@, env@, owner_model(owner)),
            inner@,
            r@,
            old(outs)@,
            final(outs)@,
        ),
{
    assert(views(outs@) + Seq::<OutboundModel>::empty() =~= views(outs@));
    let Some(owner) = owner else {
        return "HISTORY_REQ from unresolved sender — dropped".to_owned();
    };
    let Some((since, max)) = decode_history_req(env.body) else {
        return "HISTORY_REQ malformed".to_owned();
    };
    let Some(room) = inner.rooms.get(&env.room_id) else {
        return "HISTORY_REQ for unknown room".to_owned();
    };
    if !room.is_rh {
        return "HISTORY_REQ ignored — we are not this room's RH".to_owned();
    }
    if !has_member(&room.members, &owner.user_uuid) {
        return "HISTORY_REQ from non-member — dropped".to_owned();
    }
    let (entries, to) = build_chunk(&room.messages, since, max);
    assert(views(entries@).len() == chunk(room@.messages, since, max).len());
    let more = to < top_seq(&room.messages);
    let body = encode_history_resp(since, to, more, entries.as_slice());
    queue_to(
        &inner.directory,
        &owner.user_uuid,
        msg::HISTORY_RESP,
        &env.room_id,
        &body,
        outs,
    );
    join7(
        "HISTORY_REQ since ",
        decimal(since).as_str(),
        " → replied ",
        decimal(entries.len() as u64).as_str(),
        " entries (more=",
        bool_text(more),
        ")",
    )
}

/// The node after applying the entries of an answer, and how many were new.
/// An entry that does not decode is passed over.
pub open spec fn entries_applied(
    n: NodeModel,
    room_id: Uuid,
    entries: Seq<Seq<u8>>,
) -> (NodeModel, nat)
    decreases entries.len(),
{
    if entries.len() == 0 {
        (n, 0)
    } else {
        let (m, count) = entries_applied(n, room_id, entries.drop_last());
        match msg_of(entries.last()) {
            Some(d) => (
                applied(m, room_id, d.seq, d.sender_user, d.ts_ms, d.text),
                if is_new(m, room_id, d.seq) {
                    count + 1
                } else {
                    count
                },
            ),
            None => (m, count),
        }
    }
}

/// The step for `HISTORY_RESP`: only the device of the room's host is
/// believed. While there is more, the next part is asked for; the cursor is
/// acknowledged.
pub open spec fn history_resp_step(
    n: NodeModel,
    env: EnvelopeModel,
    owner: Option<AppOwnerModel>,
) -> Step {
    match owner {
        None => ignored(n, "HISTORY_RESP from unresolved sender — dropped"@),
        Some(o) => if !from_host(n, env.room_id, o) {
            ignored(n, "HISTORY_RESP not from our RH — dropped"@)
        } else {
            match history_resp_of(env.body) {
                None => ignored(n, "HISTORY_RESP malformed"@),
                Some((_, to, more, entries)) => {
                    let (node, count) = entries_applied(n, env.room_id, entries);
                    Step {
                        node,
                        detail: "HISTORY_RESP applied "@ + dec(count) + " (more="@ + bool_word(
                            more,
                        ) + ")"@,
                        sent: (if more {
                            host_frame(
                                node,
                                env.room_id,
                                msg::HISTORY_REQ,
                                history_req_bytes(to, 0),
                            )
                        } else {
                            Seq::empty()
                        }) + ack_frame(node, env.room_id),
                    }
                },
            }
        },
    }
}

fn apply_entries(inner: &mut Inner, room_id: &Uuid, entries: &Vec<Vec<u8>>) -> (r: u64)
    requires
        old(inner)@.wf(),
    ensures
        final(inner)@ == entries_applied(old(inner)@, *room_id, views(entries@)).0,
        r == entries_applied(old(inner)@, *room_id, views(entries@)).1,
        final(inner)@.wf(),
{
    let ghost n = inner@;
    let ghost all = views(entries@);
    let mut count: u64 = 0;
    let mut i: usize = 0;
    assert(all.take(0) =~= Seq::empty());
    while i < entries.len()
        invariant
            i <= entries@.len(),
            count <= i,
            all == views(entries@),
            inner@.wf(),
            inner@ == entries_applied(n, *room_id, all.take(i as int)).0,
            count == entries_applied(n, *room_id, all.take(i as int)).1,
        decreases entries@.len() - i,
    {
        proof {
            lemma_views_take(entries@, i as int);
        }
        if let Some(m) = decode_msg(entries[i].as_slice()) {
            if apply_message(inner, room_id, m.seq, m.sender_user, m.ts_ms, m.text) {
                count += 1;
            }
        }
        i += 1;
    }
    assert(all.take(i as int) =~= all);
    count
}

/// Handle `HISTORY_RESP`.
pub fn handle_history_resp(
    inner: &mut Inner,
    env: &Envelope<'_>,
    owner: Option<&AppOwner>,
    outs: &mut Vec<Outbound>,
) -> (r: String)
    requires
        old(inner)@.wf(),
    ensures
        took(
            history_resp_step(old(inner)@, env@, owner_model(owner)),
            final(inner)@,
            r@,
            old(outs)@,
            final(outs)@,
        ),
        final(inner)@.wf(),
{
    assert(views(outs@) + Seq::<OutboundModel>::empty() =~= views(outs@));
    let Some(owner) = owner else {
        return "HISTORY_RESP from unresolved sender — dropped".to_owned();
    };
    if !is_from_host(inner, &env.room_id, owner) {
        return "HISTORY_RESP not from our RH — dropped".to_owned();
    }
    let Some((_, to, more, entries)) = decode_history_resp(env.body) else {
        return "HISTORY_RESP malformed".to_owned();
    };
    let count: u64 = apply_entries(inner, &env.room_id, &entries);
    if more {
        to_rh(inner, &env.room_id, msg::HISTORY_REQ, encode_history_req(to, 0), outs);
    }
    ack_to_rh(inner, &env.room_id, outs);
    assert(views(outs@) =~= views(old(outs)@) + history_resp_step(
        old(inner)@,
        env@,
        Some(owner@),
    ).sent);
    join5(
        "HISTORY_RESP applied ",
        decimal(count).as_str(),
        " (more=",
        bool_text(more),
        ")",
    )
}

} // verus!
