//! Messages: ordered once, kept in order, never lost, and delivered in the end.

use crate::api::{lemma_nothing_after, member_retries};
use crate::bytes::{lemma_be_bytes_len, lemma_uuid_of_view, many_bytes, zero_id, Uuid};
use crate::codec::{entry_enc, envelope_bytes, envelope_of, hello_of, history_req_bytes};
use crate::codec::{history_req_of, history_resp_of, msg_bytes, msg_of, post_bytes, post_of};
use crate::codec::{Cursor, DecodedMsgModel, EnvelopeModel, ENVELOPE_LEN, MAX_APP_PAYLOAD};
use crate::frame::{frame_step, is_push, push_payload, push_sender};
use crate::messages::{ack_frame, ack_step, acked, after, applied, chunk, chunk_len, chunk_to};
use crate::messages::{contiguous, entries_applied, from_host, greeted, greetings, hello_step};
use crate::messages::{history_answer, history_resp_step, host_frame, hosts_member, is_new};
use crate::messages::{kept_msg, lemma_applied_wf, lemma_highest, lemma_with_msg, msg_step};
use crate::messages::{ordering, post_step, replay, requested, resent, resent_bodies, resp_size};
use crate::messages::{seq_left, slot, with_ack, with_msg};
use crate::msg;
use crate::packet::{packet_of, OP_PUSH};
use crate::rooms::{add_member_step, invite_step, is_member, leave_step, member_update_step};
use crate::rooms::{open_room_step, remove_member_step};
use crate::round_trip::{envelope_round_trip, fits_text, history_req_round_trip};
use crate::round_trip::{history_resp_round_trip, msg_round_trip, post_round_trip};
use crate::state::{ascending, has_seq, highest_seq, reach, AppOwnerModel, ChatMsgModel};
use crate::state::{NodeModel, OutboundModel, RoomModel, UserDirModel};
use crate::text::hex_round_trip;
use vstd::prelude::*;
use vstd::utf8::encode_utf8;

verus! {

// ── Applying ─────────────────────────────────────────────────────────────────

/// Applying a message a second time changes nothing, whatever it then says.
pub proof fn applying_twice_is_applying_once(
    n: NodeModel,
    room_id: Uuid,
    seq: u64,
    sender: Uuid,
    ts_ms: u64,
    text: Seq<char>,
    sender2: Uuid,
    ts2: u64,
    text2: Seq<char>,
)
    requires
        n.wf(),
    ensures
        ({
            let once = applied(n, room_id, seq, sender, ts_ms, text);
            applied(once, room_id, seq, sender2, ts2, text2) == once
        }),
{
    lemma_applied_wf(n, room_id, seq, sender, ts_ms, text);
}

/// Applying a new message keeps every message that was there.
pub proof fn applying_loses_nothing(
    n: NodeModel,
    room_id: Uuid,
    seq: u64,
    sender: Uuid,
    ts_ms: u64,
    text: Seq<char>,
    id: Uuid,
    i: int,
)
    requires
        n.wf(),
        n.rooms.contains_key(id),
        0 <= i < n.rooms[id].messages.len(),
    ensures
        applied(n, room_id, seq, sender, ts_ms, text).rooms.contains_key(id),
        applied(n, room_id, seq, sender, ts_ms, text).rooms[id].messages.contains(
            n.rooms[id].messages[i],
        ),
{
    let ms = n.rooms[id].messages;
    let out = applied(n, room_id, seq, sender, ts_ms, text).rooms[id].messages;
    if is_new(n, room_id, seq) && id == room_id {
        let k = slot(ms, seq);
        lemma_slot_bounds(ms, seq);
        if i < k {
            assert(out[i] == ms[i]);
        } else {
            assert(out[i + 1] == ms[i]);
        }
    } else {
        assert(out[i] == ms[i]);
    }
}

proof fn lemma_slot_bounds(ms: Seq<ChatMsgModel>, seq: u64)
    ensures
        0 <= slot(ms, seq) <= ms.len(),
    decreases ms.len(),
{
    if ms.len() > 0 {
        lemma_slot_bounds(ms.drop_last(), seq);
    }
}

/// A new message is in the history as it came, under the sender's identifier.
pub proof fn applied_message_is_kept(
    n: NodeModel,
    room_id: Uuid,
    seq: u64,
    sender: Uuid,
    ts_ms: u64,
    text: Seq<char>,
)
    requires
        is_new(n, room_id, seq),
    ensures
        applied(n, room_id, seq, sender, ts_ms, text).rooms[room_id].messages.contains(
            kept_msg(n, room_id, seq, sender, ts_ms, text),
        ),
{
    let ms = n.rooms[room_id].messages;
    let m = kept_msg(n, room_id, seq, sender, ts_ms, text);
    lemma_slot_bounds(ms, seq);
    assert(with_msg(ms, m)[slot(ms, seq)] == m);
}

// ── Ordering ─────────────────────────────────────────────────────────────────

/// A host hands out its numbers one after the other: what it orders gets the
/// next one, and the one after is next then. Every number handed out is in the
/// history.
pub proof fn numbers_are_consecutive(
    n: NodeModel,
    room_id: Uuid,
    sender: Uuid,
    cid: Uuid,
    text: Seq<char>,
    ts_ms: u64,
)
    requires
        n.wf(),
        seq_left(n, room_id),
    ensures
        ordering(n, room_id, sender, cid, text, ts_ms) matches Ok((after, _, seq)) ==> {
            &&& seq == n.rooms[room_id].next_seq
            &&& after.rooms[room_id].next_seq == seq + 1
            &&& has_seq(after.rooms[room_id].messages, seq)
            &&& forall|id: Uuid|
                id != room_id && n.rooms.contains_key(id) ==> #[trigger] after.rooms[id]
                    == n.rooms[id]
        },
{
    if n.rooms.contains_key(room_id) && n.rooms[room_id].is_rh {
        lemma_applied_wf(n, room_id, n.rooms[room_id].next_seq, sender, ts_ms, text);
    }
}

/// A post, as a frame.
pub open spec fn post_envelope(room_id: Uuid, cid: Uuid, text: Seq<char>) -> EnvelopeModel {
    EnvelopeModel { msg_type: msg::POST, room_id, body: post_bytes(cid, text) }
}

/// What a member posts, the host orders: under its own next number, in the
/// member's name, with the member's text.
pub proof fn posts_are_ordered(
    n: NodeModel,
    owner: AppOwnerModel,
    room_id: Uuid,
    cid: Uuid,
    text: Seq<char>,
    ts_ms: u64,
)
    requires
        fits_text(text),
        n.rooms.contains_key(room_id),
        n.rooms[room_id].is_rh,
        is_member(n.rooms[room_id].members, owner.user_uuid) || owner.own_user,
    ensures
        ({
            let step = post_step(n, post_envelope(room_id, cid, text), Some(owner), ts_ms);
            ordering(n, room_id, owner.user_uuid, cid, text, ts_ms) matches Ok((node, sent, _))
                && step.node == node && step.sent == sent
        }),
{
    post_round_trip(cid, text, Seq::empty());
    assert(post_bytes(cid, text) + Seq::<u8>::empty() =~= post_bytes(cid, text));
}

// ── Delivery to a member ─────────────────────────────────────────────────────

/// An ordered message, as a frame.
pub open spec fn msg_envelope(room_id: Uuid, m: DecodedMsgModel) -> EnvelopeModel {
    EnvelopeModel { msg_type: msg::MSG, room_id, body: msg_bytes(m) }
}

/// What a host sends, a member applies as it was sent, and acknowledges. A
/// message that it already has leaves its history as it is.
pub proof fn messages_are_delivered(
    n: NodeModel,
    owner: AppOwnerModel,
    room_id: Uuid,
    m: DecodedMsgModel,
)
    requires
        fits_text(m.text),
        from_host(n, room_id, owner),
    ensures
        ({
            let step = msg_step(n, msg_envelope(room_id, m), Some(owner));
            &&& step.node == applied(n, room_id, m.seq, m.sender_user, m.ts_ms, m.text)
            &&& !is_new(n, room_id, m.seq) ==> step.node == n
            &&& has_seq(step.node.rooms[room_id].messages, m.seq)
            &&& !n.rooms[room_id].is_rh ==> step.sent.len() >= 1 && step.sent.last().msg_type
                == msg::ACK && step.sent.last().dest_device == n.rooms[room_id].rh_device
        }),
{
    msg_round_trip(m, Seq::empty());
    assert(msg_bytes(m) + Seq::<u8>::empty() =~= msg_bytes(m));
    if is_new(n, room_id, m.seq) {
        applied_message_is_kept(n, room_id, m.seq, m.sender_user, m.ts_ms, m.text);
        let ms = applied(n, room_id, m.seq, m.sender_user, m.ts_ms, m.text).rooms[room_id].messages;
        let k = kept_msg(n, room_id, m.seq, m.sender_user, m.ts_ms, m.text);
        let i = choose|i: int| 0 <= i < ms.len() && ms[i] == k;
        assert(ms[i].seq == m.seq);
    }
}

/// A host neither acknowledges to itself nor asks itself for history.
pub proof fn host_does_not_ask_itself(n: NodeModel, room_id: Uuid, msg_type: u8, body: Seq<u8>)
    requires
        n.rooms.contains_key(room_id),
        n.rooms[room_id].is_rh,
    ensures
        host_frame(n, room_id, msg_type, body).len() == 0,
        ack_frame(n, room_id).len() == 0,
{
}

/// A kept message is sent again as it was first sent, but for the poster's own
/// identifier.
pub proof fn replay_is_faithful(
    n: NodeModel,
    room_id: Uuid,
    seq: u64,
    sender: Uuid,
    ts_ms: u64,
    text: Seq<char>,
)
    ensures
        resent(kept_msg(n, room_id, seq, sender, ts_ms, text)) == (DecodedMsgModel {
            seq,
            sender_user: sender,
            ts_ms,
            client_msg_id: zero_id(),
            text,
        }),
{
    hex_round_trip(sender);
}

/// The frame that a node hands to the daemon is the frame that the receiving
/// app gets pushed, under the sender's stamp.
pub proof fn frames_travel(token: Uuid, o: OutboundModel, sender: Uuid)
    ensures
        ({
            let packet = packet_of(token, o);
            let payload = packet.subrange(49, packet.len() as int);
            let pushed = seq![OP_PUSH] + sender@ + payload;
            &&& is_push(pushed)
            &&& push_sender(pushed) == sender
            &&& envelope_of(push_payload(pushed)) == Some(
                EnvelopeModel { msg_type: o.msg_type, room_id: o.room_id, body: o.body },
            )
        }),
{
    let packet = packet_of(token, o);
    let inner = envelope_bytes(o.msg_type, o.room_id, o.body);
    let payload = packet.subrange(49, packet.len() as int);
    assert(payload =~= inner);
    let pushed = seq![OP_PUSH] + sender@ + payload;
    assert(pushed.subrange(1, 17) =~= sender@);
    assert(push_payload(pushed) =~= inner);
    lemma_uuid_of_view(sender);
    envelope_round_trip(o.msg_type, o.room_id, o.body);
}

// ── Acknowledgements ─────────────────────────────────────────────────────────

/// An acknowledgement never lowers what a member has acknowledged, nor touches
/// another member's.
pub proof fn acknowledgements_only_grow(room: RoomModel, user: Uuid, seq: u64, other: Uuid)
    ensures
        acked(with_ack(room, user, seq), user) >= acked(room, user),
        acked(with_ack(room, user, seq), user) >= seq,
        acked(with_ack(room, user, seq), user) == seq || acked(with_ack(room, user, seq), user)
            == acked(room, user),
        other != user ==> acked(with_ack(room, user, seq), other) == acked(room, other),
        with_ack(room, user, seq).messages == room.messages,
{
}

/// Once a member has acknowledged the highest number, nothing is sent to it
/// again.
pub proof fn retries_stop(
    directory: Map<Uuid, UserDirModel>,
    room: RoomModel,
    user: Uuid,
    seq: u64,
)
    requires
        seq >= highest_seq(room.messages),
    ensures
        member_retries(directory, with_ack(room, user, seq), user).len() == 0,
{
    lemma_highest(room.messages);
    acknowledgements_only_grow(room, user, seq, user);
    lemma_nothing_after(room.messages, acked(with_ack(room, user, seq), user));
}

/// A message that goes to one address again.
pub open spec fn resent_frame(
    m: ChatMsgModel,
    room_id: Uuid,
    dest_device: Uuid,
    dest_app: Uuid,
) -> OutboundModel {
    OutboundModel {
        dest_device,
        dest_app,
        msg_type: msg::MSG,
        room_id,
        body: msg_bytes(resent(m)),
    }
}

/// Every message that a reachable member has not acknowledged is sent to it
/// again.
pub proof fn unacknowledged_messages_are_resent(
    directory: Map<Uuid, UserDirModel>,
    room: RoomModel,
    user: Uuid,
    m: ChatMsgModel,
    dev: Uuid,
    app: Uuid,
)
    requires
        room.messages.contains(m),
        m.seq > acked(room, user),
        reach(directory, user) == Some((dev, app)),
    ensures
        member_retries(directory, room, user).contains(resent_frame(m, room.room_id, dev, app)),
{
    let ms = after(room.messages, acked(room, user));
    after_is_everything_later(room.messages, acked(room, user), m);
    let i = choose|i: int| 0 <= i < ms.len() && ms[i] == m;
    assert(member_retries(directory, room, user)[i] == resent_frame(m, room.room_id, dev, app));
}

/// A member who announces themself with a cursor gets every later message, at
/// the address that they gave.
pub proof fn announced_member_gets_what_it_lacks(
    n: NodeModel,
    room_id: Uuid,
    user: Uuid,
    seq: u64,
    dev: Uuid,
    app: Uuid,
    m: ChatMsgModel,
)
    requires
        hosts_member(n, room_id, user),
        n.rooms[room_id].messages.contains(m),
        m.seq > seq,
        m.seq > acked(n.rooms[room_id], user),
    ensures
        greetings(n, user, dev, app, seq![(room_id, seq)]).1.contains(
            resent_frame(m, room_id, dev, app),
        ),
{
    let rooms = seq![(room_id, seq)];
    let room = greeted(n.rooms[room_id], user, seq);
    let next = n.with_room(room_id, room);
    let cursor = acked(room, user);
    let ms = after(room.messages, cursor);
    after_is_everything_later(room.messages, cursor, m);
    let i = choose|i: int| 0 <= i < ms.len() && ms[i] == m;
    assert(rooms.drop_last() =~= Seq::empty());
    reveal_with_fuel(greetings, 2);
    let sent = greetings(n, user, dev, app, rooms).1;
    assert(sent =~= replay(next, room_id, user, dev, app));
    assert(sent[i] == resent_frame(m, room_id, dev, app));
}

// ── History ──────────────────────────────────────────────────────────────────

/// The messages after a number are those with a higher one.
pub proof fn after_is_everything_later(ms: Seq<ChatMsgModel>, since: u64, m: ChatMsgModel)
    ensures
        after(ms, since).contains(m) <==> ms.contains(m) && m.seq > since,
    decreases ms.len(),
{
    if ms.len() > 0 {
        let front = ms.drop_last();
        let rest = after(front, since);
        let out = after(ms, since);
        after_is_everything_later(front, since, m);
        if ms.contains(m) && m.seq > since {
            let i = choose|i: int| 0 <= i < ms.len() && ms[i] == m;
            if i < front.len() {
                assert(front[i] == m);
                let j = choose|j: int| 0 <= j < rest.len() && rest[j] == m;
                assert(out[j] == m);
            } else {
                assert(out[rest.len() as int] == m);
            }
        }
        if out.contains(m) {
            let i = choose|i: int| 0 <= i < out.len() && out[i] == m;
            if i < rest.len() {
                assert(rest[i] == m);
                let j = choose|j: int| 0 <= j < front.len() && front[j] == m;
                assert(ms[j] == m);
            } else {
                assert(ms[ms.len() - 1] == m);
            }
        }
    }
}

proof fn lemma_front_ascending(ms: Seq<ChatMsgModel>)
    requires
        ascending(ms),
        ms.len() > 0,
    ensures
        ascending(ms.drop_last()),
{
    let front = ms.drop_last();
    assert forall|i: int, j: int| 0 <= i < j < front.len() implies (#[trigger] front[i]).seq < (
    #[trigger] front[j]).seq by {
        assert(ms[i].seq < ms[j].seq);
    }
}

proof fn lemma_after_ascending(ms: Seq<ChatMsgModel>, since: u64)
    requires
        ascending(ms),
    ensures
        ascending(after(ms, since)),
        forall|i: int| 0 <= i < after(ms, since).len() ==> (#[trigger] after(ms, since)[i]).seq
            > since,
        after(ms, since).len() > 0 ==> after(ms, since).last() == ms.last(),
    decreases ms.len(),
{
    if ms.len() > 0 {
        let front = ms.drop_last();
        lemma_front_ascending(ms);
        lemma_after_ascending(front, since);
        let rest = after(front, since);
        let out = after(ms, since);
        if ms.last().seq > since {
            assert forall|i: int, j: int| 0 <= i < j < out.len() implies (#[trigger] out[i]).seq
                < (#[trigger] out[j]).seq by {
                if j < rest.len() {
                    assert(rest[i].seq < rest[j].seq);
                } else {
                    assert(rest.contains(rest[i]));
                    after_is_everything_later(front, since, rest[i]);
                    let k = choose|k: int| 0 <= k < front.len() && front[k] == rest[i];
                    assert(ms[k].seq < ms[ms.len() - 1].seq);
                }
            }
        } else {
            if rest.len() > 0 {
                let l = front.len() - 1;
                assert(rest.last() == front.last());
                assert(rest[rest.len() - 1].seq > since);
                assert(ms[l].seq < ms[ms.len() - 1].seq);
            }
        }
    }
}

/// In an ascending history, what comes after the k-th of the later messages is
/// the rest of them.
proof fn lemma_after_splits(ms: Seq<ChatMsgModel>, since: u64, k: int)
    requires
        ascending(ms),
        0 < k <= after(ms, since).len(),
    ensures
        after(ms, since) == after(ms, since).take(k) + after(ms, after(ms, since)[k - 1].seq),
    decreases ms.len(),
{
    let front = ms.drop_last();
    let all = after(ms, since);
    let rest = after(front, since);
    lemma_after_ascending(ms, since);
    lemma_front_ascending(ms);
    lemma_after_ascending(front, since);
    if ms.last().seq > since {
        assert(all == rest.push(ms.last()));
        if k == all.len() {
            let to = ms.last().seq;
            assert(all[k - 1] == ms.last());
            assert forall|i: int| 0 <= i < ms.len() implies (#[trigger] ms[i]).seq <= to by {
                if i < ms.len() - 1 {
                    assert(ms[i].seq < ms[ms.len() - 1].seq);
                }
            }
            lemma_nothing_after(ms, to);
            assert(all.take(k) =~= all);
            assert(all =~= all.take(k) + after(ms, to));
        } else {
            lemma_after_splits(front, since, k);
            let to = rest[k - 1].seq;
            assert(all[k - 1] == rest[k - 1]);
            assert(all[k - 1].seq < all[all.len() - 1].seq);
            assert(after(ms, to) == after(front, to).push(ms.last()));
            assert(all.take(k) =~= rest.take(k));
            assert(all =~= all.take(k) + after(ms, to));
        }
    } else {
        lemma_after_splits(front, since, k);
        let to = all[k - 1].seq;
        assert(all[k - 1].seq > since);
        assert(after(ms, to) == after(front, to));
    }
}

/// Where the entries of an answer end.
pub proof fn lemma_chunk_len(entries: Seq<Seq<u8>>, k: int)
    requires
        0 <= k <= entries.len(),
        k <= 1 || resp_size(entries.take(k)) <= MAX_APP_PAYLOAD,
    ensures
        k <= chunk_len(entries, k) <= entries.len(),
        chunk_len(entries, k) <= 1 || resp_size(entries.take(chunk_len(entries, k)))
            <= MAX_APP_PAYLOAD,
        entries.len() > 0 ==> chunk_len(entries, k) > 0,
    decreases entries.len() - k,
{
    if k < entries.len() && (k == 0 || resp_size(entries.take(k + 1)) <= MAX_APP_PAYLOAD) {
        lemma_chunk_len(entries, k + 1);
    }
}

/// The messages of an answer are the first of those asked for.
pub proof fn lemma_chunk(ms: Seq<ChatMsgModel>, since: u64, max: u16)
    ensures
        ({
            let all = after(ms, since);
            let c = chunk(ms, since, max);
            &&& c.len() <= all.len()
            &&& c == all.take(c.len() as int)
            &&& all.len() > 0 ==> c.len() > 0
            &&& c.len() <= 1 || resp_size(resent_bodies(c)) <= MAX_APP_PAYLOAD
        }),
{
    let all = after(ms, since);
    let asked = requested(ms, since, max);
    let bodies = resent_bodies(asked);
    lemma_chunk_len(bodies, 0);
    let k = chunk_len(bodies, 0);
    let c = chunk(ms, since, max);
    assert(c =~= all.take(c.len() as int));
    assert(resent_bodies(c) =~= bodies.take(k));
}

/// Each answer to a history request takes the next part of what was asked for,
/// and what comes after its last number is exactly what is left: nothing is
/// skipped, and nothing comes twice.
pub proof fn history_comes_in_full(ms: Seq<ChatMsgModel>, since: u64, max: u16)
    requires
        ascending(ms),
    ensures
        after(ms, since) == chunk(ms, since, max) + after(ms, chunk_to(ms, since, max)),
{
    let all = after(ms, since);
    let c = chunk(ms, since, max);
    lemma_chunk(ms, since, max);
    if c.len() > 0 {
        assert(c.last() == all[c.len() - 1]);
        lemma_after_splits(ms, since, c.len() as int);
    } else {
        assert(all =~= c + after(ms, since));
    }
}

/// An answer says that there is more exactly when something is left, and then
/// it has made progress: asking on until there is no more ends, with everything
/// delivered.
pub proof fn history_ends(ms: Seq<ChatMsgModel>, since: u64, max: u16)
    requires
        ascending(ms),
    ensures
        ({
            let to = chunk_to(ms, since, max);
            &&& to < highest_seq(ms) <==> after(ms, to).len() > 0
            &&& to < highest_seq(ms) ==> to > since
        }),
{
    let to = chunk_to(ms, since, max);
    lemma_chunk(ms, since, max);
    lemma_after_ascending(ms, since);
    lemma_highest(ms);
    if to >= highest_seq(ms) {
        lemma_nothing_after(ms, to);
    } else {
        let h = highest_seq(ms);
        let i = choose|i: int| 0 <= i < ms.len() && (#[trigger] ms[i]).seq == h;
        assert(ms.contains(ms[i]));
        after_is_everything_later(ms, to, ms[i]);
        if to == since {
            let c = chunk(ms, since, max);
            if c.len() > 0 {
                assert(c.last() == after(ms, since)[c.len() - 1]);
            }
        }
    }
    if to < since {
        let c = chunk(ms, since, max);
        assert(c.last() == after(ms, since)[c.len() - 1]);
    }
}

/// How many bytes the entries of an answer take.
pub proof fn lemma_entries_len(entries: Seq<Seq<u8>>)
    ensures
        resp_size(entries) == ENVELOPE_LEN + 19 + many_bytes(entry_enc(), entries).len(),
    decreases entries.len(),
{
    if entries.len() > 0 {
        lemma_entries_len(entries.drop_last());
        lemma_be_bytes_len(entries.last().len(), 2);
    }
}

/// An answer to a history request fits one datagram, unless it carries a single
/// message that alone does not.
pub proof fn history_fits_one_datagram(
    ms: Seq<ChatMsgModel>,
    since: u64,
    max: u16,
    room_id: Uuid,
)
    ensures
        chunk(ms, since, max).len() <= 1 || envelope_bytes(
            msg::HISTORY_RESP,
            room_id,
            history_answer(ms, since, max),
        ).len() <= MAX_APP_PAYLOAD,
{
    let c = chunk(ms, since, max);
    let to = chunk_to(ms, since, max);
    lemma_chunk(ms, since, max);
    lemma_entries_len(resent_bodies(c));
    lemma_be_bytes_len(since as nat, 8);
    lemma_be_bytes_len(to as nat, 8);
    lemma_be_bytes_len(c.len(), 2);
}

proof fn lemma_entry_count(entries: Seq<Seq<u8>>)
    ensures
        resp_size(entries) >= 2 * entries.len(),
    decreases entries.len(),
{
    if entries.len() > 0 {
        lemma_entry_count(entries.drop_last());
    }
}

/// The answer to a history request decodes to the numbers it spans and the
/// bodies of its messages, and each body decodes to its message.
pub proof fn history_is_readable(ms: Seq<ChatMsgModel>, since: u64, max: u16)
    requires
        forall|i: int|
            0 <= i < ms.len() ==> encode_utf8((#[trigger] ms[i]).text).len() < 0x1_0000 - 51,
    ensures
        history_resp_of(history_answer(ms, since, max)) == Some(
            (
                since,
                chunk_to(ms, since, max),
                chunk_to(ms, since, max) < highest_seq(ms),
                resent_bodies(chunk(ms, since, max)),
            ),
        ),
        forall|i: int|
            0 <= i < chunk(ms, since, max).len() ==> msg_of(
                #[trigger] resent_bodies(chunk(ms, since, max))[i],
            ) == Some(resent(chunk(ms, since, max)[i])),
{
    let c = chunk(ms, since, max);
    let bodies = resent_bodies(c);
    let to = chunk_to(ms, since, max);
    let all = after(ms, since);
    lemma_chunk(ms, since, max);
    assert forall|i: int| 0 <= i < c.len() implies encode_utf8((#[trigger] c[i]).text).len()
        < 0x1_0000 - 51 by {
        assert(c[i] == all[i]);
        assert(all.contains(all[i]));
        after_is_everything_later(ms, since, all[i]);
        let j = choose|j: int| 0 <= j < ms.len() && ms[j] == all[i];
        assert(ms[j].text == c[i].text);
    }
    assert forall|i: int| 0 <= i < bodies.len() implies (#[trigger] bodies[i]).len()
        < 0x1_0000 && msg_of(bodies[i]) == Some(resent(c[i])) by {
        let m = resent(c[i]);
        assert(encode_utf8(c[i].text).len() < 0x1_0000 - 51);
        lemma_be_bytes_len(m.seq as nat, 8);
        lemma_be_bytes_len(m.ts_ms as nat, 8);
        lemma_be_bytes_len(encode_utf8(m.text).len(), 2);
        msg_round_trip(m, Seq::empty());
        assert(msg_bytes(m) + Seq::<u8>::empty() =~= msg_bytes(m));
    }
    lemma_entry_count(bodies);
    assert(bodies.len() < 0x1_0000);
    let answer = history_answer(ms, since, max);
    history_resp_round_trip(since, to, to < highest_seq(ms), bodies, Seq::empty());
    assert(answer + Seq::<u8>::empty() =~= answer);
}

/// The answer to a history request, as a frame.
pub open spec fn history_envelope(
    room_id: Uuid,
    ms: Seq<ChatMsgModel>,
    since: u64,
    max: u16,
) -> EnvelopeModel {
    EnvelopeModel {
        msg_type: msg::HISTORY_RESP,
        room_id,
        body: history_answer(ms, since, max),
    }
}

proof fn lemma_entries_held(n: NodeModel, room_id: Uuid, c: Seq<ChatMsgModel>)
    requires
        n.wf(),
        n.rooms.contains_key(room_id),
        forall|i: int|
            0 <= i < c.len() ==> msg_of(#[trigger] resent_bodies(c)[i]) == Some(resent(c[i])),
    ensures
        ({
            let node = entries_applied(n, room_id, resent_bodies(c)).0;
            &&& node.wf()
            &&& node.rooms.contains_key(room_id)
            &&& forall|i: int|
                0 <= i < c.len() ==> has_seq(
                    node.rooms[room_id].messages,
                    (#[trigger] c[i]).seq,
                )
        }),
    decreases c.len(),
{
    if c.len() > 0 {
        let front = c.drop_last();
        let bodies = resent_bodies(c);
        let m = resent(c.last());
        assert(bodies.drop_last() =~= resent_bodies(front));
        assert forall|i: int| 0 <= i < front.len() implies msg_of(
            #[trigger] resent_bodies(front)[i],
        ) == Some(resent(front[i])) by {
            assert(resent_bodies(front)[i] == bodies[i]);
            assert(front[i] == c[i]);
        }
        lemma_entries_held(n, room_id, front);
        let mid = entries_applied(n, room_id, resent_bodies(front)).0;
        let node = entries_applied(n, room_id, bodies).0;
        assert(bodies.last() == bodies[c.len() - 1]);
        assert(msg_of(bodies.last()) == Some(m));
        lemma_applied_wf(mid, room_id, m.seq, m.sender_user, m.ts_ms, m.text);
        assert forall|i: int| 0 <= i < c.len() implies has_seq(
            node.rooms[room_id].messages,
            (#[trigger] c[i]).seq,
        ) by {
            if i < front.len() {
                assert(front[i] == c[i]);
                assert(has_seq(mid.rooms[room_id].messages, c[i].seq));
                lemma_applied_keeps_seq(mid, room_id, m, c[i].seq);
            }
        }
    }
}

proof fn lemma_applied_keeps_seq(n: NodeModel, room_id: Uuid, m: DecodedMsgModel, s: u64)
    requires
        n.wf(),
        n.rooms.contains_key(room_id),
        has_seq(n.rooms[room_id].messages, s),
    ensures
        has_seq(
            applied(n, room_id, m.seq, m.sender_user, m.ts_ms, m.text).rooms[room_id].messages,
            s,
        ),
{
    if is_new(n, room_id, m.seq) {
        lemma_with_msg(
            n.rooms[room_id].messages,
            kept_msg(n, room_id, m.seq, m.sender_user, m.ts_ms, m.text),
        );
    }
}

/// A member who gets the host's answer holds every message in it afterwards.
/// While there is more, it asks on from where the answer ended.
pub proof fn history_is_taken_over(
    n: NodeModel,
    owner: AppOwnerModel,
    room_id: Uuid,
    ms: Seq<ChatMsgModel>,
    since: u64,
    max: u16,
)
    requires
        n.wf(),
        from_host(n, room_id, owner),
        forall|i: int|
            0 <= i < ms.len() ==> encode_utf8((#[trigger] ms[i]).text).len() < 0x1_0000 - 51,
    ensures
        ({
            let step = history_resp_step(
                n,
                history_envelope(room_id, ms, since, max),
                Some(owner),
            );
            let c = chunk(ms, since, max);
            let to = chunk_to(ms, since, max);
            &&& forall|i: int|
                0 <= i < c.len() ==> has_seq(
                    step.node.rooms[room_id].messages,
                    (#[trigger] c[i]).seq,
                )
            &&& to < highest_seq(ms) && !step.node.rooms[room_id].is_rh ==> step.sent.len() == 2
                && step.sent[0].msg_type == msg::HISTORY_REQ && history_req_of(step.sent[0].body)
                == Some((to, 0u16))
        }),
{
    history_is_readable(ms, since, max);
    lemma_entries_held(n, room_id, chunk(ms, since, max));
    let to = chunk_to(ms, since, max);
    history_req_round_trip(to, 0, Seq::empty());
    assert(history_req_bytes(to, 0) + Seq::<u8>::empty() =~= history_req_bytes(to, 0));
}

/// A message ahead of a member's cursor makes it ask the host for everything
/// after the cursor.
pub proof fn gaps_are_asked_for(
    n: NodeModel,
    owner: AppOwnerModel,
    room_id: Uuid,
    m: DecodedMsgModel,
)
    requires
        fits_text(m.text),
        from_host(n, room_id, owner),
        !n.rooms[room_id].is_rh,
        m.seq > contiguous(n.rooms[room_id].messages) + 1,
    ensures
        ({
            let step = msg_step(n, msg_envelope(room_id, m), Some(owner));
            &&& step.sent.len() == 2
            &&& step.sent[0].msg_type == msg::HISTORY_REQ
            &&& step.sent[0].dest_device == n.rooms[room_id].rh_device
            &&& history_req_of(step.sent[0].body) == Some(
                (contiguous(n.rooms[room_id].messages), 0u16),
            )
        }),
{
    let prev = contiguous(n.rooms[room_id].messages);
    msg_round_trip(m, Seq::empty());
    assert(msg_bytes(m) + Seq::<u8>::empty() =~= msg_bytes(m));
    history_req_round_trip(prev, 0, Seq::empty());
    assert(history_req_bytes(prev, 0) + Seq::<u8>::empty() =~= history_req_bytes(prev, 0));
}

// ── Nothing is lost ──────────────────────────────────────────────────────────

/// Whether every message of `a` is in `b`.
pub open spec fn keeps(a: Seq<ChatMsgModel>, b: Seq<ChatMsgModel>) -> bool {
    forall|i: int| 0 <= i < a.len() ==> b.contains(#[trigger] a[i])
}

/// Whether the rooms that both nodes hold have lost no message.
pub open spec fn keeps_histories(a: NodeModel, b: NodeModel) -> bool {
    forall|id: Uuid| #[trigger]
        a.rooms.contains_key(id) && b.rooms.contains_key(id) ==> keeps(
            a.rooms[id].messages,
            b.rooms[id].messages,
        )
}

proof fn lemma_keeps_self(a: Seq<ChatMsgModel>)
    ensures
        keeps(a, a),
{
}

proof fn lemma_applied_keeps(
    n: NodeModel,
    room_id: Uuid,
    seq: u64,
    sender: Uuid,
    ts_ms: u64,
    text: Seq<char>,
)
    requires
        n.wf(),
    ensures
        keeps_histories(n, applied(n, room_id, seq, sender, ts_ms, text)),
        forall|id: Uuid| #[trigger]
            n.rooms.contains_key(id) ==> applied(
                n,
                room_id,
                seq,
                sender,
                ts_ms,
                text,
            ).rooms.contains_key(id),
{
    let b = applied(n, room_id, seq, sender, ts_ms, text);
    assert forall|id: Uuid| #[trigger]
        n.rooms.contains_key(id) && b.rooms.contains_key(id) implies keeps(
        n.rooms[id].messages,
        b.rooms[id].messages,
    ) by {
        let ms = n.rooms[id].messages;
        assert forall|i: int| 0 <= i < ms.len() implies b.rooms[id].messages.contains(
            #[trigger] ms[i],
        ) by {
            applying_loses_nothing(n, room_id, seq, sender, ts_ms, text, id, i);
        }
    }
}

proof fn lemma_keeps_chain(a: NodeModel, b: NodeModel, c: NodeModel)
    requires
        keeps_histories(a, b),
        keeps_histories(b, c),
        forall|id: Uuid| #[trigger] a.rooms.contains_key(id) ==> b.rooms.contains_key(id),
    ensures
        keeps_histories(a, c),
{
    assert forall|id: Uuid| #[trigger]
        a.rooms.contains_key(id) && c.rooms.contains_key(id) implies keeps(
        a.rooms[id].messages,
        c.rooms[id].messages,
    ) by {
        let x = a.rooms[id].messages;
        let y = b.rooms[id].messages;
        let z = c.rooms[id].messages;
        assert(b.rooms.contains_key(id));
        assert(keeps(x, y) && keeps(y, z));
        assert forall|i: int| 0 <= i < x.len() implies z.contains(#[trigger] x[i]) by {
            assert(y.contains(x[i]));
            let j = choose|j: int| 0 <= j < y.len() && y[j] == x[i];
            assert(z.contains(y[j]));
        }
    }
}

proof fn lemma_entries_keep(n: NodeModel, room_id: Uuid, entries: Seq<Seq<u8>>)
    requires
        n.wf(),
    ensures
        entries_applied(n, room_id, entries).0.wf(),
        keeps_histories(n, entries_applied(n, room_id, entries).0),
        forall|id: Uuid| #[trigger]
            n.rooms.contains_key(id) ==> entries_applied(n, room_id, entries).0.rooms.contains_key(
                id,
            ),
    decreases entries.len(),
{
    if entries.len() > 0 {
        let (m, _) = entries_applied(n, room_id, entries.drop_last());
        lemma_entries_keep(n, room_id, entries.drop_last());
        if let Some(d) = msg_of(entries.last()) {
            lemma_applied_wf(m, room_id, d.seq, d.sender_user, d.ts_ms, d.text);
            lemma_applied_keeps(m, room_id, d.seq, d.sender_user, d.ts_ms, d.text);
            let c = applied(m, room_id, d.seq, d.sender_user, d.ts_ms, d.text);
            lemma_keeps_chain(n, m, c);
            assert forall|id: Uuid| #[trigger] n.rooms.contains_key(id) implies
                c.rooms.contains_key(id) by {
                assert(m.rooms.contains_key(id));
            }
        }
    } else {
        assert forall|id: Uuid| #[trigger] n.rooms.contains_key(id) implies keeps(
            n.rooms[id].messages,
            n.rooms[id].messages,
        ) by {
            lemma_keeps_self(n.rooms[id].messages);
        }
    }
}

/// Whether all histories that were there are there unchanged, or their rooms
/// are gone.
pub open spec fn same_histories(a: NodeModel, b: NodeModel) -> bool {
    forall|id: Uuid| #[trigger]
        a.rooms.contains_key(id) && b.rooms.contains_key(id) ==> a.rooms[id].messages
            == b.rooms[id].messages
}

/// Whether every room that was there is still there.
pub open spec fn same_rooms(a: NodeModel, b: NodeModel) -> bool {
    forall|id: Uuid| #[trigger] a.rooms.contains_key(id) ==> b.rooms.contains_key(id)
}

proof fn lemma_greetings_histories(
    n: NodeModel,
    user: Uuid,
    dev: Uuid,
    app: Uuid,
    rooms: Seq<Cursor>,
)
    ensures
        same_histories(n, greetings(n, user, dev, app, rooms).0),
        same_rooms(n, greetings(n, user, dev, app, rooms).0),
    decreases rooms.len(),
{
    if rooms.len() > 0 {
        lemma_greetings_histories(n, user, dev, app, rooms.drop_last());
    }
}

proof fn lemma_same_keeps(a: NodeModel, b: NodeModel)
    requires
        same_histories(a, b),
    ensures
        keeps_histories(a, b),
{
    assert forall|id: Uuid| #[trigger]
        a.rooms.contains_key(id) && b.rooms.contains_key(id) implies keeps(
        a.rooms[id].messages,
        b.rooms[id].messages,
    ) by {
        lemma_keeps_self(a.rooms[id].messages);
    }
}

proof fn lemma_room_steps_histories(
    n: NodeModel,
    env: EnvelopeModel,
    sender_id: Uuid,
    owner: Option<AppOwnerModel>,
    now: u64,
    fresh_id: Uuid,
)
    ensures
        !n.rooms.contains_key(fresh_id) ==> same_histories(
            n,
            open_room_step(n, env, sender_id, owner, fresh_id).node,
        ),
        same_rooms(n, open_room_step(n, env, sender_id, owner, fresh_id).node),
        same_histories(n, invite_step(n, env, owner, now).node),
        same_rooms(n, invite_step(n, env, owner, now).node),
        same_histories(n, add_member_step(n, env, owner).node),
        same_rooms(n, add_member_step(n, env, owner).node),
        same_histories(n, remove_member_step(n, env, owner).node),
        same_rooms(n, remove_member_step(n, env, owner).node),
        same_histories(n, leave_step(n, env, owner).node),
        same_rooms(n, leave_step(n, env, owner).node),
        same_histories(n, member_update_step(n, env, owner).node),
{
}

proof fn lemma_message_steps_histories(
    n: NodeModel,
    env: EnvelopeModel,
    owner: Option<AppOwnerModel>,
    ts_ms: u64,
)
    requires
        n.wf(),
    ensures
        keeps_histories(n, post_step(n, env, owner, ts_ms).node),
        same_rooms(n, post_step(n, env, owner, ts_ms).node),
        keeps_histories(n, msg_step(n, env, owner).node),
        same_rooms(n, msg_step(n, env, owner).node),
{
    lemma_same_keeps(n, n);
    if let (Some(o), Some((cid, text))) = (owner, post_of(env.body)) {
        if n.rooms.contains_key(env.room_id) {
            let seq = n.rooms[env.room_id].next_seq;
            let kept = applied(n, env.room_id, seq, o.user_uuid, ts_ms, text);
            lemma_applied_keeps(n, env.room_id, seq, o.user_uuid, ts_ms, text);
            let node = post_step(n, env, owner, ts_ms).node;
            if node != n {
                assert(same_histories(kept, node));
                lemma_same_keeps(kept, node);
                lemma_keeps_chain(n, kept, node);
            }
        }
    }
    if let Some(m) = msg_of(env.body) {
        lemma_applied_keeps(n, env.room_id, m.seq, m.sender_user, m.ts_ms, m.text);
    }
}

proof fn lemma_catch_up_steps_histories(
    n: NodeModel,
    env: EnvelopeModel,
    owner: Option<AppOwnerModel>,
)
    requires
        n.wf(),
    ensures
        same_histories(n, ack_step(n, env, owner).node),
        same_rooms(n, ack_step(n, env, owner).node),
        same_histories(n, hello_step(n, env, owner).node),
        same_rooms(n, hello_step(n, env, owner).node),
        keeps_histories(n, history_resp_step(n, env, owner).node),
        same_rooms(n, history_resp_step(n, env, owner).node),
{
    lemma_same_keeps(n, n);
    if let (Some(o), Some((dev, app, rooms))) = (owner, hello_of(env.body)) {
        lemma_greetings_histories(n, o.user_uuid, dev, app, rooms);
    }
    if let Some((_, _, _, entries)) = history_resp_of(env.body) {
        lemma_entries_keep(n, env.room_id, entries);
    }
}

/// No frame makes a node lose a message of a room that it goes on to hold, and
/// only a notice of membership makes it drop a room.
pub proof fn no_frame_loses_history(
    n: NodeModel,
    env: EnvelopeModel,
    sender_id: Uuid,
    owner: Option<AppOwnerModel>,
    now: u64,
    ts_ms: u64,
    fresh_id: Uuid,
)
    requires
        n.wf(),
        !n.rooms.contains_key(fresh_id),
    ensures
        keeps_histories(n, frame_step(n, env, sender_id, owner, now, ts_ms, fresh_id).node),
        env.msg_type != msg::MEMBER_UPDATE ==> same_rooms(
            n,
            frame_step(n, env, sender_id, owner, now, ts_ms, fresh_id).node,
        ),
{
    let t = env.msg_type;
    let node = frame_step(n, env, sender_id, owner, now, ts_ms, fresh_id).node;
    if t == msg::POST || t == msg::MSG {
        lemma_message_steps_histories(n, env, owner, ts_ms);
    } else if t == msg::HISTORY_RESP {
        lemma_catch_up_steps_histories(n, env, owner);
    } else {
        if t == msg::ACK || t == msg::HELLO {
            lemma_catch_up_steps_histories(n, env, owner);
        } else {
            lemma_room_steps_histories(n, env, sender_id, owner, now, fresh_id);
        }
        assert(same_histories(n, node));
        lemma_same_keeps(n, node);
    }
}

} // verus!
