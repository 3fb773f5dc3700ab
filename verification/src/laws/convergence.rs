//! Sending again converges: a member that takes what the host sends again has
//! everything, says so, and is then left alone.

use crate::api::member_retries;
use crate::bytes::Uuid;
use crate::codec::{ack_of, msg_bytes, DecodedMsgModel, EnvelopeModel};
use crate::frame::frame_step;
use crate::laws::delivery::{after_is_everything_later, keeps, keeps_histories};
use crate::laws::delivery::{messages_are_delivered, msg_envelope, no_frame_loses_history};
use crate::laws::delivery::retries_stop;
use crate::messages::{ack_frame, ack_step, acked, after, applied, contiguous};
use crate::messages::{contiguous_is_highest, from_host, hosts_member, is_new, kept_msg};
use crate::messages::{lemma_applied_wf, lemma_highest, lemma_with_msg, msg_step, replay_frames};
use crate::messages::resent;
use crate::msg;
use crate::round_trip::{ack_round_trip, fits_text, msg_round_trip};
use crate::state::{has_seq, highest_seq, reach, AppOwnerModel, ChatMsgModel, NodeModel};
use crate::state::{OutboundModel, RoomModel};
use vstd::prelude::*;

verus! {

/// A queued frame as its receiver decodes it.
pub open spec fn envelope_in(o: OutboundModel) -> EnvelopeModel {
    EnvelopeModel { msg_type: o.msg_type, room_id: o.room_id, body: o.body }
}

/// A member after it has taken the host's messages, one after the other.
pub open spec fn taken(
    n: NodeModel,
    owner: AppOwnerModel,
    frames: Seq<OutboundModel>,
) -> NodeModel
    decreases frames.len(),
{
    if frames.len() == 0 {
        n
    } else {
        msg_step(
            taken(n, owner, frames.drop_last()),
            envelope_in(frames.last()),
            Some(owner),
        ).node
    }
}

/// A number is in a history if it is in its front or is its last one.
proof fn lemma_has_seq_push(c: Seq<ChatMsgModel>, s: u64)
    requires
        c.len() > 0,
    ensures
        has_seq(c, s) <==> has_seq(c.drop_last(), s) || c.last().seq == s,
{
    let front = c.drop_last();
    if has_seq(front, s) {
        let i = choose|i: int| 0 <= i < front.len() && (#[trigger] front[i]).seq == s;
        assert(c[i].seq == s);
    }
    if c.last().seq == s {
        assert(c[c.len() - 1].seq == s);
    }
    if has_seq(c, s) {
        let i = choose|i: int| 0 <= i < c.len() && (#[trigger] c[i]).seq == s;
        if i < front.len() {
            assert(front[i].seq == s);
        }
    }
}

/// A member that takes messages again holds their numbers beside those it had,
/// and no others; the room's host stays the same.
proof fn lemma_taken(
    n: NodeModel,
    owner: AppOwnerModel,
    c: Seq<ChatMsgModel>,
    room_id: Uuid,
    dev: Uuid,
    app: Uuid,
)
    requires
        n.wf(),
        from_host(n, room_id, owner),
        !n.rooms[room_id].is_rh,
        forall|i: int| 0 <= i < c.len() ==> fits_text((#[trigger] c[i]).text),
    ensures
        ({
            let node = taken(n, owner, replay_frames(c, room_id, dev, app));
            &&& node.wf()
            &&& from_host(node, room_id, owner)
            &&& !node.rooms[room_id].is_rh
            &&& node.rooms[room_id].rh_app_id == n.rooms[room_id].rh_app_id
            &&& forall|s: u64| #[trigger]
                has_seq(node.rooms[room_id].messages, s) <==> has_seq(
                    n.rooms[room_id].messages,
                    s,
                ) || has_seq(c, s)
        }),
    decreases c.len(),
{
    let frames = replay_frames(c, room_id, dev, app);
    if c.len() > 0 {
        let front = c.drop_last();
        let m = resent(c.last());
        assert forall|i: int| 0 <= i < front.len() implies fits_text((#[trigger] front[i]).text) by {
            assert(front[i] == c[i]);
        }
        assert(fits_text(c[c.len() - 1].text));
        assert(frames.drop_last() =~= replay_frames(front, room_id, dev, app));
        assert(envelope_in(frames.last()) == msg_envelope(room_id, m));
        lemma_taken(n, owner, front, room_id, dev, app);
        let mid = taken(n, owner, frames.drop_last());
        let node = taken(n, owner, frames);
        messages_are_delivered(mid, owner, room_id, m);
        assert(node == applied(mid, room_id, m.seq, m.sender_user, m.ts_ms, m.text));
        lemma_applied_wf(mid, room_id, m.seq, m.sender_user, m.ts_ms, m.text);
        if is_new(mid, room_id, m.seq) {
            lemma_with_msg(
                mid.rooms[room_id].messages,
                kept_msg(mid, room_id, m.seq, m.sender_user, m.ts_ms, m.text),
            );
        }
        assert forall|s: u64| #[trigger]
            has_seq(node.rooms[room_id].messages, s) <==> has_seq(n.rooms[room_id].messages, s)
                || has_seq(c, s) by {
            lemma_has_seq_push(c, s);
            assert(has_seq(mid.rooms[room_id].messages, s) <==> has_seq(
                n.rooms[room_id].messages,
                s,
            ) || has_seq(front, s));
        }
    }
}

/// A history that holds every number up to `top` has a cursor of at least `top`.
proof fn lemma_cursor_reaches(ms: Seq<ChatMsgModel>, top: u64)
    requires
        forall|s: u64| 1 <= s <= top ==> #[trigger] has_seq(ms, s),
    ensures
        contiguous(ms) >= top,
{
    if contiguous(ms) < top {
        contiguous_is_highest(ms, top);
        assert(has_seq(ms, (contiguous(ms) + 1) as u64));
    }
}

/// Every number up to the highest is among what the host sends again, or the
/// member holds it already.
proof fn lemma_retries_cover(room: RoomModel, user: Uuid, held: Seq<ChatMsgModel>, s: u64)
    requires
        room.wf(),
        highest_seq(room.messages) < room.next_seq,
        forall|k: u64| 1 <= k <= acked(room, user) ==> #[trigger] has_seq(held, k),
        1 <= s <= highest_seq(room.messages),
    ensures
        has_seq(held, s) || has_seq(after(room.messages, acked(room, user)), s),
{
    let ms = room.messages;
    let rest = after(ms, acked(room, user));
    assert(has_seq(ms, s));
    let i = choose|i: int| 0 <= i < ms.len() && (#[trigger] ms[i]).seq == s;
    if s > acked(room, user) {
        assert(ms.contains(ms[i]));
        after_is_everything_later(ms, acked(room, user), ms[i]);
        let j = choose|j: int| 0 <= j < rest.len() && rest[j] == ms[i];
        assert(rest[j].seq == s);
    } else {
        assert(has_seq(held, s));
    }
}

proof fn lemma_retries_within(ms: Seq<ChatMsgModel>, since: u64)
    ensures
        forall|i: int| 0 <= i < after(ms, since).len() ==> ms.contains(
            #[trigger] after(ms, since)[i],
        ),
{
    let rest = after(ms, since);
    assert forall|i: int| 0 <= i < rest.len() implies ms.contains(#[trigger] rest[i]) by {
        assert(rest.contains(rest[i]));
        after_is_everything_later(ms, since, rest[i]);
    }
}

/// Sending again converges. Let a host send a member again what it has not
/// acknowledged, and let the member hold every number that the host has as
/// acknowledged. Once the member has taken those frames in order, it holds every
/// number up to the host's highest; its acknowledgement goes to the host and
/// carries that number (or a higher one, if the member holds still more); and
/// once the host has taken it, nothing is sent to the member again.
pub proof fn resending_converges(
    h: NodeModel,
    n: NodeModel,
    room_id: Uuid,
    user: Uuid,
    host: AppOwnerModel,
    member: AppOwnerModel,
)
    requires
        h.wf(),
        n.wf(),
        hosts_member(h, room_id, user),
        member.user_uuid == user,
        reach(h.directory, user) is Some,
        highest_seq(h.rooms[room_id].messages) < h.rooms[room_id].next_seq,
        forall|i: int|
            0 <= i < h.rooms[room_id].messages.len() ==> fits_text(
                (#[trigger] h.rooms[room_id].messages[i]).text,
            ),
        from_host(n, room_id, host),
        !n.rooms[room_id].is_rh,
        forall|s: u64|
            1 <= s <= acked(h.rooms[room_id], user) ==> #[trigger] has_seq(
                n.rooms[room_id].messages,
                s,
            ),
    ensures
        ({
            let room = h.rooms[room_id];
            let top = highest_seq(room.messages);
            let frames = member_retries(h.directory, room, user);
            let caught_up = taken(n, host, frames);
            let ack = ack_frame(caught_up, room_id);
            let told = ack_step(h, envelope_in(ack[0]), Some(member)).node;
            &&& forall|s: u64|
                1 <= s <= top ==> #[trigger] has_seq(caught_up.rooms[room_id].messages, s)
            &&& ack.len() == 1
            &&& ack[0].msg_type == msg::ACK
            &&& ack[0].room_id == room_id
            &&& ack[0].dest_device == n.rooms[room_id].rh_device
            &&& ack[0].dest_app == n.rooms[room_id].rh_app_id
            &&& ack_of(ack[0].body) matches Some(c) && c >= top && (!has_seq(
                n.rooms[room_id].messages,
                (top + 1) as u64,
            ) ==> c == top)
            &&& frames.len() > 0 ==> msg_step(
                taken(n, host, frames.drop_last()),
                envelope_in(frames.last()),
                Some(host),
            ).sent.last() == ack[0]
            &&& told.rooms.contains_key(room_id)
            &&& member_retries(told.directory, told.rooms[room_id], user).len() == 0
        }),
{
    let room = h.rooms[room_id];
    let ms = room.messages;
    let top = highest_seq(ms);
    let done = acked(room, user);
    let c = after(ms, done);
    let (dev, app) = reach(h.directory, user)->0;
    let frames = member_retries(h.directory, room, user);
    let node = taken(n, host, frames);
    let held = n.rooms[room_id].messages;
    lemma_retries_within(ms, done);
    assert forall|i: int| 0 <= i < c.len() implies fits_text((#[trigger] c[i]).text) by {
        let j = choose|j: int| 0 <= j < ms.len() && ms[j] == c[i];
        assert(fits_text(ms[j].text));
    }
    assert(frames == replay_frames(c, room_id, dev, app));
    lemma_taken(n, host, c, room_id, dev, app);
    let got = node.rooms[room_id].messages;
    assert forall|s: u64| 1 <= s <= top implies #[trigger] has_seq(got, s) by {
        lemma_retries_cover(room, user, held, s);
    }
    lemma_cursor_reaches(got, top);
    let cursor = contiguous(got);
    let next = (top + 1) as u64;
    if !has_seq(held, next) && cursor > top {
        contiguous_is_highest(got, next);
        assert(has_seq(got, next));
        let i = choose|i: int| 0 <= i < c.len() && (#[trigger] c[i]).seq == next;
        lemma_highest(ms);
        let j = choose|j: int| 0 <= j < ms.len() && ms[j] == c[i];
        assert(ms[j].seq <= top);
    }
    let ack = ack_frame(node, room_id);
    let body = ack[0].body;
    ack_round_trip(cursor, Seq::empty());
    assert(body + Seq::<u8>::empty() =~= body);
    if frames.len() > 0 {
        let mid = taken(n, host, frames.drop_last());
        let front = c.drop_last();
        let m = resent(c.last());
        assert(frames.drop_last() =~= replay_frames(front, room_id, dev, app));
        assert forall|i: int| 0 <= i < front.len() implies fits_text((#[trigger] front[i]).text) by {
            assert(front[i] == c[i]);
        }
        lemma_taken(n, host, front, room_id, dev, app);
        assert(fits_text(c[c.len() - 1].text));
        assert(envelope_in(frames.last()) == msg_envelope(room_id, m));
        messages_are_delivered(mid, host, room_id, m);
        let step = msg_step(mid, envelope_in(frames.last()), Some(host));
        lemma_msg_step_ends_in_ack(mid, host, room_id, m);
        assert(step.node == node);
    }
    let told = ack_step(h, envelope_in(ack[0]), Some(member)).node;
    retries_stop(h.directory, room, user, cursor);
}

/// A member's last answer to a message is the acknowledgement of its cursor.
proof fn lemma_msg_step_ends_in_ack(
    n: NodeModel,
    host: AppOwnerModel,
    room_id: Uuid,
    m: DecodedMsgModel,
)
    requires
        fits_text(m.text),
        from_host(n, room_id, host),
        !n.rooms[room_id].is_rh,
    ensures
        ({
            let step = msg_step(n, msg_envelope(room_id, m), Some(host));
            step.sent.len() >= 1 && step.sent.last() == ack_frame(step.node, room_id)[0]
        }),
{
    msg_round_trip(m, Seq::empty());
    let body = msg_bytes(m);
    assert(body + Seq::<u8>::empty() =~= body);
}

/// No frame lowers the cursor of a room that the node goes on to hold. So what a
/// member has once acknowledged or announced, it goes on to hold without a gap.
pub proof fn cursors_never_fall(
    n: NodeModel,
    env: EnvelopeModel,
    sender_id: Uuid,
    owner: Option<AppOwnerModel>,
    now: u64,
    ts_ms: u64,
    fresh_id: Uuid,
    id: Uuid,
)
    requires
        n.wf(),
        !n.rooms.contains_key(fresh_id),
        n.rooms.contains_key(id),
        frame_step(n, env, sender_id, owner, now, ts_ms, fresh_id).node.rooms.contains_key(id),
    ensures
        contiguous(n.rooms[id].messages) <= contiguous(
            frame_step(n, env, sender_id, owner, now, ts_ms, fresh_id).node.rooms[id].messages,
        ),
{
    let node = frame_step(n, env, sender_id, owner, now, ts_ms, fresh_id).node;
    no_frame_loses_history(n, env, sender_id, owner, now, ts_ms, fresh_id);
    lemma_kept_cursor(n, node, id);
}

proof fn lemma_kept_cursor(n: NodeModel, node: NodeModel, id: Uuid)
    requires
        keeps_histories(n, node),
        n.rooms.contains_key(id),
        node.rooms.contains_key(id),
    ensures
        contiguous(n.rooms[id].messages) <= contiguous(node.rooms[id].messages),
{
    let a = n.rooms[id].messages;
    let b = node.rooms[id].messages;
    assert(keeps(a, b));
    assert forall|s: u64| 1 <= s <= contiguous(a) implies #[trigger] has_seq(b, s) by {
        contiguous_is_highest(a, s);
        let i = choose|i: int| 0 <= i < a.len() && (#[trigger] a[i]).seq == s;
        assert(b.contains(a[i]));
        let j = choose|j: int| 0 <= j < b.len() && b[j] == a[i];
        assert(b[j].seq == s);
    }
    lemma_cursor_reaches(b, contiguous(a));
}

} // verus!
