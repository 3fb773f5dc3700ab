//! What a host sends of its own accord or on request: history, messages again,
//! invitations again.

use crate::api::{absent, all_retries, member_retries, reinvites_in, retries_in, room_frames};
use crate::bytes::{lemma_be_bytes_len, Uuid};
use crate::codec::{history_req_of, history_resp_of, msg_bytes, msg_of, EnvelopeModel};
use crate::codec::{ENVELOPE_LEN, MAX_APP_PAYLOAD};
use crate::laws::changes::{invitations_tell_of_the_room, invites};
use crate::laws::delivery::{history_ends, history_is_readable, lemma_chunk, lemma_chunk_len};
use crate::laws::delivery::{lemma_entries_len, unacknowledged_messages_are_resent};
use crate::laws::ordered::{after_is_a_filter, later, resend};
use crate::messages::{acked, after, chunk, chunk_len, chunk_to, history_answer, history_req_step};
use crate::messages::{lemma_highest, replay_frames, requested, resent, resent_bodies, resp_size};
use crate::msg;
use crate::rooms::is_member;
use crate::state::{ascending, has_seq, highest_seq, reach, AppOwnerModel, ChatMsgModel};
use crate::state::{MemberModel, NodeModel, OutboundModel, RoomModel, UserDirModel};
use vstd::prelude::*;
use vstd::utf8::encode_utf8;

verus! {

// ── What the words mean ──────────────────────────────────────────────────────

/// The user of a member.
pub open spec fn user_of() -> spec_fn(MemberModel) -> Uuid {
    |m: MemberModel| m.user_uuid
}

/// The number of a message.
pub open spec fn number_of() -> spec_fn(ChatMsgModel) -> u64 {
    |m: ChatMsgModel| m.seq
}

/// A member is whoever the list names, wherever it names them; a history has the
/// numbers of all its messages, wherever they stand.
pub proof fn lists_are_searched_in_full(
    members: Seq<MemberModel>,
    user: Uuid,
    ms: Seq<ChatMsgModel>,
    seq: u64,
)
    ensures
        is_member(members, user) <==> members.map_values(user_of()).contains(user),
        has_seq(ms, seq) <==> ms.map_values(number_of()).contains(seq),
{
    let us = members.map_values(user_of());
    let ns = ms.map_values(number_of());
    if is_member(members, user) {
        let i = choose|i: int|
            0 <= i < members.len() && (#[trigger] members[i]).user_uuid == user;
        assert(us[i] == user);
    }
    if us.contains(user) {
        let i = choose|i: int| 0 <= i < us.len() && us[i] == user;
        assert(members[i].user_uuid == user);
    }
    if has_seq(ms, seq) {
        let i = choose|i: int| 0 <= i < ms.len() && (#[trigger] ms[i]).seq == seq;
        assert(ns[i] == seq);
    }
    if ns.contains(seq) {
        let i = choose|i: int| 0 <= i < ns.len() && ns[i] == seq;
        assert(ms[i].seq == seq);
    }
}

/// A well-formed room holds its messages in strictly ascending order, remembers
/// the highest number, and holds every number that it has handed out.
pub proof fn well_formed_rooms_are_in_order(n: NodeModel, id: Uuid, i: int, j: int, s: u64)
    requires
        n.wf(),
        n.rooms.contains_key(id),
    ensures
        n.rooms[id].room_id == id,
        0 <= i < j < n.rooms[id].messages.len() ==> n.rooms[id].messages[i].seq
            < n.rooms[id].messages[j].seq,
        n.rooms[id].messages.len() > 0 ==> n.rooms[id].last_seq
            == n.rooms[id].messages.last().seq,
        n.rooms[id].messages.len() == 0 ==> n.rooms[id].last_seq == 0,
        1 <= s < n.rooms[id].next_seq ==> n.rooms[id].messages.map_values(number_of()).contains(s),
{
    let ms = n.rooms[id].messages;
    lists_are_searched_in_full(Seq::empty(), id, ms, s);
    lemma_highest(ms);
    if ms.len() > 0 {
        let last = ms.len() - 1;
        let h = highest_seq(ms);
        assert(ms[last].seq <= h);
        if h != 0 {
            let k = choose|k: int| 0 <= k < ms.len() && (#[trigger] ms[k]).seq == h;
            if k < last {
                assert(ms[k].seq < ms[last].seq);
            }
        }
    }
    if 1 <= s < n.rooms[id].next_seq {
        assert(has_seq(ms, s));
    }
}

// ── History on request ───────────────────────────────────────────────────────

/// Whether a body answers a request for the messages of a history after a
/// number: it carries the first `k` of them as they are kept, says where it
/// ended, and says whether there is more. It keeps to the requested count and to
/// one datagram, carries at least one message if there is one, and stops only at
/// the end, at the count, or where the next message does not fit.
pub open spec fn answers_request(
    body: Seq<u8>,
    ms: Seq<ChatMsgModel>,
    since: u64,
    max: u16,
    k: nat,
) -> bool {
    let asked = ms.filter(later(since));
    let to = if k == 0 {
        since
    } else {
        asked[k - 1].seq
    };
    &&& k <= asked.len()
    &&& history_resp_of(body) matches Some((f, t, more, entries)) && f == since && t == to && more
        == (ms.filter(later(to)).len() > 0) && entries.len() == k && forall|i: int|
        0 <= i < k ==> msg_of(#[trigger] entries[i]) == Some(resent(asked[i]))
    &&& max != 0 ==> k <= max
    &&& asked.len() > 0 ==> k > 0
    &&& k <= 1 || ENVELOPE_LEN + body.len() <= MAX_APP_PAYLOAD
    &&& 0 < k < asked.len() && (max == 0 || k < max) ==> ENVELOPE_LEN + body.len() + 2 + msg_bytes(
        resent(asked[k as int]),
    ).len() > MAX_APP_PAYLOAD
}

proof fn lemma_chunk_is_maximal(entries: Seq<Seq<u8>>, k: int)
    requires
        0 <= k <= entries.len(),
    ensures
        k <= chunk_len(entries, k) <= entries.len(),
        0 < chunk_len(entries, k) < entries.len() ==> resp_size(
            entries.take(chunk_len(entries, k) + 1),
        ) > MAX_APP_PAYLOAD,
    decreases entries.len() - k,
{
    if k < entries.len() && (k == 0 || resp_size(entries.take(k + 1)) <= MAX_APP_PAYLOAD) {
        lemma_chunk_is_maximal(entries, k + 1);
    }
}

/// The answer to a history request is what was asked for.
pub proof fn history_answer_is_exact(ms: Seq<ChatMsgModel>, since: u64, max: u16)
    requires
        ascending(ms),
        forall|i: int|
            0 <= i < ms.len() ==> encode_utf8((#[trigger] ms[i]).text).len() < 0x1_0000 - 51,
    ensures
        answers_request(
            history_answer(ms, since, max),
            ms,
            since,
            max,
            chunk(ms, since, max).len(),
        ),
{
    let asked = ms.filter(later(since));
    let c = chunk(ms, since, max);
    let to = chunk_to(ms, since, max);
    let wanted = requested(ms, since, max);
    let bodies = resent_bodies(wanted);
    let k = chunk_len(bodies, 0);
    let body = history_answer(ms, since, max);
    after_is_a_filter(ms, since);
    after_is_a_filter(ms, to);
    lemma_chunk(ms, since, max);
    lemma_chunk_len(bodies, 0);
    lemma_chunk_is_maximal(bodies, 0);
    history_is_readable(ms, since, max);
    history_ends(ms, since, max);
    if c.len() > 0 {
        assert(c.last() == asked[c.len() - 1]);
    }
    assert forall|i: int| 0 <= i < c.len() implies msg_of(#[trigger] resent_bodies(c)[i]) == Some(
        resent(asked[i]),
    ) by {
        assert(c[i] == asked[i]);
    }
    assert(resent_bodies(c) =~= bodies.take(k));
    lemma_entries_len(resent_bodies(c));
    lemma_be_bytes_len(since as nat, 8);
    lemma_be_bytes_len(to as nat, 8);
    lemma_be_bytes_len(c.len(), 2);
    assert(ENVELOPE_LEN + body.len() == resp_size(resent_bodies(c)));
    if 0 < k < bodies.len() {
        let next = bodies.take(k + 1);
        assert(next.drop_last() =~= bodies.take(k));
        assert(next.last() == msg_bytes(resent(asked[k])));
    }
}

/// `HISTORY_REQ` from a member of a room that this node hosts is answered to that
/// member's User Agent, if it can be resolved, with what it asks for; any other
/// is not answered. None changes anything.
pub proof fn history_requests_are_judged(n: NodeModel, env: EnvelopeModel, o: AppOwnerModel)
    requires
        n.wf(),
        n.rooms.contains_key(env.room_id) ==> forall|i: int|
            0 <= i < n.rooms[env.room_id].messages.len() ==> encode_utf8(
                (#[trigger] n.rooms[env.room_id].messages[i]).text,
            ).len() < 0x1_0000 - 51,
    ensures
        ({
            let step = history_req_step(n, env, Some(o));
            let id = env.room_id;
            &&& step.node == n
            &&& if history_req_of(env.body) is Some && n.rooms.contains_key(id)
                && n.rooms[id].is_rh && is_member(n.rooms[id].members, o.user_uuid) {
                let (since, max) = history_req_of(env.body)->0;
                match reach(n.directory, o.user_uuid) {
                    Some((dev, app)) => {
                        &&& step.sent.len() == 1
                        &&& step.sent[0].dest_device == dev
                        &&& step.sent[0].dest_app == app
                        &&& step.sent[0].msg_type == msg::HISTORY_RESP
                        &&& step.sent[0].room_id == id
                        &&& exists|k: nat| #[trigger]
                            answers_request(
                                step.sent[0].body,
                                n.rooms[id].messages,
                                since,
                                max,
                                k,
                            )
                    },
                    None => step.sent.len() == 0,
                }
            } else {
                step.sent.len() == 0
            }
        }),
{
    let id = env.room_id;
    if history_req_of(env.body) is Some && n.rooms.contains_key(id) {
        let (since, max) = history_req_of(env.body)->0;
        let ms = n.rooms[id].messages;
        history_answer_is_exact(ms, since, max);
        let step = history_req_step(n, env, Some(o));
        if n.rooms[id].is_rh && is_member(n.rooms[id].members, o.user_uuid) && reach(
            n.directory,
            o.user_uuid,
        ) is Some {
            assert(step.sent[0].body == history_answer(ms, since, max));
            assert(answers_request(
                step.sent[0].body,
                ms,
                since,
                max,
                chunk(ms, since, max).len(),
            ));
        }
    }
}

// ── Sending messages again ───────────────────────────────────────────────────

/// What a host sends one member again: every message after what the member has
/// acknowledged, in order, to the member's User Agent; nothing if that cannot be
/// resolved.
pub proof fn retries_of_one_member_are_exact(
    directory: Map<Uuid, UserDirModel>,
    room: RoomModel,
    user: Uuid,
)
    ensures
        ({
            let done = if room.member_acks.contains_key(user) {
                room.member_acks[user]
            } else {
                0
            };
            member_retries(directory, room, user) == match reach(directory, user) {
                Some((dev, app)) => room.messages.filter(later(done)).map_values(
                    resend(room.room_id, dev, app),
                ),
                None => Seq::empty(),
            }
        }),
{
    if let Some((dev, app)) = reach(directory, user) {
        let done = acked(room, user);
        after_is_a_filter(room.messages, done);
        assert(replay_frames(after(room.messages, done), room.room_id, dev, app)
            =~= room.messages.filter(later(done)).map_values(resend(room.room_id, dev, app)));
    }
}

/// What a host sends several members again is what it sends each, in turn.
pub proof fn retries_add_up(
    directory: Map<Uuid, UserDirModel>,
    room: RoomModel,
    a: Seq<MemberModel>,
    b: Seq<MemberModel>,
    m: MemberModel,
)
    ensures
        all_retries(directory, room, a + b) == all_retries(directory, room, a) + all_retries(
            directory,
            room,
            b,
        ),
        all_retries(directory, room, seq![m]) == member_retries(directory, room, m.user_uuid),
        all_retries(directory, room, Seq::empty()) == Seq::<OutboundModel>::empty(),
    decreases b.len(),
{
    reveal_with_fuel(all_retries, 2);
    assert(seq![m].drop_last() =~= Seq::<MemberModel>::empty());
    assert(all_retries(directory, room, seq![m]) =~= member_retries(directory, room, m.user_uuid));
    if b.len() == 0 {
        assert(a + b =~= a);
        assert(all_retries(directory, room, a) + Seq::<OutboundModel>::empty() =~= all_retries(
            directory,
            room,
            a,
        ));
    } else {
        retries_add_up(directory, room, a, b.drop_last(), m);
        assert((a + b).drop_last() =~= a + b.drop_last());
        let x = all_retries(directory, room, a);
        let y = all_retries(directory, room, b.drop_last());
        let z = member_retries(directory, room, b.last().user_uuid);
        assert(x + y + z =~= x + (y + z));
    }
}

/// A host sends again in the rooms that it hosts, to all their members, and
/// nobody sends again in a room of another's.
pub proof fn hosts_send_again(n: NodeModel, id: Uuid)
    ensures
        retries_in(n)(id) == if n.rooms[id].is_rh {
            all_retries(n.directory, n.rooms[id], n.rooms[id].members)
        } else {
            Seq::empty()
        },
{
}

/// The frames of several rooms are the frames of each, in turn.
pub proof fn room_frames_add_up(
    a: Seq<Uuid>,
    b: Seq<Uuid>,
    id: Uuid,
    f: spec_fn(Uuid) -> Seq<OutboundModel>,
)
    ensures
        room_frames(a + b, f) == room_frames(a, f) + room_frames(b, f),
        room_frames(seq![id], f) == f(id),
        room_frames(Seq::empty(), f) == Seq::<OutboundModel>::empty(),
    decreases b.len(),
{
    reveal_with_fuel(room_frames, 2);
    assert(seq![id].drop_last() =~= Seq::<Uuid>::empty());
    assert(room_frames(seq![id], f) =~= f(id));
    if b.len() == 0 {
        assert(a + b =~= a);
        assert(room_frames(a, f) + Seq::<OutboundModel>::empty() =~= room_frames(a, f));
    } else {
        room_frames_add_up(a, b.drop_last(), id, f);
        assert((a + b).drop_last() =~= a + b.drop_last());
        let x = room_frames(a, f);
        let y = room_frames(b.drop_last(), f);
        assert(x + y + f(b.last()) =~= x + (y + f(b.last())));
    }
}

/// In every room that this node hosts, every message that a reachable member has
/// not acknowledged goes to that member again, whatever the order of the rooms.
pub proof fn every_unacknowledged_message_goes_again(
    n: NodeModel,
    ids: Seq<Uuid>,
    r: int,
    i: int,
    m: ChatMsgModel,
    dev: Uuid,
    app: Uuid,
)
    requires
        0 <= r < ids.len(),
        n.rooms[ids[r]].is_rh,
        0 <= i < n.rooms[ids[r]].members.len(),
        reach(n.directory, n.rooms[ids[r]].members[i].user_uuid) == Some((dev, app)),
        n.rooms[ids[r]].messages.contains(m),
        m.seq > acked(n.rooms[ids[r]], n.rooms[ids[r]].members[i].user_uuid),
    ensures
        room_frames(ids, retries_in(n)).contains(
            resend(n.rooms[ids[r]].room_id, dev, app)(m),
        ),
{
    let id = ids[r];
    let room = n.rooms[id];
    let user = room.members[i].user_uuid;
    let o = resend(room.room_id, dev, app)(m);
    let f = retries_in(n);
    unacknowledged_messages_are_resent(
        n.directory,
        room,
        user,
        m,
        dev,
        app,
    );
    let mine = member_retries(n.directory, room, user);
    assert(mine.contains(o));
    let before = room.members.take(i);
    let behind = room.members.skip(i + 1);
    assert(room.members =~= (before + seq![room.members[i]]) + behind);
    retries_add_up(n.directory, room, before + seq![room.members[i]], behind, room.members[i]);
    retries_add_up(n.directory, room, before, seq![room.members[i]], room.members[i]);
    let all = all_retries(n.directory, room, room.members);
    let k = choose|k: int| 0 <= k < mine.len() && mine[k] == o;
    let x = all_retries(n.directory, room, before);
    assert(all[x.len() + k] == o);
    lemma_room_frames_contain(ids, f, r, o);
}

proof fn lemma_room_frames_contain(
    ids: Seq<Uuid>,
    f: spec_fn(Uuid) -> Seq<OutboundModel>,
    r: int,
    o: OutboundModel,
)
    requires
        0 <= r < ids.len(),
        f(ids[r]).contains(o),
    ensures
        room_frames(ids, f).contains(o),
{
    let before = ids.take(r);
    let behind = ids.skip(r + 1);
    assert(ids =~= (before + seq![ids[r]]) + behind);
    room_frames_add_up(before + seq![ids[r]], behind, ids[r], f);
    room_frames_add_up(before, seq![ids[r]], ids[r], f);
    let mine = f(ids[r]);
    let k = choose|k: int| 0 <= k < mine.len() && mine[k] == o;
    assert(room_frames(ids, f)[room_frames(before, f).len() + k] == o);
}

// ── Inviting again ───────────────────────────────────────────────────────────

/// The members who have not announced themselves.
pub open spec fn silent() -> spec_fn(MemberModel) -> bool {
    |m: MemberModel| !m.present
}

/// In a room that this node hosts, exactly the members who have not announced
/// themselves are invited again, to the room as it is; in no other room anyone.
pub proof fn reinvitations_are_exact(n: NodeModel, id: Uuid)
    ensures
        if n.rooms[id].is_rh {
            invites(
                reinvites_in(n)(id),
                n.directory,
                n.rooms[id].members.filter(silent()),
                n.rooms[id],
            )
        } else {
            reinvites_in(n)(id).len() == 0
        },
{
    lemma_absent_is_filter(n.rooms[id].members);
    invitations_tell_of_the_room(n.directory, n.rooms[id], absent(n.rooms[id].members));
}

proof fn lemma_absent_is_filter(members: Seq<MemberModel>)
    ensures
        absent(members) == members.filter(silent()),
    decreases members.len(),
{
    reveal(Seq::filter);
    if members.len() > 0 {
        lemma_absent_is_filter(members.drop_last());
    }
}

} // verus!
