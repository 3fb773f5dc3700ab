//! What the log says of a frame agrees with what the frame did.

use crate::bytes::{uuid_of, Uuid};
use crate::codec::{ack_of, hello_of, history_req_of, history_resp_of, invite_of};
use crate::codec::{member_update_of, msg_of, open_room_of, post_of, Cursor, EnvelopeModel};
use crate::codec::{MEMBER_CHANGE_ADD, MEMBER_CHANGE_LEAVE, MEMBER_CHANGE_REMOVE};
use crate::laws::changes::joining_is_exact;
use crate::laws::delivery::history_is_readable;
use crate::laws::ordered::{announcements_touch_the_sender_only, entries_add_up};
use crate::laws::ordered::taking_one_entry_is_exact;
use crate::messages::{ack_step, entries_applied, greetings, hello_step, history_req_step};
use crate::messages::{history_resp_step, hosts_member, lemma_applied_wf, msg_step, post_step};
use crate::rooms::{add_member_step, invite_step, is_member, leave_step, lemma_member_index};
use crate::rooms::{local_add, local_remove, member_index, member_update_step, open_room_step};
use crate::rooms::remove_member_step;
use crate::state::{has_seq, reach, AppOwnerModel, MemberModel, NodeModel, Role};
use crate::text::{dec, hex_chars};
use vstd::prelude::*;
use vstd::utf8::encode_utf8;

verus! {

/// Whether a truth value is spelled.
pub open spec fn spelled(b: bool) -> Seq<char> {
    if b {
        "true"@
    } else {
        "false"@
    }
}

/// The log names the number that a post got, which is the number of the message
/// that the host kept.
pub proof fn posts_are_logged_by_number(
    n: NodeModel,
    env: EnvelopeModel,
    o: AppOwnerModel,
    ts_ms: u64,
)
    requires
        post_of(env.body) is Some,
        n.rooms.contains_key(env.room_id),
        n.rooms[env.room_id].is_rh,
        is_member(n.rooms[env.room_id].members, o.user_uuid) || o.own_user,
    ensures
        post_step(n, env, Some(o), ts_ms).detail == "POST from "@ + o.label + " ordered as seq "@
            + dec(n.rooms[env.room_id].next_seq as nat),
{
}

/// The log names the number of a message, and whether the node had it.
pub proof fn messages_are_logged_by_number(n: NodeModel, env: EnvelopeModel, o: AppOwnerModel)
    requires
        msg_of(env.body) is Some,
        n.rooms.contains_key(env.room_id),
        n.rooms[env.room_id].rh_device == o.device_uuid,
    ensures
        ({
            let seq = (msg_of(env.body)->0).seq;
            msg_step(n, env, Some(o)).detail == "MSG seq "@ + dec(seq as nat) + (if has_seq(
                n.rooms[env.room_id].messages,
                seq,
            ) {
                " duplicate — ignored"@
            } else {
                " applied"@
            })
        }),
{
}

/// The log names who acknowledged, and up to which number.
pub proof fn acknowledgements_are_logged_by_number(
    n: NodeModel,
    env: EnvelopeModel,
    o: AppOwnerModel,
)
    requires
        ack_of(env.body) is Some,
        hosts_member(n, env.room_id, o.user_uuid),
    ensures
        ack_step(n, env, Some(o)).detail == "ACK from "@ + o.label + " → seq "@ + dec(
            ack_of(env.body)->0 as nat,
        ),
{
}

/// The announced rooms that this node hosts and the user belongs to.
pub open spec fn concerns(n: NodeModel, user: Uuid) -> spec_fn(Cursor) -> bool {
    |c: Cursor| hosts_member(n, c.0, user)
}

proof fn lemma_touched(n: NodeModel, user: Uuid, dev: Uuid, app: Uuid, rooms: Seq<Cursor>)
    ensures
        greetings(n, user, dev, app, rooms).2 == rooms.filter(concerns(n, user)).len(),
        forall|id: Uuid| #[trigger]
            hosts_member(greetings(n, user, dev, app, rooms).0, id, user) <==> hosts_member(
                n,
                id,
                user,
            ),
    decreases rooms.len(),
{
    reveal(Seq::filter);
    if rooms.len() > 0 {
        lemma_touched(n, user, dev, app, rooms.drop_last());
    }
    let node = greetings(n, user, dev, app, rooms).0;
    assert forall|id: Uuid| #[trigger]
        hosts_member(node, id, user) <==> hosts_member(n, id, user) by {
        if n.rooms.contains_key(id) {
            announcements_touch_the_sender_only(n, user, dev, app, rooms, id);
            let a = n.rooms[id].members;
            let b = node.rooms[id].members;
            assert(forall|i: int|
                0 <= i < a.len() ==> b[i].user_uuid == (#[trigger] a[i]).user_uuid);
            if is_member(a, user) {
                let i = choose|i: int| 0 <= i < a.len() && (#[trigger] a[i]).user_uuid == user;
                assert(b[i].user_uuid == user);
            }
            if is_member(b, user) {
                let i = choose|i: int| 0 <= i < b.len() && (#[trigger] b[i]).user_uuid == user;
                assert(a[i].user_uuid == b[i].user_uuid);
            }
        } else {
            lemma_no_new_room(n, user, dev, app, rooms, id);
        }
    }
}

proof fn lemma_no_new_room(
    n: NodeModel,
    user: Uuid,
    dev: Uuid,
    app: Uuid,
    rooms: Seq<Cursor>,
    id: Uuid,
)
    requires
        !n.rooms.contains_key(id),
    ensures
        !greetings(n, user, dev, app, rooms).0.rooms.contains_key(id),
    decreases rooms.len(),
{
    if rooms.len() > 0 {
        lemma_no_new_room(n, user, dev, app, rooms.drop_last(), id);
    }
}

/// The log says in how many of the announced rooms the sender is a member of a
/// room that this node hosts.
pub proof fn announcements_are_counted(n: NodeModel, env: EnvelopeModel, o: AppOwnerModel)
    requires
        hello_of(env.body) is Some,
    ensures
        ({
            let rooms = (hello_of(env.body)->0).2;
            let count = rooms.filter(concerns(n, o.user_uuid)).len();
            hello_step(n, env, Some(o)).detail == "HELLO from "@ + o.label + (if count > 0 {
                " — present + replayed in "@ + dec(count) + " room(s)"@
            } else {
                " — no matching room we host"@
            })
        }),
{
    let (dev, app, rooms) = hello_of(env.body)->0;
    lemma_touched(n, o.user_uuid, dev, app, rooms);
    let count = rooms.filter(concerns(n, o.user_uuid)).len();
    if count > 0 {
        assert("HELLO from "@ + o.label + " — present + replayed in "@ + dec(count) + " room(s)"@
            =~= "HELLO from "@ + o.label + (" — present + replayed in "@ + dec(count)
            + " room(s)"@));
    }
}

/// The log says how many entries went into an answer with history, and whether
/// more is to come, as the answer itself says.
pub proof fn history_requests_are_counted(n: NodeModel, env: EnvelopeModel, o: AppOwnerModel)
    requires
        n.wf(),
        hosts_member(n, env.room_id, o.user_uuid),
        history_req_of(env.body) is Some,
        reach(n.directory, o.user_uuid) is Some,
        forall|i: int|
            0 <= i < n.rooms[env.room_id].messages.len() ==> encode_utf8(
                (#[trigger] n.rooms[env.room_id].messages[i]).text,
            ).len() < 0x1_0000 - 51,
    ensures
        ({
            let step = history_req_step(n, env, Some(o));
            let (since, _) = history_req_of(env.body)->0;
            history_resp_of(step.sent[0].body) matches Some((_, _, more, entries)) && step.detail
                == "HISTORY_REQ since "@ + dec(since as nat) + " → replied "@ + dec(entries.len())
                + " entries (more="@ + spelled(more) + ")"@
        }),
{
    let (since, max) = history_req_of(env.body)->0;
    history_is_readable(n.rooms[env.room_id].messages, since, max);
}

proof fn lemma_gained(n: NodeModel, id: Uuid, entries: Seq<Seq<u8>>)
    requires
        n.wf(),
        n.rooms.contains_key(id),
    ensures
        ({
            let (node, count) = entries_applied(n, id, entries);
            &&& node.wf()
            &&& node.rooms.contains_key(id)
            &&& node.rooms[id].messages.len() == n.rooms[id].messages.len() + count
        }),
    decreases entries.len(),
{
    if entries.len() > 0 {
        let front = entries.drop_last();
        let last = entries.last();
        lemma_gained(n, id, front);
        let mid = entries_applied(n, id, front).0;
        assert(entries =~= front + seq![last]);
        entries_add_up(n, id, front, seq![last]);
        taking_one_entry_is_exact(mid, id, last);
        if let Some(d) = msg_of(last) {
            lemma_applied_wf(mid, id, d.seq, d.sender_user, d.ts_ms, d.text);
        }
    }
}

/// The log says how many messages an answer with history added, and whether more
/// is to come.
pub proof fn history_answers_are_counted(n: NodeModel, env: EnvelopeModel, o: AppOwnerModel)
    requires
        n.wf(),
        n.rooms.contains_key(env.room_id),
        n.rooms[env.room_id].rh_device == o.device_uuid,
        history_resp_of(env.body) is Some,
    ensures
        ({
            let step = history_resp_step(n, env, Some(o));
            let (_, _, more, _) = history_resp_of(env.body)->0;
            let gained = (step.node.rooms[env.room_id].messages.len()
                - n.rooms[env.room_id].messages.len()) as nat;
            step.detail == "HISTORY_RESP applied "@ + dec(gained) + " (more="@ + spelled(more)
                + ")"@
        }),
{
    let (_, _, _, entries) = history_resp_of(env.body)->0;
    lemma_gained(n, env.room_id, entries);
}

/// The log names a room that was created, and how many members were asked for.
pub proof fn creations_are_logged(
    n: NodeModel,
    env: EnvelopeModel,
    sender: Uuid,
    o: AppOwnerModel,
    fresh: Uuid,
)
    requires
        n.role == Role::UserAgent,
        o.own_user,
        open_room_of(env.body) is Some,
        n.own_user_uuid is Some,
        n.local_device is Some,
        n.local_app_id is Some,
    ensures
        ({
            let open = open_room_of(env.body)->0;
            open_room_step(n, env, sender, Some(o), fresh).detail == "created room '"@ + open.name
                + "' ("@ + hex_chars(fresh@).take(8) + "…) with "@ + dec(open.members.len())
                + " member(s)"@
        }),
{
}

/// The log names the room of an invitation; of a room that we held, the cursor
/// that we announced.
pub proof fn invitations_are_logged(n: NodeModel, env: EnvelopeModel, o: AppOwnerModel, now: u64)
    requires
        invite_of(env.body) is Some,
        n.local_device is Some,
        n.local_app_id is Some,
    ensures
        ({
            let name = (invite_of(env.body)->0).name;
            let step = invite_step(n, env, Some(o), now);
            if n.rooms.contains_key(env.room_id) {
                hello_of(step.sent[0].body) matches Some((_, _, cursors)) && cursors.len() == 1
                    && step.detail == "re-INVITE to '"@ + name + "' — re-HELLO sent (cursor "@
                    + dec(cursors[0].1 as nat) + ")"@
            } else {
                step.detail == "invited to '"@ + name + "' by "@ + o.label
                    + " — joined, HELLO sent"@
            }
        }),
{
    joining_is_exact(n, env, o, now);
}

/// The log names who was added to or removed from which room: someone added by
/// the alias under which the room now lists them, someone gone by the alias under
/// which it listed them.
pub proof fn changes_are_logged_by_name(
    n: NodeModel,
    env: EnvelopeModel,
    o: AppOwnerModel,
    target: Uuid,
    i: int,
)
    requires
        n.rooms.contains_key(env.room_id),
        n.rooms[env.room_id].is_rh,
        env.body.len() >= 16,
        uuid_of(env.body.subrange(0, 16)) == target,
    ensures
        ({
            let room = n.rooms[env.room_id];
            &&& o.own_user && n.directory.contains_key(target) && !n.directory[target].own
                && !is_member(room.members, target) ==> {
                let step = add_member_step(n, env, Some(o));
                step.detail == "added member "@ + step.node.rooms[env.room_id].members.last().alias
                    + " to '"@ + room.name + "'"@
            }
            &&& o.own_user && is_first(room.members, target, i) ==> remove_member_step(
                n,
                env,
                Some(o),
            ).detail == "removed member "@ + room.members[i].alias + " from '"@ + room.name + "'"@
            &&& is_first(room.members, o.user_uuid, i) ==> leave_step(n, env, Some(o)).detail
                == room.members[i].alias + " left '"@ + room.name + "'"@
        }),
{
    let members = n.rooms[env.room_id].members;
    lemma_first(members, target, i);
    lemma_first(members, o.user_uuid, i);
}

/// The log names whom a notice concerned and which room, and what became of them.
pub proof fn notices_are_logged_by_name(n: NodeModel, env: EnvelopeModel, o: AppOwnerModel)
    requires
        n.rooms.contains_key(env.room_id),
        n.rooms[env.room_id].rh_device == o.device_uuid,
    ensures
        member_update_of(env.body) matches Some((change, user, alias)) ==> {
            let detail = member_update_step(n, env, Some(o)).detail;
            let name = n.rooms[env.room_id].name;
            let goes = change == MEMBER_CHANGE_REMOVE || change == MEMBER_CHANGE_LEAVE;
            &&& change == MEMBER_CHANGE_ADD ==> detail == "member added to '"@ + name + "': "@
                + alias
            &&& goes && n.own_user_uuid == Some(user) ==> detail == "we were removed from '"@ + name
                + "' — left the room"@
            &&& change == MEMBER_CHANGE_REMOVE && n.own_user_uuid != Some(user) ==> detail == alias
                + " removed from '"@ + name + "'"@
            &&& change == MEMBER_CHANGE_LEAVE && n.own_user_uuid != Some(user) ==> detail == alias
                + " left '"@ + name + "'"@
        },
{
}

/// A request of the local user is answered with the name of whom it concerned.
pub proof fn changes_are_answered_by_name(n: NodeModel, id: Uuid, target: Uuid, i: int)
    ensures
        local_add(n, id, target) matches Ok((after, _, note)) ==> note == "added "@
            + after.rooms[id].members.last().alias,
        is_first(n.rooms[id].members, target, i) ==> (local_remove(n, id, target) matches Ok(
            (_, _, note),
        ) ==> note == "removed "@ + n.rooms[id].members[i].alias),
{
    lemma_first(n.rooms[id].members, target, i);
}

/// Whether the `i`-th member is the first entry for a user.
pub open spec fn is_first(members: Seq<MemberModel>, user: Uuid, i: int) -> bool {
    &&& 0 <= i < members.len()
    &&& members[i].user_uuid == user
    &&& forall|k: int| 0 <= k < i ==> (#[trigger] members[k]).user_uuid != user
}

proof fn lemma_first(members: Seq<MemberModel>, user: Uuid, i: int)
    ensures
        is_first(members, user, i) ==> is_member(members, user) && member_index(members, user) == i,
{
    if is_first(members, user, i) {
        lemma_member_index(members, user);
        let j = member_index(members, user);
        assert(members[i].user_uuid == user);
        if j < i {
            assert(members[j].user_uuid != user);
        }
    }
}

} // verus!
