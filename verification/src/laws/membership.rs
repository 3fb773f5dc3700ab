//! Rooms and who belongs to them, at the host and at the members.

use crate::api::{absent, reinvites};
use crate::bytes::Uuid;
use crate::codec::{hello_bytes, hello_of, invite_bytes, member_update_bytes, roster};
use crate::codec::{EnvelopeModel, MEMBER_CHANGE_ADD, MEMBER_CHANGE_LEAVE, MEMBER_CHANGE_REMOVE};
use crate::frame::{client_index, with_client};
use crate::messages::{contiguous, greeted};
use crate::msg;
use crate::rooms::{addition, fan_out, frame_to, held_messages, invitation, invite_step};
use crate::rooms::{invited_members, is_member, lemma_member_index, member_index};
use crate::rooms::{member_update_step, members_of, new_member, removal, with_members, without};
use crate::round_trip::{fits_str, hello_round_trip, invite_round_trip, member_update_round_trip};
use crate::state::{reach, AppOwnerModel, AttachedClientModel, MemberModel, NodeModel};
use crate::state::{OutboundModel, RoomModel, UserDirModel};
use crate::text::hex_chars;
use vstd::prelude::*;

verus! {

// ── The member list ──────────────────────────────────────────────────────────

/// On the member list of a new room are the invited users whom the directory
/// knows, and never our own user.
pub proof fn known_users_are_members(n: NodeModel, users: Seq<Uuid>, u: Uuid)
    ensures
        is_member(members_of(n, users), u) <==> users.contains(u) && n.directory.contains_key(u)
            && n.own_user_uuid != Some(u),
    decreases users.len(),
{
    if users.len() > 0 {
        let front = users.drop_last();
        let last = users.last();
        known_users_are_members(n, front, u);
        lemma_pushed_member(
            members_of(n, front),
            new_member(last, n.directory[last].alias),
            u,
        );
        if front.contains(u) {
            let i = choose|i: int| 0 <= i < front.len() && front[i] == u;
            assert(users[i] == u);
        }
        if users.contains(u) && u != last {
            let i = choose|i: int| 0 <= i < users.len() && users[i] == u;
            assert(front[i] == u);
        }
        if u == last {
            assert(users[users.len() - 1] == u);
        }
    }
}

/// Removing a user removes them, and nobody else.
pub proof fn removed_user_is_gone(members: Seq<MemberModel>, user: Uuid, other: Uuid)
    ensures
        !is_member(without(members, user), user),
        other != user ==> (is_member(without(members, user), other) <==> is_member(
            members,
            other,
        )),
    decreases members.len(),
{
    if members.len() > 0 {
        let front = members.drop_last();
        let kept = without(front, user);
        let out = without(members, user);
        removed_user_is_gone(front, user, other);
        lemma_pushed_member(front, members.last(), other);
        lemma_pushed_member(kept, members.last(), other);
        lemma_pushed_member(kept, members.last(), user);
        assert(members =~= front.push(members.last()));
    }
}

proof fn lemma_pushed_member(members: Seq<MemberModel>, m: MemberModel, user: Uuid)
    ensures
        is_member(members.push(m), user) <==> is_member(members, user) || m.user_uuid == user,
{
    let out = members.push(m);
    if is_member(members, user) {
        let i = choose|i: int|
            0 <= i < members.len() && (#[trigger] members[i]).user_uuid == user;
        assert(out[i].user_uuid == user);
    }
    if m.user_uuid == user {
        assert(out[members.len() as int].user_uuid == user);
    }
    if is_member(out, user) {
        let i = choose|i: int| 0 <= i < out.len() && (#[trigger] out[i]).user_uuid == user;
        if i < members.len() {
            assert(members[i].user_uuid == user);
        }
    }
}

proof fn lemma_without_stranger(members: Seq<MemberModel>, user: Uuid)
    requires
        !is_member(members, user),
    ensures
        without(members, user) == members,
    decreases members.len(),
{
    if members.len() > 0 {
        let front = members.drop_last();
        if is_member(front, user) {
            let i = choose|i: int|
                0 <= i < front.len() && (#[trigger] front[i]).user_uuid == user;
            assert(members[i].user_uuid == user);
        }
        assert(members[members.len() - 1].user_uuid != user);
        lemma_without_stranger(front, user);
        assert(front.push(members.last()) =~= members);
    } else {
        assert(members =~= Seq::empty());
    }
}

/// Removing a member right after adding them restores the node.
pub proof fn removal_undoes_addition(n: NodeModel, room_id: Uuid, target: Uuid)
    requires
        n.rooms.contains_key(room_id),
        !is_member(n.rooms[room_id].members, target),
    ensures
        removal(addition(n, room_id, target).0, room_id, target).0 == n,
{
    let room = n.rooms[room_id];
    let m = new_member(target, n.directory[target].alias);
    let grown = room.members.push(m);
    lemma_without_stranger(room.members, target);
    assert(grown.drop_last() =~= room.members);
    assert(without(grown, target) == room.members);
    let back = removal(addition(n, room_id, target).0, room_id, target).0;
    assert(back.rooms[room_id] =~= room);
    assert(back.rooms =~= n.rooms);
    assert(back =~= n);
}

// ── Notices ──────────────────────────────────────────────────────────────────

/// A notice of membership from the room's host, as a frame.
pub open spec fn notice(room_id: Uuid, change: u8, user: Uuid, alias: Seq<char>) -> EnvelopeModel {
    EnvelopeModel {
        msg_type: msg::MEMBER_UPDATE,
        room_id,
        body: member_update_bytes(change, user, alias),
    }
}

/// A member who gets the host's notice changes its list as the host did; being
/// removed or leaving ourselves drops the room.
pub proof fn notices_are_followed(
    n: NodeModel,
    owner: AppOwnerModel,
    room_id: Uuid,
    change: u8,
    user: Uuid,
    alias: Seq<char>,
)
    requires
        fits_str(alias),
        n.rooms.contains_key(room_id),
        n.rooms[room_id].rh_device == owner.device_uuid,
    ensures
        ({
            let env = notice(room_id, change, user, alias);
            let after = member_update_step(n, env, Some(owner)).node;
            let room = n.rooms[room_id];
            &&& change == MEMBER_CHANGE_ADD && !is_member(room.members, user)
                ==> after.rooms[room_id] == with_members(
                room,
                room.members.push(new_member(user, alias)),
            )
            &&& change == MEMBER_CHANGE_ADD && is_member(room.members, user) ==> after == n
            &&& (change == MEMBER_CHANGE_LEAVE || change == MEMBER_CHANGE_REMOVE)
                && n.own_user_uuid != Some(user) ==> after.rooms[room_id] == with_members(
                room,
                without(room.members, user),
            )
            &&& (change == MEMBER_CHANGE_LEAVE || change == MEMBER_CHANGE_REMOVE)
                && n.own_user_uuid == Some(user) ==> after.rooms == n.rooms.remove(room_id)
        }),
{
    let body = member_update_bytes(change, user, alias);
    member_update_round_trip(change, user, alias, Seq::empty());
    assert(body + Seq::<u8>::empty() =~= body);
}

// ── Invitations ──────────────────────────────────────────────────────────────

/// An invitation to a room, as a frame.
pub open spec fn invite_envelope(room: RoomModel) -> EnvelopeModel {
    EnvelopeModel {
        msg_type: msg::INVITE,
        room_id: room.room_id,
        body: invite_bytes(invitation(room)),
    }
}

/// Whether an invitation to a room can carry all of it.
pub open spec fn invitable(room: RoomModel) -> bool {
    &&& fits_str(room.name)
    &&& room.members.len() < 0x100
    &&& forall|i: int| 0 <= i < room.members.len() ==> fits_str((#[trigger] room.members[i]).alias)
}

/// Whoever is invited ends up with the host's room: its name, its host, and its
/// members with their aliases. And they answer the host with their address and
/// their cursor, the number up to which their history has no gap.
pub proof fn invitations_carry_the_room(
    room: RoomModel,
    n: NodeModel,
    owner: AppOwnerModel,
    device: Uuid,
    app: Uuid,
    now: u64,
)
    requires
        invitable(room),
        n.local_device == Some(device),
        n.local_app_id == Some(app),
    ensures
        ({
            let step = invite_step(n, invite_envelope(room), Some(owner), now);
            let copy = step.node.rooms[room.room_id];
            let cursor = contiguous(held_messages(n, room.room_id));
            &&& step.node.rooms.contains_key(room.room_id)
            &&& copy.room_id == room.room_id
            &&& copy.name == room.name
            &&& copy.host_user == room.host_user
            &&& copy.rh_device == room.rh_device
            &&& copy.rh_app_id == room.rh_app_id
            &&& !copy.is_rh
            &&& roster(copy.members) == roster(room.members)
            &&& step.sent.len() == 1
            &&& step.sent[0].dest_device == room.rh_device
            &&& step.sent[0].dest_app == room.rh_app_id
            &&& step.sent[0].msg_type == msg::HELLO
            &&& hello_of(step.sent[0].body) == Some((device, app, seq![(room.room_id, cursor)]))
        }),
{
    let inv = invitation(room);
    let body = invite_bytes(inv);
    assert forall|i: int| 0 <= i < inv.members.len() implies fits_str(
        (#[trigger] inv.members[i]).1,
    ) by {
        assert(inv.members[i].1 == room.members[i].alias);
    }
    invite_round_trip(inv, Seq::empty());
    assert(body + Seq::<u8>::empty() =~= body);
    assert(roster(invited_members(roster(room.members))) =~= roster(room.members));
    let cursors = seq![(room.room_id, contiguous(held_messages(n, room.room_id)))];
    hello_round_trip(device, app, cursors, Seq::empty());
    let h = hello_bytes(device, app, cursors);
    assert(h + Seq::<u8>::empty() =~= h);
}

/// Being invited again keeps the history and the highest number that we have.
pub proof fn reinvitation_keeps_history(
    n: NodeModel,
    env: EnvelopeModel,
    owner: Option<AppOwnerModel>,
    now: u64,
)
    requires
        n.rooms.contains_key(env.room_id),
    ensures
        ({
            let after = invite_step(n, env, owner, now).node;
            &&& after.rooms.contains_key(env.room_id)
            &&& after.rooms[env.room_id].messages == n.rooms[env.room_id].messages
            &&& after.rooms[env.room_id].last_seq == n.rooms[env.room_id].last_seq
        }),
{
}

/// A fan-out reaches every member whose User Agent can be resolved.
pub proof fn fan_out_reaches_everyone(
    directory: Map<Uuid, UserDirModel>,
    members: Seq<MemberModel>,
    msg_type: u8,
    room_id: Uuid,
    body: Seq<u8>,
    i: int,
)
    requires
        0 <= i < members.len(),
    ensures
        reach(directory, members[i].user_uuid) matches Some((dest_device, dest_app)) ==> fan_out(
            directory,
            members,
            msg_type,
            room_id,
            body,
        ).contains(OutboundModel { dest_device, dest_app, msg_type, room_id, body }),
    decreases members.len(),
{
    let front = members.drop_last();
    let sent = fan_out(directory, front, msg_type, room_id, body);
    let more = frame_to(directory, members.last().user_uuid, msg_type, room_id, body);
    if let Some((dest_device, dest_app)) = reach(directory, members[i].user_uuid) {
        let o = OutboundModel { dest_device, dest_app, msg_type, room_id, body };
        if i < front.len() {
            fan_out_reaches_everyone(directory, front, msg_type, room_id, body, i);
            let k = choose|k: int| 0 <= k < sent.len() && sent[k] == o;
            assert((sent + more)[k] == o);
        } else {
            assert((sent + more)[sent.len() as int] == o);
        }
    }
}

/// A fan-out goes to members only.
pub proof fn fan_out_stays_among_members(
    directory: Map<Uuid, UserDirModel>,
    members: Seq<MemberModel>,
    msg_type: u8,
    room_id: Uuid,
    body: Seq<u8>,
    k: int,
)
    requires
        0 <= k < fan_out(directory, members, msg_type, room_id, body).len(),
    ensures
        exists|i: int|
            0 <= i < members.len() && reach(directory, (#[trigger] members[i]).user_uuid) == Some(
                (
                    fan_out(directory, members, msg_type, room_id, body)[k].dest_device,
                    fan_out(directory, members, msg_type, room_id, body)[k].dest_app,
                ),
            ),
    decreases members.len(),
{
    let front = members.drop_last();
    let sent = fan_out(directory, front, msg_type, room_id, body);
    let all = fan_out(directory, members, msg_type, room_id, body);
    if k < sent.len() {
        fan_out_stays_among_members(directory, front, msg_type, room_id, body, k);
        let i = choose|i: int|
            0 <= i < front.len() && reach(directory, (#[trigger] front[i]).user_uuid) == Some(
                (sent[k].dest_device, sent[k].dest_app),
            );
        assert(all[k] == sent[k]);
        assert(members[i] == front[i]);
    } else {
        let i = members.len() - 1;
        assert(reach(directory, members[i].user_uuid) == Some(
            (all[k].dest_device, all[k].dest_app),
        ));
    }
}

// ── Presence ─────────────────────────────────────────────────────────────────

/// A member who announced themself counts as present.
pub proof fn announced_member_is_present(room: RoomModel, user: Uuid, seq: u64)
    requires
        is_member(room.members, user),
    ensures
        ({
            let members = greeted(room, user, seq).members;
            members[member_index(room.members, user)].user_uuid == user && members[member_index(
                room.members,
                user,
            )].present
        }),
{
    lemma_member_index(room.members, user);
}

/// Invitations are sent again only until everyone has announced themself.
pub proof fn reinvitations_stop(n: NodeModel, id: Uuid)
    requires
        forall|i: int|
            0 <= i < n.rooms[id].members.len() ==> (#[trigger] n.rooms[id].members[i]).present,
    ensures
        reinvites(n, id).len() == 0,
{
    lemma_nobody_absent(n.rooms[id].members);
}

proof fn lemma_nobody_absent(members: Seq<MemberModel>)
    requires
        forall|i: int| 0 <= i < members.len() ==> (#[trigger] members[i]).present,
    ensures
        absent(members) == Seq::<MemberModel>::empty(),
    decreases members.len(),
{
    if members.len() > 0 {
        let front = members.drop_last();
        assert forall|i: int| 0 <= i < front.len() implies (#[trigger] front[i]).present by {
            assert(front[i] == members[i]);
        }
        assert(members[members.len() - 1].present);
        lemma_nobody_absent(front);
    }
}

// ── Clients ──────────────────────────────────────────────────────────────────

/// Whether no app is listed twice.
pub open spec fn listed_once(clients: Seq<AttachedClientModel>) -> bool {
    forall|i: int, j: int|
        0 <= i < clients.len() && 0 <= j < clients.len() && (#[trigger] clients[i]).app_id_hex
            == (#[trigger] clients[j]).app_id_hex ==> i == j
}

proof fn lemma_client_index(clients: Seq<AttachedClientModel>, app_hex: Seq<char>)
    ensures
        0 <= client_index(clients, app_hex) <= clients.len(),
        client_index(clients, app_hex) < clients.len() ==> clients[client_index(
            clients,
            app_hex,
        )].app_id_hex == app_hex,
        client_index(clients, app_hex) == clients.len() ==> forall|i: int|
            0 <= i < clients.len() ==> (#[trigger] clients[i]).app_id_hex != app_hex,
    decreases clients.len(),
{
    if clients.len() > 0 {
        let front = clients.drop_last();
        lemma_client_index(front, app_hex);
        assert forall|i: int|
            client_index(clients, app_hex) == clients.len() && 0 <= i < clients.len() implies (
        #[trigger] clients[i]).app_id_hex != app_hex by {
            if i < front.len() {
                assert(front[i] == clients[i]);
            }
        }
    }
}

/// However often a client announces itself, it is listed once, as last seen.
pub proof fn clients_are_listed_once(
    clients: Seq<AttachedClientModel>,
    owner: AppOwnerModel,
    sender_id: Uuid,
    now: u64,
)
    requires
        listed_once(clients),
    ensures
        listed_once(with_client(clients, owner, sender_id, now)),
        exists|i: int|
            0 <= i < with_client(clients, owner, sender_id, now).len() && (
            #[trigger] with_client(clients, owner, sender_id, now)[i]).app_id_hex == hex_chars(
                sender_id@,
            ) && with_client(clients, owner, sender_id, now)[i].last_seen == now,
{
    let app_hex = hex_chars(sender_id@);
    let i = client_index(clients, app_hex);
    let after = with_client(clients, owner, sender_id, now);
    lemma_client_index(clients, app_hex);
    assert(after[i].app_id_hex == app_hex && after[i].last_seen == now);
    assert forall|a: int, b: int|
        0 <= a < after.len() && 0 <= b < after.len() && (#[trigger] after[a]).app_id_hex == (
        #[trigger] after[b]).app_id_hex implies a == b by {
        if a < clients.len() {
            assert(after[a].app_id_hex == clients[a].app_id_hex);
        }
        if b < clients.len() {
            assert(after[b].app_id_hex == clients[b].app_id_hex);
        }
    }
}

} // verus!
