//! What becomes of a room when its members change: who belongs to it then, who
//! is told, and what they are told.

use crate::bytes::{uuid_of, zero_id, Uuid};
use crate::codec::{hello_bytes, hello_of, invite_bytes, invite_of, member_update_bytes};
use crate::codec::{member_update_of, open_room_of, EnvelopeModel, InviteModel, Listed};
use crate::codec::{MEMBER_CHANGE_ADD, MEMBER_CHANGE_LEAVE, MEMBER_CHANGE_REMOVE};
use crate::laws::membership::{invitable, removed_user_is_gone};
use crate::laws::topology::ua_is_foremost;
use crate::messages::contiguous;
use crate::msg;
use crate::rooms::{add_member_step, addition, creation, fan_out, frame_to, invitation};
use crate::rooms::{invite_frame, invite_frames, invite_step, is_member, leave_step};
use crate::rooms::{lemma_member_index, local_add, local_remove, member_index, member_update_step};
use crate::rooms::{members_of, open_room_step, removal, remove_member_step, update_frames};
use crate::rooms::without;
use crate::round_trip::{fits_str, hello_round_trip, invite_round_trip, member_update_round_trip};
use crate::state::{best_sg, reach, AppOwnerModel, MemberModel, NodeModel, OutboundModel, Role};
use crate::state::{RoomModel, SgEntry, UserDirModel};
use crate::text::hex_chars;
use crate::uuid::key;
use vstd::prelude::*;

verus! {

// ── Addresses ────────────────────────────────────────────────────────────────

/// Whether the `k`-th SG runs the app and no other that does has a lower rank,
/// or the same rank and a lower identifier.
pub open spec fn is_foremost(sgs: Seq<SgEntry>, k: int) -> bool {
    &&& 0 <= k < sgs.len()
    &&& sgs[k].2 is Some
    &&& forall|i: int|
        0 <= i < sgs.len() && (#[trigger] sgs[i]).2 is Some ==> sgs[k].1 < sgs[i].1 || (sgs[k].1
            == sgs[i].1 && key(sgs[k].0) <= key(sgs[i].0))
}

/// A user is reached at the foremost of the SGs that the directory lists for
/// them and that run the app, on that SG's app; without such an SG, or without
/// an entry, they are not reached.
pub proof fn users_are_reached_at_their_own_sg(directory: Map<Uuid, UserDirModel>, user: Uuid)
    ensures
        match reach(directory, user) {
            Some((dev, app)) => directory.contains_key(user) && exists|k: int|
                #[trigger] is_foremost(directory[user].sgs, k) && directory[user].sgs[k].0 == dev
                    && directory[user].sgs[k].2 == Some(app),
            None => directory.contains_key(user) ==> forall|i: int|
                0 <= i < directory[user].sgs.len() ==> (#[trigger] directory[user].sgs[i]).2
                    is None,
        },
{
    if directory.contains_key(user) {
        let sgs = directory[user].sgs;
        ua_is_foremost(sgs);
        if let Some(b) = best_sg(sgs) {
            let k = choose|k: int| 0 <= k < sgs.len() && sgs[k] == b;
            assert(is_foremost(sgs, k));
        }
    }
}

/// The members whose User Agent can be resolved.
pub open spec fn reached(directory: Map<Uuid, UserDirModel>) -> spec_fn(MemberModel) -> bool {
    |m: MemberModel| reach(directory, m.user_uuid) is Some
}

/// A frame to a member's User Agent.
pub open spec fn framed(
    directory: Map<Uuid, UserDirModel>,
    msg_type: u8,
    room_id: Uuid,
    body: Seq<u8>,
) -> spec_fn(MemberModel) -> OutboundModel {
    |m: MemberModel|
        OutboundModel {
            dest_device: (reach(directory, m.user_uuid)->0).0,
            dest_app: (reach(directory, m.user_uuid)->0).1,
            msg_type,
            room_id,
            body,
        }
}

/// The same frame to each member who can be reached, in their order.
pub open spec fn one_frame_each(
    directory: Map<Uuid, UserDirModel>,
    members: Seq<MemberModel>,
    msg_type: u8,
    room_id: Uuid,
    body: Seq<u8>,
) -> Seq<OutboundModel> {
    members.filter(reached(directory)).map_values(framed(directory, msg_type, room_id, body))
}

/// A fan-out is one frame to each member who can be reached, in their order.
pub proof fn fan_out_is_one_frame_each(
    directory: Map<Uuid, UserDirModel>,
    members: Seq<MemberModel>,
    msg_type: u8,
    room_id: Uuid,
    body: Seq<u8>,
)
    ensures
        fan_out(directory, members, msg_type, room_id, body) == one_frame_each(
            directory,
            members,
            msg_type,
            room_id,
            body,
        ),
    decreases members.len(),
{
    reveal(Seq::filter);
    let f = framed(directory, msg_type, room_id, body);
    if members.len() > 0 {
        fan_out_is_one_frame_each(directory, members.drop_last(), msg_type, room_id, body);
        let front = members.drop_last().filter(reached(directory));
        assert(one_frame_each(directory, members, msg_type, room_id, body) =~= front.map_values(f)
            + frame_to(directory, members.last().user_uuid, msg_type, room_id, body));
    } else {
        assert(one_frame_each(directory, members, msg_type, room_id, body) =~= Seq::empty());
    }
}

// ── The member list ──────────────────────────────────────────────────────────

/// Everyone but a user.
pub open spec fn others(user: Uuid) -> spec_fn(MemberModel) -> bool {
    |m: MemberModel| m.user_uuid != user
}

proof fn lemma_without_is_filter(members: Seq<MemberModel>, user: Uuid)
    ensures
        without(members, user) == members.filter(others(user)),
    decreases members.len(),
{
    reveal(Seq::filter);
    if members.len() > 0 {
        lemma_without_is_filter(members.drop_last(), user);
    }
}

/// Whether only one room of a node has changed.
pub open spec fn only_room_changed(a: NodeModel, b: NodeModel, id: Uuid) -> bool {
    b.rooms.contains_key(id) && b == (NodeModel { rooms: a.rooms.insert(id, b.rooms[id]), ..a })
}

/// The alias under which a user is first listed.
pub open spec fn first_alias(members: Seq<MemberModel>, user: Uuid, alias: Seq<char>) -> bool {
    exists|i: int|
        0 <= i < members.len() && (#[trigger] members[i]).user_uuid == user && members[i].alias
            == alias && forall|k: int| 0 <= k < i ==> (#[trigger] members[k]).user_uuid != user
}

/// Whether frames tell all of `members` who can be reached of one change, and
/// nobody else of anything.
pub open spec fn tells(
    sent: Seq<OutboundModel>,
    directory: Map<Uuid, UserDirModel>,
    members: Seq<MemberModel>,
    room_id: Uuid,
    change: u8,
    user: Uuid,
    alias: Seq<char>,
) -> bool {
    exists|body: Seq<u8>|
        sent == #[trigger] one_frame_each(
            directory,
            members,
            msg::MEMBER_UPDATE,
            room_id,
            body,
        ) && (fits_str(alias) ==> member_update_of(body) == Some((change, user, alias)))
}

proof fn lemma_update_tells(
    directory: Map<Uuid, UserDirModel>,
    room: RoomModel,
    change: u8,
    user: Uuid,
    alias: Seq<char>,
)
    ensures
        tells(
            update_frames(directory, room, change, user, alias),
            directory,
            room.members,
            room.room_id,
            change,
            user,
            alias,
        ),
{
    let body = member_update_bytes(change, user, alias);
    fan_out_is_one_frame_each(directory, room.members, msg::MEMBER_UPDATE, room.room_id, body);
    if fits_str(alias) {
        member_update_round_trip(change, user, alias, Seq::empty());
        assert(body + Seq::<u8>::empty() =~= body);
    }
    assert(update_frames(directory, room, change, user, alias) == one_frame_each(
        directory,
        room.members,
        msg::MEMBER_UPDATE,
        room.room_id,
        body,
    ));
}

/// When the host removes a user, the room loses exactly that user's entries and
/// nothing else of the node changes: the user is no longer a member, and every
/// other user is one exactly if they were before. All who were members are told,
/// the removed one too.
pub proof fn removal_is_exact(n: NodeModel, id: Uuid, target: Uuid, other: Uuid)
    requires
        n.wf(),
        n.rooms.contains_key(id),
        is_member(n.rooms[id].members, target),
    ensures
        ({
            let room = n.rooms[id];
            let (after, sent) = removal(n, id, target);
            &&& only_room_changed(n, after, id)
            &&& after.rooms[id] == (RoomModel {
                members: room.members.filter(others(target)),
                ..room
            })
            &&& !is_member(after.rooms[id].members, target)
            &&& other != target ==> (is_member(after.rooms[id].members, other) <==> is_member(
                room.members,
                other,
            ))
            &&& exists|alias: Seq<char>|
                first_alias(room.members, target, alias) && #[trigger] tells(
                    sent,
                    n.directory,
                    room.members,
                    id,
                    MEMBER_CHANGE_REMOVE,
                    target,
                    alias,
                )
        }),
{
    let room = n.rooms[id];
    let i = member_index(room.members, target);
    let alias = room.members[i].alias;
    lemma_member_index(room.members, target);
    lemma_without_is_filter(room.members, target);
    removed_user_is_gone(room.members, target, other);
    lemma_update_tells(n.directory, room, MEMBER_CHANGE_REMOVE, target, alias);
    assert(room.members[i].alias == alias);
    assert(first_alias(room.members, target, alias));
    let (after, sent) = removal(n, id, target);
    assert(after.rooms[id].members == without(room.members, target));
    assert(tells(
        sent,
        n.directory,
        room.members,
        id,
        MEMBER_CHANGE_REMOVE,
        target,
        alias,
    ));
}

/// The user list of an invitation.
pub open spec fn as_listed() -> spec_fn(MemberModel) -> Listed {
    |m: MemberModel| (m.user_uuid, m.alias)
}

/// What an invitation to a room says.
pub open spec fn says_the_room(inv: InviteModel, room: RoomModel) -> bool {
    &&& inv.name == room.name
    &&& inv.host_user == room.host_user
    &&& inv.rh_device == room.rh_device
    &&& inv.rh_app == room.rh_app_id
    &&& inv.retention == room.retention_mode
    &&& inv.join_hist == room.join_history_mode
    &&& inv.members == room.members.map_values(as_listed())
}

/// Whether frames invite all of `members` who can be reached to a room as it is,
/// and do nothing else.
pub open spec fn invites(
    sent: Seq<OutboundModel>,
    directory: Map<Uuid, UserDirModel>,
    members: Seq<MemberModel>,
    room: RoomModel,
) -> bool {
    exists|body: Seq<u8>|
        sent == #[trigger] one_frame_each(
            directory,
            members,
            msg::INVITE,
            room.room_id,
            body,
        ) && (invitable(room) ==> (invite_of(body) matches Some(inv) && says_the_room(inv, room)))
}

proof fn lemma_invitation_body(room: RoomModel)
    ensures
        invitable(room) ==> (invite_of(invite_bytes(invitation(room))) matches Some(
            inv,
        ) && says_the_room(inv, room)),
{
    if invitable(room) {
        let inv = invitation(room);
        let body = invite_bytes(inv);
        assert forall|i: int| 0 <= i < inv.members.len() implies fits_str(
            (#[trigger] inv.members[i]).1,
        ) by {
            assert(inv.members[i].1 == room.members[i].alias);
        }
        invite_round_trip(inv, Seq::empty());
        assert(body + Seq::<u8>::empty() =~= body);
        assert(inv.members =~= room.members.map_values(as_listed()));
    }
}

/// The invitations of a room tell those who can be reached of the room as it is.
pub proof fn invitations_tell_of_the_room(
    directory: Map<Uuid, UserDirModel>,
    room: RoomModel,
    members: Seq<MemberModel>,
)
    ensures
        invites(invite_frames(directory, room, members), directory, members, room),
{
    let body = invite_bytes(invitation(room));
    fan_out_is_one_frame_each(directory, members, msg::INVITE, room.room_id, body);
    lemma_invitation_body(room);
    assert(invite_frames(directory, room, members) == one_frame_each(
        directory,
        members,
        msg::INVITE,
        room.room_id,
        body,
    ));
}

/// A user who was just listed and has not announced themself.
pub open spec fn unannounced(user: Uuid, alias: Seq<char>) -> MemberModel {
    MemberModel { user_uuid_hex: hex_chars(user@), user_uuid: user, alias, present: false }
}

/// When the host adds a user, the room gains them at the end of its list, under
/// the directory's alias and not yet present, and nothing else of the node
/// changes. Those who were members are told of the new one; the new one is
/// invited to the room as it is then.
pub proof fn addition_is_exact(n: NodeModel, id: Uuid, target: Uuid)
    requires
        n.wf(),
        n.rooms.contains_key(id),
        n.directory.contains_key(target),
    ensures
        ({
            let room = n.rooms[id];
            let alias = n.directory[target].alias;
            let (after, sent) = addition(n, id, target);
            let grown = after.rooms[id];
            &&& only_room_changed(n, after, id)
            &&& grown == (RoomModel {
                members: room.members.push(unannounced(target, alias)),
                ..room
            })
            &&& exists|told: Seq<OutboundModel>, invited: Seq<OutboundModel>|
                sent == told + invited && #[trigger] tells(
                    told,
                    n.directory,
                    room.members,
                    id,
                    MEMBER_CHANGE_ADD,
                    target,
                    alias,
                ) && #[trigger] invites(
                    invited,
                    n.directory,
                    seq![unannounced(target, alias)],
                    grown,
                )
        }),
{
    let room = n.rooms[id];
    let alias = n.directory[target].alias;
    let (after, sent) = addition(n, id, target);
    let grown = after.rooms[id];
    let one = seq![unannounced(target, alias)];
    let told = update_frames(n.directory, room, MEMBER_CHANGE_ADD, target, alias);
    let invited = invite_frames(n.directory, grown, one);
    lemma_update_tells(n.directory, room, MEMBER_CHANGE_ADD, target, alias);
    invitations_tell_of_the_room(n.directory, grown, one);
    reveal_with_fuel(fan_out, 2);
    assert(one.drop_last() =~= Seq::<MemberModel>::empty());
    assert(invited =~= invite_frame(n.directory, grown, target));
    assert(tells(
        told,
        n.directory,
        room.members,
        id,
        MEMBER_CHANGE_ADD,
        target,
        alias,
    ) && invites(invited, n.directory, one, grown));
}

// ── Requests to the host ─────────────────────────────────────────────────────

/// Whether a step did nothing.
pub open spec fn nothing_done(n: NodeModel, after: NodeModel, sent: Seq<OutboundModel>) -> bool {
    after == n && sent.len() == 0
}

/// `ADD_MEMBER` adds the user that its first sixteen bytes name, if one of our
/// own user's devices asks, this node hosts the room, and the user is a known
/// contact who is not a member; otherwise it does nothing.
pub proof fn add_requests_are_judged(n: NodeModel, env: EnvelopeModel, o: AppOwnerModel)
    ensures
        ({
            let step = add_member_step(n, env, Some(o));
            let target = uuid_of(env.body.subrange(0, 16));
            if o.own_user && env.body.len() >= 16 && n.rooms.contains_key(env.room_id)
                && n.rooms[env.room_id].is_rh && n.directory.contains_key(target)
                && !n.directory[target].own && !is_member(n.rooms[env.room_id].members, target) {
                (step.node, step.sent) == addition(n, env.room_id, target)
            } else {
                nothing_done(n, step.node, step.sent)
            }
        }),
{
}

/// `REMOVE_MEMBER` removes the user that its first sixteen bytes name, if one of
/// our own user's devices asks, this node hosts the room, and the user is a
/// member; otherwise it does nothing.
pub proof fn remove_requests_are_judged(n: NodeModel, env: EnvelopeModel, o: AppOwnerModel)
    ensures
        ({
            let step = remove_member_step(n, env, Some(o));
            let target = uuid_of(env.body.subrange(0, 16));
            if o.own_user && env.body.len() >= 16 && n.rooms.contains_key(env.room_id)
                && n.rooms[env.room_id].is_rh && is_member(n.rooms[env.room_id].members, target) {
                (step.node, step.sent) == removal(n, env.room_id, target)
            } else {
                nothing_done(n, step.node, step.sent)
            }
        }),
{
}

/// `LEAVE` takes its sender, if a member of a room that this node hosts, off the
/// room's list and changes nothing else; those who stay are told. Otherwise it
/// does nothing.
pub proof fn leaving_is_exact(n: NodeModel, env: EnvelopeModel, o: AppOwnerModel)
    requires
        n.wf(),
    ensures
        ({
            let step = leave_step(n, env, Some(o));
            let id = env.room_id;
            let room = n.rooms[id];
            let stay = room.members.filter(others(o.user_uuid));
            if n.rooms.contains_key(id) && room.is_rh && is_member(room.members, o.user_uuid) {
                &&& only_room_changed(n, step.node, id)
                &&& step.node.rooms[id] == (RoomModel { members: stay, ..room })
                &&& exists|alias: Seq<char>|
                    first_alias(room.members, o.user_uuid, alias) && #[trigger] tells(
                        step.sent,
                        n.directory,
                        stay,
                        id,
                        MEMBER_CHANGE_LEAVE,
                        o.user_uuid,
                        alias,
                    )
            } else {
                nothing_done(n, step.node, step.sent)
            }
        }),
{
    let id = env.room_id;
    let room = n.rooms[id];
    if n.rooms.contains_key(id) && room.is_rh && is_member(room.members, o.user_uuid) {
        let i = member_index(room.members, o.user_uuid);
        let alias = room.members[i].alias;
        lemma_member_index(room.members, o.user_uuid);
        lemma_without_is_filter(room.members, o.user_uuid);
        let step = leave_step(n, env, Some(o));
        lemma_update_tells(
            n.directory,
            step.node.rooms[id],
            MEMBER_CHANGE_LEAVE,
            o.user_uuid,
            alias,
        );
        assert(room.members[i].alias == alias);
        assert(first_alias(room.members, o.user_uuid, alias));
        let stay = without(room.members, o.user_uuid);
        assert(step.node.rooms[id].members == stay);
        assert(tells(
            step.sent,
            n.directory,
            stay,
            id,
            MEMBER_CHANGE_LEAVE,
            o.user_uuid,
            alias,
        ));
    }
}

/// A local request adds or removes a user under the same conditions as a request
/// from our own user's other devices, and with the same effect.
pub proof fn local_requests_are_judged(n: NodeModel, id: Uuid, target: Uuid)
    ensures
        if n.rooms.contains_key(id) && n.directory.contains_key(target)
            && !n.directory[target].own && !is_member(n.rooms[id].members, target) {
            local_add(n, id, target) matches Ok((after, sent, _)) && (after, sent) == addition(
                n,
                id,
                target,
            )
        } else {
            local_add(n, id, target) is Err
        },
        if n.rooms.contains_key(id) && is_member(n.rooms[id].members, target) {
            local_remove(n, id, target) matches Ok((after, sent, _)) && (after, sent) == removal(
                n,
                id,
                target,
            )
        } else {
            local_remove(n, id, target) is Err
        },
{
}

// ── Notices to a member ──────────────────────────────────────────────────────

/// A notice from the device of the room's host does to our copy what it says,
/// and nothing else: it adds the user at the end unless they are listed, takes
/// exactly them off the list, or, if it is we who go, drops exactly the room.
/// Any other notice does nothing, and none is answered.
pub proof fn notices_are_exact(n: NodeModel, env: EnvelopeModel, o: AppOwnerModel)
    ensures
        ({
            let step = member_update_step(n, env, Some(o));
            let id = env.room_id;
            let room = n.rooms[id];
            &&& step.sent.len() == 0
            &&& match member_update_of(env.body) {
                Some((change, user, alias)) => {
                    let goes = change == MEMBER_CHANGE_REMOVE || change == MEMBER_CHANGE_LEAVE;
                    if !n.rooms.contains_key(id) || room.rh_device != o.device_uuid {
                        step.node == n
                    } else if goes && n.own_user_uuid == Some(user) {
                        step.node == (NodeModel { rooms: n.rooms.remove(id), ..n })
                    } else if goes {
                        only_room_changed(n, step.node, id) && step.node.rooms[id] == (RoomModel {
                            members: room.members.filter(others(user)),
                            ..room
                        })
                    } else if change == MEMBER_CHANGE_ADD && !is_member(room.members, user) {
                        only_room_changed(n, step.node, id) && step.node.rooms[id] == (RoomModel {
                            members: room.members.push(unannounced(user, alias)),
                            ..room
                        })
                    } else {
                        step.node == n
                    }
                },
                None => step.node == n,
            }
        }),
{
    if let Some((change, user, alias)) = member_update_of(env.body) {
        lemma_without_is_filter(n.rooms[env.room_id].members, user);
    }
}

// ── New rooms ────────────────────────────────────────────────────────────────

/// An invited user who belongs on the list of a new room.
pub open spec fn wanted(n: NodeModel) -> spec_fn(Uuid) -> bool {
    |u: Uuid| n.directory.contains_key(u) && n.own_user_uuid != Some(u)
}

/// An invited user as a member, under the directory's alias.
pub open spec fn listed_as(n: NodeModel) -> spec_fn(Uuid) -> MemberModel {
    |u: Uuid| unannounced(u, n.directory[u].alias)
}

/// The members of a new room are the invited users whom the directory knows, but
/// for our own, in the order of the invitation, under the directory's aliases
/// and not yet present.
pub proof fn new_members_are_exact(n: NodeModel, users: Seq<Uuid>)
    ensures
        members_of(n, users) == users.filter(wanted(n)).map_values(listed_as(n)),
    decreases users.len(),
{
    reveal(Seq::filter);
    if users.len() > 0 {
        new_members_are_exact(n, users.drop_last());
        let front = users.drop_last().filter(wanted(n));
        assert(users.filter(wanted(n)).map_values(listed_as(n)) =~= if wanted(n)(users.last()) {
            front.map_values(listed_as(n)).push(listed_as(n)(users.last()))
        } else {
            front.map_values(listed_as(n))
        });
    } else {
        assert(users.filter(wanted(n)).map_values(listed_as(n)) =~= Seq::empty());
    }
}

/// A room is created only by a node that knows who it is. The new room is hosted
/// here under our own user, starts empty, and is the only thing that changes.
/// Its members are invited to it; whoever asked for it is told its identifier.
pub proof fn creation_is_exact(
    n: NodeModel,
    id: Uuid,
    name: Seq<char>,
    retention: u8,
    join_hist: u8,
    users: Seq<Uuid>,
    originator: Option<(Uuid, Uuid)>,
)
    ensures
        match creation(n, id, name, retention, join_hist, users, originator) {
            None => n.own_user_uuid is None || n.local_device is None || n.local_app_id is None,
            Some((after, sent)) => {
                let room = after.rooms[id];
                &&& n.own_user_uuid == Some(room.host_user)
                &&& n.local_device == Some(room.rh_device)
                &&& n.local_app_id == Some(room.rh_app_id)
                &&& only_room_changed(n, after, id)
                &&& room.room_id == id
                &&& room.room_id_hex == hex_chars(id@)
                &&& room.host_user_hex == hex_chars(room.host_user@)
                &&& room.rh_device_hex == hex_chars(room.rh_device@)
                &&& room.name == name
                &&& room.is_rh
                &&& room.retention_mode == retention
                &&& room.join_history_mode == join_hist
                &&& room.members == users.filter(wanted(n)).map_values(listed_as(n))
                &&& room.messages.len() == 0
                &&& room.next_seq == 1
                &&& room.last_seq == 0
                &&& room.hello_sent is None
                &&& room.member_acks == Map::<Uuid, u64>::empty()
                &&& exists|invited: Seq<OutboundModel>| #[trigger]
                    invites(invited, n.directory, room.members, room) && sent == invited
                        + match originator {
                        Some((dev, app)) => seq![
                            OutboundModel {
                                dest_device: dev,
                                dest_app: app,
                                msg_type: msg::ROOM_CREATED,
                                room_id: id,
                                body: Seq::empty(),
                            },
                        ],
                        None => Seq::empty(),
                    }
            },
        },
{
    if let Some((after, sent)) = creation(n, id, name, retention, join_hist, users, originator) {
        let room = after.rooms[id];
        new_members_are_exact(n, users);
        invitations_tell_of_the_room(n.directory, room, room.members);
        assert(invites(
            invite_frames(n.directory, room, room.members),
            n.directory,
            room.members,
            room,
        ));
    }
}

/// `OPEN_ROOM` creates the room that it describes, if this node is a User Agent,
/// one of its own user's devices asks, and the node knows who it is; the asking
/// app is answered. Otherwise it does nothing.
pub proof fn open_requests_are_judged(
    n: NodeModel,
    env: EnvelopeModel,
    sender_id: Uuid,
    o: AppOwnerModel,
    fresh_id: Uuid,
)
    ensures
        ({
            let step = open_room_step(n, env, sender_id, Some(o), fresh_id);
            if n.role == Role::UserAgent && o.own_user && open_room_of(env.body) is Some
                && n.own_user_uuid is Some && n.local_device is Some && n.local_app_id is Some {
                let open = open_room_of(env.body)->0;
                creation(
                    n,
                    fresh_id,
                    open.name,
                    open.retention,
                    open.join_hist,
                    open.members,
                    Some((o.device_uuid, sender_id)),
                ) == Some((step.node, step.sent))
            } else {
                nothing_done(n, step.node, step.sent)
            }
        }),
{
}

// ── Joining ──────────────────────────────────────────────────────────────────

/// A listed user as a member who has not announced themself.
pub open spec fn as_member() -> spec_fn(Listed) -> MemberModel {
    |l: Listed| unannounced(l.0, l.1)
}

/// `INVITE` from a known sender, once this node knows who it is, makes it hold
/// the room that the invitation describes and changes nothing else. The history
/// that it had of the room stays. It answers the host that the invitation names,
/// with its own address and its cursor in this one room. Otherwise it does
/// nothing.
pub proof fn joining_is_exact(n: NodeModel, env: EnvelopeModel, o: AppOwnerModel, now: u64)
    ensures
        ({
            let step = invite_step(n, env, Some(o), now);
            let id = env.room_id;
            let room = step.node.rooms[id];
            let held = n.rooms.contains_key(id);
            match (invite_of(env.body), n.local_device, n.local_app_id) {
                (Some(inv), Some(device), Some(app)) => {
                    &&& only_room_changed(n, step.node, id)
                    &&& room.room_id == id
                    &&& room.room_id_hex == hex_chars(id@)
                    &&& room.host_user_hex == hex_chars(inv.host_user@)
                    &&& room.rh_device_hex == hex_chars(inv.rh_device@)
                    &&& room.name == inv.name
                    &&& room.host_user == inv.host_user
                    &&& room.rh_device == inv.rh_device
                    &&& room.rh_app_id == inv.rh_app
                    &&& room.retention_mode == inv.retention
                    &&& room.join_history_mode == inv.join_hist
                    &&& room.members == inv.members.map_values(as_member())
                    &&& !room.is_rh
                    &&& room.hello_sent == Some(now)
                    &&& room.next_seq == 1
                    &&& room.member_acks == Map::<Uuid, u64>::empty()
                    &&& held ==> room.messages == n.rooms[id].messages && room.last_seq
                        == n.rooms[id].last_seq
                    &&& !held ==> room.messages.len() == 0 && room.last_seq == 0
                    &&& step.sent.len() == 1
                    &&& step.sent[0].dest_device == inv.rh_device
                    &&& step.sent[0].dest_app == inv.rh_app
                    &&& step.sent[0].msg_type == msg::HELLO
                    &&& step.sent[0].room_id == zero_id()
                    &&& hello_of(step.sent[0].body) == Some(
                        (device, app, seq![(id, contiguous(room.messages))]),
                    )
                },
                _ => nothing_done(n, step.node, step.sent),
            }
        }),
{
    if let (Some(inv), Some(device), Some(app)) = (
        invite_of(env.body),
        n.local_device,
        n.local_app_id,
    ) {
        let step = invite_step(n, env, Some(o), now);
        let room = step.node.rooms[env.room_id];
        let cursors = seq![(env.room_id, contiguous(room.messages))];
        hello_round_trip(device, app, cursors, Seq::empty());
        let h = hello_bytes(device, app, cursors);
        assert(h + Seq::<u8>::empty() =~= h);
        assert(room.members =~= inv.members.map_values(as_member()));
    }
}

} // verus!
