//! The life of a room: creation, invitations, announcements and changes of
//! membership, on the host's side and on a member's.

use crate::bytes::{read_uuid, uuid_at, zero_id, zero_uuid, Uuid};
use crate::codec::{decode_invite, decode_member_update, decode_open_room, encode_hello};
use crate::codec::{encode_invite, encode_member_update, hello_bytes, invite_bytes, invite_of};
use crate::codec::{listed_views, member_update_bytes, member_update_of, open_room_of, roster};
use crate::codec::{Envelope, EnvelopeModel, InviteModel, Listed, MEMBER_CHANGE_ADD};
use crate::codec::{MEMBER_CHANGE_LEAVE, MEMBER_CHANGE_REMOVE};
use crate::messages::{contiguous, contiguous_seq};
use crate::msg;
use crate::state::{members_rendered, reach, AppOwner, AppOwnerModel, ChatMsgModel, Inner, Member};
use crate::state::{MemberModel, NodeModel, Outbound, OutboundModel, Role, RoomModel, RoomState};
use crate::state::{UserDir, UserDirModel};
use crate::text::{dec, decimal, hex, hex_chars, join2, join3, join5, join7, short_hex};
use crate::text::short_hex_chars;
use crate::uuid::{is_uuid, uuid_eq, UuidMap};
use crate::views::{lemma_views_take, views};
use vstd::prelude::*;
use vstd::string::StringExecFns;

verus! {

// ── Steps ────────────────────────────────────────────────────────────────────

/// What a frame leads to: the node afterwards, a line for the log, and the
/// frames to send.
pub struct Step {
    pub node: NodeModel,
    pub detail: Seq<char>,
    pub sent: Seq<OutboundModel>,
}

/// A frame that changes nothing and is answered by nothing.
pub open spec fn ignored(n: NodeModel, detail: Seq<char>) -> Step {
    Step { node: n, detail, sent: Seq::empty() }
}

/// The sender as a model.
pub open spec fn owner_model(owner: Option<&AppOwner>) -> Option<AppOwnerModel> {
    match owner {
        Some(o) => Some(o@),
        None => None,
    }
}

/// Whether a handler took a step: the node, the log line and the queue.
pub open spec fn took(
    step: Step,
    node: NodeModel,
    detail: Seq<char>,
    before: Seq<Outbound>,
    after: Seq<Outbound>,
) -> bool {
    &&& node == step.node
    &&& detail == step.detail
    &&& views(after) == views(before) + step.sent
}

// ── Members ──────────────────────────────────────────────────────────────────

/// Whether `user` is among `members`.
pub open spec fn is_member(members: Seq<MemberModel>, user: Uuid) -> bool {
    exists|i: int| 0 <= i < members.len() && (#[trigger] members[i]).user_uuid == user
}

/// The place of the first entry for `user`, the length when there is none.
pub open spec fn member_index(members: Seq<MemberModel>, user: Uuid) -> int
    decreases members.len(),
{
    if members.len() == 0 {
        0
    } else {
        let front = member_index(members.drop_last(), user);
        if front < members.len() - 1 {
            front
        } else if members.last().user_uuid == user {
            members.len() - 1
        } else {
            members.len() as int
        }
    }
}

/// What the place of a user says about who is a member.
pub proof fn lemma_member_index(members: Seq<MemberModel>, user: Uuid)
    ensures
        0 <= member_index(members, user) <= members.len(),
        is_member(members, user) <==> member_index(members, user) < members.len(),
        is_member(members, user) ==> members[member_index(members, user)].user_uuid == user,
        forall|i: int|
            0 <= i < member_index(members, user) ==> (#[trigger] members[i]).user_uuid != user,
    decreases members.len(),
{
    if members.len() > 0 {
        let front = members.drop_last();
        lemma_member_index(front, user);
        assert forall|i: int| 0 <= i < front.len() implies front[i] == members[i] by {}
        assert(forall|i: int|
            0 <= i < member_index(front, user) ==> (#[trigger] members[i]) == front[i]);
        if is_member(front, user) {
            let i = member_index(front, user);
            assert(members[i].user_uuid == user);
        } else if members.last().user_uuid == user {
            assert(members[members.len() - 1].user_uuid == user);
        } else if is_member(members, user) {
            let i = choose|i: int|
                0 <= i < members.len() && (#[trigger] members[i]).user_uuid == user;
            assert(front[i].user_uuid == user);
        }
    }
}

/// The members without `user`.
pub open spec fn without(members: Seq<MemberModel>, user: Uuid) -> Seq<MemberModel>
    decreases members.len(),
{
    if members.len() == 0 {
        Seq::empty()
    } else {
        let front = without(members.drop_last(), user);
        if members.last().user_uuid == user {
            front
        } else {
            front.push(members.last())
        }
    }
}

/// Leaving a user out keeps the others as they are rendered.
proof fn lemma_without_rendered(members: Seq<MemberModel>, user: Uuid)
    requires
        members_rendered(members),
    ensures
        members_rendered(without(members, user)),
    decreases members.len(),
{
    if members.len() > 0 {
        let front = members.drop_last();
        assert forall|i: int| 0 <= i < front.len() implies (#[trigger] front[i]).user_uuid_hex
            == hex_chars(front[i].user_uuid@) by {
            assert(front[i] == members[i]);
        }
        lemma_without_rendered(front, user);
        assert(members[members.len() - 1] == members.last());
    }
}

/// The place of a user among the members.
pub fn find_member(members: &Vec<Member>, user: &Uuid) -> (r: Option<usize>)
    ensures
        match r {
            Some(i) => i < members@.len() && i == member_index(views(members@), *user)
                && is_member(views(members@), *user) && members@[i as int].user_uuid == *user,
            None => !is_member(views(members@), *user),
        },
{
    let ghost all = views(members@);
    let mut i: usize = 0;
    assert(all.take(0) =~= Seq::empty());
    while i < members.len()
        invariant
            i <= members@.len(),
            all == views(members@),
            forall|j: int| 0 <= j < i ==> (#[trigger] all[j]).user_uuid != *user,
        decreases members@.len() - i,
    {
        if uuid_eq(&members[i].user_uuid, user) {
            proof {
                lemma_member_index(all, *user);
                assert(all[i as int].user_uuid == *user);
            }
            return Some(i);
        }
        i += 1;
    }
    None
}

/// Whether a user is among the members.
pub fn has_member(members: &Vec<Member>, user: &Uuid) -> (r: bool)
    ensures
        r == is_member(views(members@), *user),
{
    find_member(members, user).is_some()
}

/// The members without a user.
pub fn drop_member(members: &Vec<Member>, user: &Uuid) -> (r: Vec<Member>)
    ensures
        views(r@) == without(views(members@), *user),
{
    broadcast use crate::views::group_views;

    let ghost all = views(members@);
    let mut out: Vec<Member> = Vec::new();
    let mut i: usize = 0;
    assert(all.take(0) =~= Seq::empty());
    while i < members.len()
        invariant
            i <= members@.len(),
            all == views(members@),
            views(out@) == without(all.take(i as int), *user),
        decreases members@.len() - i,
    {
        broadcast use crate::views::group_views;

        proof {
            lemma_views_take(members@, i as int);
        }
        if !uuid_eq(&members[i].user_uuid, user) {
            out.push(members[i].clone());
        }
        i += 1;
    }
    assert(all.take(i as int) =~= all);
    out
}

/// A user as a room member who has not announced themself.
pub open spec fn new_member(user: Uuid, alias: Seq<char>) -> MemberModel {
    MemberModel { user_uuid_hex: hex_chars(user@), user_uuid: user, alias, present: false }
}

fn make_member(user: &Uuid, alias: String) -> (r: Member)
    ensures
        r@ == new_member(*user, alias@),
{
    Member { user_uuid_hex: hex(user.as_slice()), user_uuid: *user, alias, present: false }
}

// ── Frames ───────────────────────────────────────────────────────────────────

/// One frame to a user's User Agent, none when it cannot be resolved.
pub open spec fn frame_to(
    directory: Map<Uuid, UserDirModel>,
    user: Uuid,
    msg_type: u8,
    room_id: Uuid,
    body: Seq<u8>,
) -> Seq<OutboundModel> {
    match reach(directory, user) {
        Some((dest_device, dest_app)) => seq![
            OutboundModel { dest_device, dest_app, msg_type, room_id, body },
        ],
        None => Seq::empty(),
    }
}

/// One frame to every member whose User Agent can be resolved, in the order of
/// the members.
pub open spec fn fan_out(
    directory: Map<Uuid, UserDirModel>,
    members: Seq<MemberModel>,
    msg_type: u8,
    room_id: Uuid,
    body: Seq<u8>,
) -> Seq<OutboundModel>
    decreases members.len(),
{
    if members.len() == 0 {
        Seq::empty()
    } else {
        fan_out(directory, members.drop_last(), msg_type, room_id, body) + frame_to(
            directory,
            members.last().user_uuid,
            msg_type,
            room_id,
            body,
        )
    }
}

/// Resolve a user's User Agent through the directory.
pub fn resolve_user(directory: &UuidMap<UserDir>, user: &Uuid) -> (r: Option<(Uuid, Uuid)>)
    ensures
        r == reach(directory@, *user),
{
    match directory.get(user) {
        Some(d) => d.resolve_ua(),
        None => None,
    }
}

/// Queue a frame to a user's User Agent, and say whether it could be resolved.
pub fn queue_to(
    directory: &UuidMap<UserDir>,
    user: &Uuid,
    msg_type: u8,
    room_id: &Uuid,
    body: &Vec<u8>,
    outs: &mut Vec<Outbound>,
) -> (r: bool)
    ensures
        r == (reach(directory@, *user) is Some),
        views(final(outs)@) == views(old(outs)@) + frame_to(
            directory@,
            *user,
            msg_type,
            *room_id,
            body@,
        ),
{
    broadcast use crate::views::group_views;

    match resolve_user(directory, user) {
        Some((dest_device, dest_app)) => {
            let mut copy: Vec<u8> = Vec::new();
            copy.extend_from_slice(body.as_slice());
            assert(copy@ =~= body@);
            outs.push(
                Outbound { dest_device, dest_app, msg_type, room_id: *room_id, body: copy },
            );
            assert(views(outs@) =~= views(old(outs)@) + frame_to(
                directory@,
                *user,
                msg_type,
                *room_id,
                body@,
            ));
            true
        },
        None => {
            assert(views(outs@) =~= views(old(outs)@) + Seq::<OutboundModel>::empty());
            false
        },
    }
}

/// Queue a frame to every member.
pub fn queue_to_all(
    directory: &UuidMap<UserDir>,
    members: &Vec<Member>,
    msg_type: u8,
    room_id: &Uuid,
    body: &Vec<u8>,
    outs: &mut Vec<Outbound>,
)
    ensures
        views(final(outs)@) == views(old(outs)@) + fan_out(
            directory@,
            views(members@),
            msg_type,
            *room_id,
            body@,
        ),
{
    let ghost all = views(members@);
    let mut i: usize = 0;
    assert(all.take(0) =~= Seq::empty());
    assert(views(outs@) + Seq::<OutboundModel>::empty() =~= views(outs@));
    while i < members.len()
        invariant
            i <= members@.len(),
            all == views(members@),
            views(outs@) == views(old(outs)@) + fan_out(
                directory@,
                all.take(i as int),
                msg_type,
                *room_id,
                body@,
            ),
        decreases members@.len() - i,
    {
        proof {
            lemma_views_take(members@, i as int);
        }
        queue_to(directory, &members[i].user_uuid, msg_type, room_id, body, outs);
        assert(views(outs@) =~= views(old(outs)@) + fan_out(
            directory@,
            all.take(i + 1),
            msg_type,
            *room_id,
            body@,
        ));
        i += 1;
    }
    assert(all.take(i as int) =~= all);
}

/// What an invitation to a room says.
pub open spec fn invitation(room: RoomModel) -> InviteModel {
    InviteModel {
        name: room.name,
        host_user: room.host_user,
        rh_device: room.rh_device,
        rh_app: room.rh_app_id,
        retention: room.retention_mode,
        join_hist: room.join_history_mode,
        members: roster(room.members),
    }
}

/// The invitation of one user, none when their User Agent cannot be resolved.
pub open spec fn invite_frame(
    directory: Map<Uuid, UserDirModel>,
    room: RoomModel,
    user: Uuid,
) -> Seq<OutboundModel> {
    frame_to(directory, user, msg::INVITE, room.room_id, invite_bytes(invitation(room)))
}

/// Queue an invitation to a member's User Agent, and say whether it could be
/// resolved.
pub fn queue_invite(
    directory: &UuidMap<UserDir>,
    room: &RoomState,
    user: &Uuid,
    outs: &mut Vec<Outbound>,
) -> (r: bool)
    ensures
        r == (reach(directory@, *user) is Some),
        views(final(outs)@) == views(old(outs)@) + invite_frame(directory@, room@, *user),
{
    let body = encode_invite(
        room.name.as_str(),
        &room.host_user,
        &room.rh_device,
        &room.rh_app_id,
        room.retention_mode,
        room.join_history_mode,
        room.members.as_slice(),
    );
    queue_to(directory, user, msg::INVITE, &room.room_id, &body, outs)
}

/// The invitations of all members in `members`.
pub open spec fn invite_frames(
    directory: Map<Uuid, UserDirModel>,
    room: RoomModel,
    members: Seq<MemberModel>,
) -> Seq<OutboundModel> {
    fan_out(directory, members, msg::INVITE, room.room_id, invite_bytes(invitation(room)))
}

/// Tell every member's User Agent about a change of membership.
pub fn fan_member_update(
    directory: &UuidMap<UserDir>,
    room: &RoomState,
    change: u8,
    user: &Uuid,
    alias: &str,
    outs: &mut Vec<Outbound>,
)
    ensures
        views(final(outs)@) == views(old(outs)@) + update_frames(
            directory@,
            room@,
            change,
            *user,
            alias@,
        ),
{
    let body = encode_member_update(change, user, alias);
    queue_to_all(directory, &room.members, msg::MEMBER_UPDATE, &room.room_id, &body, outs);
}

/// The notices of a change of membership.
pub open spec fn update_frames(
    directory: Map<Uuid, UserDirModel>,
    room: RoomModel,
    change: u8,
    user: Uuid,
    alias: Seq<char>,
) -> Seq<OutboundModel> {
    fan_out(
        directory,
        room.members,
        msg::MEMBER_UPDATE,
        room.room_id,
        member_update_bytes(change, user, alias),
    )
}

// ── Creating a room ──────────────────────────────────────────────────────────

/// The member list for invited users: our own user and users that the directory
/// does not know are left out.
pub open spec fn members_of(n: NodeModel, users: Seq<Uuid>) -> Seq<MemberModel>
    decreases users.len(),
{
    if users.len() == 0 {
        Seq::empty()
    } else {
        let front = members_of(n, users.drop_last());
        let u = users.last();
        if n.own_user_uuid == Some(u) || !n.directory.contains_key(u) {
            front
        } else {
            front.push(new_member(u, n.directory[u].alias))
        }
    }
}

proof fn lemma_members_rendered(n: NodeModel, users: Seq<Uuid>)
    ensures
        members_rendered(members_of(n, users)),
    decreases users.len(),
{
    if users.len() > 0 {
        lemma_members_rendered(n, users.drop_last());
    }
}

/// Build the member list for invited users, with the aliases of the directory.
/// Our own user and unknown users are left out.
pub fn build_members(inner: &Inner, member_uuids: &[Uuid]) -> (r: Vec<Member>)
    ensures
        views(r@) == members_of(inner@, member_uuids@),
{
    broadcast use crate::views::group_views;

    let mut out: Vec<Member> = Vec::new();
    let mut i: usize = 0;
    assert(member_uuids@.take(0) =~= Seq::empty());
    while i < member_uuids.len()
        invariant
            i <= member_uuids@.len(),
            views(out@) == members_of(inner@, member_uuids@.take(i as int)),
        decreases member_uuids@.len() - i,
    {
        broadcast use crate::views::group_views;

        let u = member_uuids[i];
        proof {
            assert(member_uuids@.take(i + 1).drop_last() =~= member_uuids@.take(i as int));
            assert(member_uuids@.take(i + 1).last() == u);
        }
        if !is_uuid(&inner.own_user_uuid, &u) {
            if let Some(d) = inner.directory.get(&u) {
                out.push(make_member(&u, d.alias.clone()));
            }
        }
        i += 1;
    }
    assert(member_uuids@.take(i as int) =~= member_uuids@);
    out
}

/// A new room hosted by this node.
pub open spec fn hosted_room(
    room_id: Uuid,
    name: Seq<char>,
    host_user: Uuid,
    rh_device: Uuid,
    rh_app_id: Uuid,
    members: Seq<MemberModel>,
    retention_mode: u8,
    join_history_mode: u8,
) -> RoomModel {
    RoomModel {
        room_id_hex: hex_chars(room_id@),
        room_id,
        name,
        host_user_hex: hex_chars(host_user@),
        host_user,
        rh_device_hex: hex_chars(rh_device@),
        rh_device,
        rh_app_id,
        is_rh: true,
        members,
        retention_mode,
        join_history_mode,
        hello_sent: None,
        messages: Seq::empty(),
        next_seq: 1,
        last_seq: 0,
        member_acks: Map::empty(),
    }
}

/// The answer to the client that asked for a room.
pub open spec fn created_frame(
    originator: Option<(Uuid, Uuid)>,
    room_id: Uuid,
) -> Seq<OutboundModel> {
    match originator {
        Some((dest_device, dest_app)) => seq![
            OutboundModel {
                dest_device,
                dest_app,
                msg_type: msg::ROOM_CREATED,
                room_id,
                body: Seq::empty(),
            },
        ],
        None => Seq::empty(),
    }
}

/// The outcome of creating a room: none before this node knows who it is.
pub open spec fn creation(
    n: NodeModel,
    room_id: Uuid,
    name: Seq<char>,
    retention: u8,
    join_hist: u8,
    users: Seq<Uuid>,
    originator: Option<(Uuid, Uuid)>,
) -> Option<(NodeModel, Seq<OutboundModel>)> {
    match (n.own_user_uuid, n.local_device, n.local_app_id) {
        (Some(u), Some(d), Some(a)) => {
            let room = hosted_room(
                room_id,
                name,
                u,
                d,
                a,
                members_of(n, users),
                retention,
                join_hist,
            );
            Some(
                (
                    n.with_room(room_id, room),
                    invite_frames(n.directory, room, room.members) + created_frame(
                        originator,
                        room_id,
                    ),
                ),
            )
        },
        _ => None,
    }
}

/// Create a room that this node hosts, under a fresh identifier: store it,
/// invite the members, and answer the client that asked for it, if any.
pub fn create_room(
    inner: &mut Inner,
    room_id: Uuid,
    name: &str,
    retention: u8,
    join_hist: u8,
    member_uuids: &[Uuid],
    originator: Option<(Uuid, Uuid)>,
    outs: &mut Vec<Outbound>,
) -> (r: Option<Uuid>)
    ensures
        match creation(
            old(inner)@,
            room_id,
            name@,
            retention,
            join_hist,
            member_uuids@,
            originator,
        ) {
            Some((n, sent)) => r == Some(room_id) && final(inner)@ == n && views(final(outs)@)
                == views(old(outs)@) + sent,
            None => r is None && final(inner)@ == old(inner)@ && views(final(outs)@) == views(
                old(outs)@,
            ),
        },
        old(inner)@.wf() ==> final(inner)@.wf(),
{
    broadcast use crate::views::group_views;

    let (host_user, rh_device, rh_app_id) = match (
        inner.own_user_uuid,
        inner.local_device,
        inner.local_app_id,
    ) {
        (Some(u), Some(d), Some(a)) => (u, d, a),
        _ => {
            return None;
        },
    };
    let members = build_members(inner, member_uuids);
    let room = RoomState {
        room_id_hex: hex(room_id.as_slice()),
        room_id,
        name: name.to_owned(),
        host_user_hex: hex(host_user.as_slice()),
        host_user,
        rh_device_hex: hex(rh_device.as_slice()),
        rh_device,
        rh_app_id,
        is_rh: true,
        members,
        retention_mode: retention,
        join_history_mode: join_hist,
        hello_sent: None,
        messages: Vec::new(),
        next_seq: 1,
        last_seq: 0,
        member_acks: UuidMap::new(),
    };
    let ghost model = hosted_room(
        room_id,
        name@,
        host_user,
        rh_device,
        rh_app_id,
        members_of(inner@, member_uuids@),
        retention,
        join_hist,
    );
    assert(room@ =~= model);
    let body = encode_invite(
        room.name.as_str(),
        &room.host_user,
        &room.rh_device,
        &room.rh_app_id,
        room.retention_mode,
        room.join_history_mode,
        room.members.as_slice(),
    );
    queue_to_all(&inner.directory, &room.members, msg::INVITE, &room_id, &body, outs);
    let ghost invited = views(outs@);
    if let Some((dest_device, dest_app)) = originator {
        outs.push(
            Outbound {
                dest_device,
                dest_app,
                msg_type: msg::ROOM_CREATED,
                room_id,
                body: Vec::new(),
            },
        );
    }
    assert(views(outs@) =~= invited + created_frame(originator, room_id));
    assert(views(outs@) =~= views(old(outs)@) + (invite_frames(
        inner@.directory,
        model,
        model.members,
    ) + created_frame(originator, room_id)));
    inner.rooms.insert(room_id, room);
    proof {
        lemma_members_rendered(old(inner)@, member_uuids@);
        assert(inner@ =~= old(inner)@.with_room(room_id, model));
    }
    Some(room_id)
}

/// The step for `OPEN_ROOM`: only one of our own user's devices may ask, and
/// only a User Agent hosts.
pub open spec fn open_room_step(
    n: NodeModel,
    env: EnvelopeModel,
    sender_id: Uuid,
    owner: Option<AppOwnerModel>,
    fresh_id: Uuid,
) -> Step {
    match owner {
        None => ignored(n, "OPEN_ROOM from unresolved sender — dropped"@),
        Some(o) => if n.role != Role::UserAgent {
            ignored(n, "OPEN_ROOM ignored — we are not a UserAgent (cannot be an RH)"@)
        } else if !o.own_user {
            ignored(n, "OPEN_ROOM from "@ + o.label + " rejected — not our user"@)
        } else {
            match open_room_of(env.body) {
                None => ignored(n, "OPEN_ROOM malformed"@),
                Some(open) => match creation(
                    n,
                    fresh_id,
                    open.name,
                    open.retention,
                    open.join_hist,
                    open.members,
                    Some((o.device_uuid, sender_id)),
                ) {
                    Some((node, sent)) => Step {
                        node,
                        detail: "created room '"@ + open.name + "' ("@ + short_hex_chars(fresh_id)
                            + "…) with "@ + dec(open.members.len()) + " member(s)"@,
                        sent,
                    },
                    None => ignored(n, "OPEN_ROOM failed — local identity not resolved yet"@),
                },
            }
        },
    }
}

/// Handle `OPEN_ROOM`: host a new room for one of our own user's clients.
pub fn handle_open_room(
    inner: &mut Inner,
    env: &Envelope<'_>,
    sender_id: Uuid,
    owner: Option<&AppOwner>,
    fresh_id: Uuid,
    outs: &mut Vec<Outbound>,
) -> (r: String)
    ensures
        took(
            open_room_step(old(inner)@, env@, sender_id, owner_model(owner), fresh_id),
            final(inner)@,
            r@,
            old(outs)@,
            final(outs)@,
        ),
        old(inner)@.wf() ==> final(inner)@.wf(),
{
    assert(views(outs@) + Seq::<OutboundModel>::empty() =~= views(outs@));
    let Some(owner) = owner else {
        return "OPEN_ROOM from unresolved sender — dropped".to_owned();
    };
    if inner.role != Role::UserAgent {
        return "OPEN_ROOM ignored — we are not a UserAgent (cannot be an RH)".to_owned();
    }
    if !owner.own_user {
        return join3("OPEN_ROOM from ", owner.label.as_str(), " rejected — not our user");
    }
    let Some(open) = decode_open_room(env.body) else {
        return "OPEN_ROOM malformed".to_owned();
    };
    match create_room(
        inner,
        fresh_id,
        open.name.as_str(),
        open.retention,
        open.join_hist,
        open.members.as_slice(),
        Some((owner.device_uuid, sender_id)),
        outs,
    ) {
        Some(rid) => join7(
            "created room '",
            open.name.as_str(),
            "' (",
            short_hex(&rid).as_str(),
            "…) with ",
            decimal(open.members.len() as u64).as_str(),
            " member(s)",
        ),
        None => "OPEN_ROOM failed — local identity not resolved yet".to_owned(),
    }
}

// ── Joining a room ───────────────────────────────────────────────────────────

/// The members that an invitation lists.
pub open spec fn invited_members(listed: Seq<Listed>) -> Seq<MemberModel> {
    Seq::new(listed.len(), |i: int| new_member(listed[i].0, listed[i].1))
}

fn list_invited(listed: &Vec<(Uuid, String)>) -> (r: Vec<Member>)
    ensures
        views(r@) == invited_members(listed_views(listed@)),
{
    let mut out: Vec<Member> = Vec::new();
    let mut i: usize = 0;
    while i < listed.len()
        invariant
            i <= listed@.len(),
            out@.len() == i,
            forall|j: int|
                0 <= j < i ==> (#[trigger] out@[j])@ == new_member(listed@[j].0, listed@[j].1@),
        decreases listed@.len() - i,
    {
        let alias: String = listed[i].1.clone();
        out.push(make_member(&listed[i].0, alias));
        i += 1;
    }
    assert(views(out@) =~= invited_members(listed_views(listed@)));
    out
}

/// A room that we were invited to, with the history that we already had.
pub open spec fn joined_room(
    room_id: Uuid,
    inv: InviteModel,
    messages: Seq<ChatMsgModel>,
    last_seq: u64,
    now: u64,
) -> RoomModel {
    RoomModel {
        room_id_hex: hex_chars(room_id@),
        room_id,
        name: inv.name,
        host_user_hex: hex_chars(inv.host_user@),
        host_user: inv.host_user,
        rh_device_hex: hex_chars(inv.rh_device@),
        rh_device: inv.rh_device,
        rh_app_id: inv.rh_app,
        is_rh: false,
        members: invited_members(inv.members),
        retention_mode: inv.retention,
        join_history_mode: inv.join_hist,
        hello_sent: Some(now),
        messages,
        next_seq: 1,
        last_seq,
        member_acks: Map::empty(),
    }
}

/// The history we hold of a room.
pub open spec fn held_messages(n: NodeModel, room_id: Uuid) -> Seq<ChatMsgModel> {
    if n.rooms.contains_key(room_id) {
        n.rooms[room_id].messages
    } else {
        Seq::empty()
    }
}

/// The highest sequence number we applied in a room.
pub open spec fn held_seq(n: NodeModel, room_id: Uuid) -> u64 {
    if n.rooms.contains_key(room_id) {
        n.rooms[room_id].last_seq
    } else {
        0
    }
}

/// The step for `INVITE`: join the room and announce ourselves to its host, with
/// the number up to which our history has no gap. An invitation to a room we
/// hold refreshes it and keeps its history.
pub open spec fn invite_step(
    n: NodeModel,
    env: EnvelopeModel,
    owner: Option<AppOwnerModel>,
    now: u64,
) -> Step {
    match owner {
        None => ignored(n, "INVITE from unresolved sender — dropped"@),
        Some(o) => match invite_of(env.body) {
            None => ignored(n, "INVITE malformed"@),
            Some(inv) => match (n.local_device, n.local_app_id) {
                (Some(my_device), Some(my_app)) => {
                    let cursor = contiguous(held_messages(n, env.room_id));
                    Step {
                        node: n.with_room(
                            env.room_id,
                            joined_room(
                                env.room_id,
                                inv,
                                held_messages(n, env.room_id),
                                held_seq(n, env.room_id),
                                now,
                            ),
                        ),
                        detail: if n.rooms.contains_key(env.room_id) {
                            "re-INVITE to '"@ + inv.name + "' — re-HELLO sent (cursor "@ + dec(
                                cursor as nat,
                            ) + ")"@
                        } else {
                            "invited to '"@ + inv.name + "' by "@ + o.label
                                + " — joined, HELLO sent"@
                        },
                        sent: seq![
                            OutboundModel {
                                dest_device: inv.rh_device,
                                dest_app: inv.rh_app,
                                msg_type: msg::HELLO,
                                room_id: zero_id(),
                                body: hello_bytes(
                                    my_device,
                                    my_app,
                                    seq![(env.room_id, cursor)],
                                ),
                            },
                        ],
                    }
                },
                _ => ignored(n, "INVITE received but local identity not resolved yet"@),
            },
        },
    }
}

/// Handle `INVITE`, received at `now`.
pub fn handle_invite(
    inner: &mut Inner,
    env: &Envelope<'_>,
    owner: Option<&AppOwner>,
    now: u64,
    outs: &mut Vec<Outbound>,
) -> (r: String)
    ensures
        took(
            invite_step(old(inner)@, env@, owner_model(owner), now),
            final(inner)@,
            r@,
            old(outs)@,
            final(outs)@,
        ),
        old(inner)@.wf() ==> final(inner)@.wf(),
{
    broadcast use crate::views::group_views;

    assert(views(outs@) + Seq::<OutboundModel>::empty() =~= views(outs@));
    let Some(owner) = owner else {
        return "INVITE from unresolved sender — dropped".to_owned();
    };
    let Some(inv) = decode_invite(env.body) else {
        return "INVITE malformed".to_owned();
    };
    let (my_device, my_app) = match (inner.local_device, inner.local_app_id) {
        (Some(d), Some(a)) => (d, a),
        _ => {
            return "INVITE received but local identity not resolved yet".to_owned();
        },
    };
    let members = list_invited(&inv.members);
    let (messages, last_seq, was_member) = match inner.rooms.remove(&env.room_id) {
        Some(r) => (r.messages, r.last_seq, true),
        None => (Vec::new(), 0u64, false),
    };
    let room = RoomState {
        room_id_hex: hex(env.room_id.as_slice()),
        room_id: env.room_id,
        name: inv.name.clone(),
        host_user_hex: hex(inv.host_user.as_slice()),
        host_user: inv.host_user,
        rh_device_hex: hex(inv.rh_device.as_slice()),
        rh_device: inv.rh_device,
        rh_app_id: inv.rh_app,
        is_rh: false,
        members,
        retention_mode: inv.retention,
        join_history_mode: inv.join_hist,
        hello_sent: Some(now),
        messages,
        next_seq: 1,
        last_seq,
        member_acks: UuidMap::new(),
    };
    let cursor: u64 = contiguous_seq(&room);
    let cursors = [(env.room_id, cursor)];
    let body = encode_hello(&my_device, &my_app, cursors.as_slice());
    assert(cursors@ =~= seq![(env.room_id, cursor)]);
    outs.push(
        Outbound {
            dest_device: inv.rh_device,
            dest_app: inv.rh_app,
            msg_type: msg::HELLO,
            room_id: zero_uuid(),
            body,
        },
    );
    inner.rooms.insert(env.room_id, room);
    proof {
        let step = invite_step(old(inner)@, env@, Some(owner@), now);
        assert(inner@.rooms =~= step.node.rooms);
        assert(inner@ =~= step.node);
        assert(views(outs@) =~= views(old(outs)@) + step.sent);
    }
    if was_member {
        join5(
            "re-INVITE to '",
            inv.name.as_str(),
            "' — re-HELLO sent (cursor ",
            decimal(cursor).as_str(),
            ")",
        )
    } else {
        join5(
            "invited to '",
            inv.name.as_str(),
            "' by ",
            owner.label.as_str(),
            " — joined, HELLO sent",
        )
    }
}

// ── Changing the membership ──────────────────────────────────────────────────

/// A room with other members.
pub open spec fn with_members(room: RoomModel, members: Seq<MemberModel>) -> RoomModel {
    RoomModel { members, ..room }
}

/// A room and its frames after adding a member: everyone so far is told, and
/// the new member is invited to the room as it is then.
pub open spec fn addition(
    n: NodeModel,
    room_id: Uuid,
    target: Uuid,
) -> (NodeModel, Seq<OutboundModel>) {
    let room = n.rooms[room_id];
    let alias = n.directory[target].alias;
    let grown = with_members(room, room.members.push(new_member(target, alias)));
    (
        n.with_room(room_id, grown),
        update_frames(n.directory, room, MEMBER_CHANGE_ADD, target, alias) + invite_frame(
            n.directory,
            grown,
            target,
        ),
    )
}

fn add_to_room(inner: &mut Inner, room_id: &Uuid, target: &Uuid, outs: &mut Vec<Outbound>)
    requires
        old(inner)@.rooms.contains_key(*room_id),
        old(inner)@.directory.contains_key(*target),
    ensures
        final(inner)@ == addition(old(inner)@, *room_id, *target).0,
        views(final(outs)@) == views(old(outs)@) + addition(old(inner)@, *room_id, *target).1,
        old(inner)@.wf() ==> final(inner)@.wf(),
{
    broadcast use crate::views::group_views;

    let alias = match inner.directory.get(target) {
        Some(d) => d.alias.clone(),
        None => String::new(),
    };
    let Some(mut room) = inner.rooms.remove(room_id) else {
        return ;
    };
    fan_member_update(
        &inner.directory,
        &room,
        MEMBER_CHANGE_ADD,
        target,
        alias.as_str(),
        outs,
    );
    room.members.push(make_member(target, alias));
    let ghost grown = with_members(
        old(inner)@.rooms[*room_id],
        old(inner)@.rooms[*room_id].members.push(
            new_member(*target, old(inner)@.directory[*target].alias),
        ),
    );
    assert(room@ =~= grown);
    queue_invite(&inner.directory, &room, target, outs);
    inner.rooms.insert(*room_id, room);
    proof {
        let (node, sent) = addition(old(inner)@, *room_id, *target);
        assert(inner@.rooms =~= node.rooms);
        assert(inner@ =~= node);
        assert(views(outs@) =~= views(old(outs)@) + sent);
    }
}

/// A room and its frames after the host removes a member: everyone is told,
/// the removed member too.
pub open spec fn removal(
    n: NodeModel,
    room_id: Uuid,
    target: Uuid,
) -> (NodeModel, Seq<OutboundModel>) {
    let room = n.rooms[room_id];
    let alias = room.members[member_index(room.members, target)].alias;
    (
        n.with_room(room_id, with_members(room, without(room.members, target))),
        update_frames(n.directory, room, MEMBER_CHANGE_REMOVE, target, alias),
    )
}

fn remove_from_room(inner: &mut Inner, room_id: &Uuid, target: &Uuid, outs: &mut Vec<Outbound>)
    requires
        old(inner)@.rooms.contains_key(*room_id),
        is_member(old(inner)@.rooms[*room_id].members, *target),
    ensures
        final(inner)@ == removal(old(inner)@, *room_id, *target).0,
        views(final(outs)@) == views(old(outs)@) + removal(old(inner)@, *room_id, *target).1,
        old(inner)@.wf() ==> final(inner)@.wf(),
{
    let Some(mut room) = inner.rooms.remove(room_id) else {
        return ;
    };
    let Some(i) = find_member(&room.members, target) else {
        return ;
    };
    fan_member_update(
        &inner.directory,
        &room,
        MEMBER_CHANGE_REMOVE,
        target,
        room.members[i].alias.as_str(),
        outs,
    );
    room.members = drop_member(&room.members, target);
    inner.rooms.insert(*room_id, room);
    proof {
        let (node, sent) = removal(old(inner)@, *room_id, *target);
        if old(inner)@.wf() {
            lemma_without_rendered(old(inner)@.rooms[*room_id].members, *target);
        }
        assert(inner@.rooms[*room_id] =~= node.rooms[*room_id]);
        assert(inner@.rooms =~= node.rooms);
        assert(inner@ =~= node);
    }
}

/// The user that a membership request names.
pub open spec fn target_of(body: Seq<u8>) -> Option<Uuid> {
    match uuid_at(body, 0) {
        Some((u, _)) => Some(u),
        None => None,
    }
}

/// The step for `ADD_MEMBER`: the host's own devices may add a contact to a
/// room that this node hosts.
pub open spec fn add_member_step(
    n: NodeModel,
    env: EnvelopeModel,
    owner: Option<AppOwnerModel>,
) -> Step {
    match owner {
        None => ignored(n, "ADD_MEMBER from unresolved sender — dropped"@),
        Some(o) => match target_of(env.body) {
            None => ignored(n, "ADD_MEMBER malformed"@),
            Some(target) => if !n.rooms.contains_key(env.room_id) {
                ignored(n, "ADD_MEMBER for unknown room"@)
            } else if !n.rooms[env.room_id].is_rh {
                ignored(n, "ADD_MEMBER ignored — we are not this room's RH"@)
            } else if !o.own_user {
                ignored(n, "ADD_MEMBER rejected — sender is not the host"@)
            } else if !n.directory.contains_key(target) {
                ignored(n, "ADD_MEMBER target not a known contact"@)
            } else if n.directory[target].own {
                ignored(n, "ADD_MEMBER target is our own user"@)
            } else if is_member(n.rooms[env.room_id].members, target) {
                ignored(n, "ADD_MEMBER: already a member"@)
            } else {
                Step {
                    node: addition(n, env.room_id, target).0,
                    detail: "added member "@ + n.directory[target].alias + " to '"@
                        + n.rooms[env.room_id].name + "'"@,
                    sent: addition(n, env.room_id, target).1,
                }
            },
        },
    }
}

/// Handle `ADD_MEMBER`.
pub fn handle_add_member(
    inner: &mut Inner,
    env: &Envelope<'_>,
    owner: Option<&AppOwner>,
    outs: &mut Vec<Outbound>,
) -> (r: String)
    ensures
        took(
            add_member_step(old(inner)@, env@, owner_model(owner)),
            final(inner)@,
            r@,
            old(outs)@,
            final(outs)@,
        ),
        old(inner)@.wf() ==> final(inner)@.wf(),
{
    assert(views(outs@) + Seq::<OutboundModel>::empty() =~= views(outs@));
    let Some(owner) = owner else {
        return "ADD_MEMBER from unresolved sender — dropped".to_owned();
    };
    let mut pos: usize = 0;
    let Some(target) = read_uuid(env.body, &mut pos) else {
        return "ADD_MEMBER malformed".to_owned();
    };
    let Some(room) = inner.rooms.get(&env.room_id) else {
        return "ADD_MEMBER for unknown room".to_owned();
    };
    if !room.is_rh {
        return "ADD_MEMBER ignored — we are not this room's RH".to_owned();
    }
    if !owner.own_user {
        return "ADD_MEMBER rejected — sender is not the host".to_owned();
    }
    let Some(dir) = inner.directory.get(&target) else {
        return "ADD_MEMBER target not a known contact".to_owned();
    };
    if dir.own {
        return "ADD_MEMBER target is our own user".to_owned();
    }
    if has_member(&room.members, &target) {
        return "ADD_MEMBER: already a member".to_owned();
    }
    let detail = join5("added member ", dir.alias.as_str(), " to '", room.name.as_str(), "'");
    add_to_room(inner, &env.room_id, &target, outs);
    detail
}

/// The step for `REMOVE_MEMBER`: the host's own devices may remove a member
/// from a room that this node hosts.
pub open spec fn remove_member_step(
    n: NodeModel,
    env: EnvelopeModel,
    owner: Option<AppOwnerModel>,
) -> Step {
    match owner {
        None => ignored(n, "REMOVE_MEMBER from unresolved sender — dropped"@),
        Some(o) => match target_of(env.body) {
            None => ignored(n, "REMOVE_MEMBER malformed"@),
            Some(target) => if !n.rooms.contains_key(env.room_id) {
                ignored(n, "REMOVE_MEMBER for unknown room"@)
            } else if !n.rooms[env.room_id].is_rh {
                ignored(n, "REMOVE_MEMBER ignored — we are not this room's RH"@)
            } else if !o.own_user {
                ignored(n, "REMOVE_MEMBER rejected — sender is not the host"@)
            } else if !is_member(n.rooms[env.room_id].members, target) {
                ignored(n, "REMOVE_MEMBER: not a member"@)
            } else {
                let room = n.rooms[env.room_id];
                Step {
                    node: removal(n, env.room_id, target).0,
                    detail: "removed member "@ + room.members[member_index(
                        room.members,
                        target,
                    )].alias + " from '"@ + room.name + "'"@,
                    sent: removal(n, env.room_id, target).1,
                }
            },
        },
    }
}

/// Handle `REMOVE_MEMBER`.
pub fn handle_remove_member(
    inner: &mut Inner,
    env: &Envelope<'_>,
    owner: Option<&AppOwner>,
    outs: &mut Vec<Outbound>,
) -> (r: String)
    ensures
        took(
            remove_member_step(old(inner)@, env@, owner_model(owner)),
            final(inner)@,
            r@,
            old(outs)@,
            final(outs)@,
        ),
        old(inner)@.wf() ==> final(inner)@.wf(),
{
    assert(views(outs@) + Seq::<OutboundModel>::empty() =~= views(outs@));
    let Some(owner) = owner else {
        return "REMOVE_MEMBER from unresolved sender — dropped".to_owned();
    };
    let mut pos: usize = 0;
    let Some(target) = read_uuid(env.body, &mut pos) else {
        return "REMOVE_MEMBER malformed".to_owned();
    };
    let Some(room) = inner.rooms.get(&env.room_id) else {
        return "REMOVE_MEMBER for unknown room".to_owned();
    };
    if !room.is_rh {
        return "REMOVE_MEMBER ignored — we are not this room's RH".to_owned();
    }
    if !owner.own_user {
        return "REMOVE_MEMBER rejected — sender is not the host".to_owned();
    }
    let Some(i) = find_member(&room.members, &target) else {
        return "REMOVE_MEMBER: not a member".to_owned();
    };
    let detail = join5(
        "removed member ",
        room.members[i].alias.as_str(),
        " from '",
        room.name.as_str(),
        "'",
    );
    remove_from_room(inner, &env.room_id, &target, outs);
    detail
}

/// The step for `LEAVE`: a member of a room that this node hosts leaves, and
/// those who stay are told.
pub open spec fn leave_step(
    n: NodeModel,
    env: EnvelopeModel,
    owner: Option<AppOwnerModel>,
) -> Step {
    match owner {
        None => ignored(n, "LEAVE from unresolved sender — dropped"@),
        Some(o) => if !n.rooms.contains_key(env.room_id) {
            ignored(n, "LEAVE for unknown room"@)
        } else if !n.rooms[env.room_id].is_rh {
            ignored(n, "LEAVE ignored — we are not this room's RH"@)
        } else if !is_member(n.rooms[env.room_id].members, o.user_uuid) {
            ignored(n, "LEAVE from a non-member — ignored"@)
        } else {
            let room = n.rooms[env.room_id];
            let alias = room.members[member_index(room.members, o.user_uuid)].alias;
            let shrunk = with_members(room, without(room.members, o.user_uuid));
            Step {
                node: n.with_room(env.room_id, shrunk),
                detail: alias + " left '"@ + room.name + "'"@,
                sent: update_frames(
                    n.directory,
                    shrunk,
                    MEMBER_CHANGE_LEAVE,
                    o.user_uuid,
                    alias,
                ),
            }
        },
    }
}

/// Handle `LEAVE`.
pub fn handle_leave(
    inner: &mut Inner,
    env: &Envelope<'_>,
    owner: Option<&AppOwner>,
    outs: &mut Vec<Outbound>,
) -> (r: String)
    ensures
        took(
            leave_step(old(inner)@, env@, owner_model(owner)),
            final(inner)@,
            r@,
            old(outs)@,
            final(outs)@,
        ),
        old(inner)@.wf() ==> final(inner)@.wf(),
{
    assert(views(outs@) + Seq::<OutboundModel>::empty() =~= views(outs@));
    let Some(owner) = owner else {
        return "LEAVE from unresolved sender — dropped".to_owned();
    };
    let Some(held) = inner.rooms.get(&env.room_id) else {
        return "LEAVE for unknown room".to_owned();
    };
    if !held.is_rh {
        return "LEAVE ignored — we are not this room's RH".to_owned();
    }
    let Some(i) = find_member(&held.members, &owner.user_uuid) else {
        return "LEAVE from a non-member — ignored".to_owned();
    };
    let alias: String = held.members[i].alias.clone();
    let mut detail = join3(alias.as_str(), " left '", held.name.as_str());
    detail.append("'");
    let Some(mut room) = inner.rooms.remove(&env.room_id) else {
        return detail;
    };
    room.members = drop_member(&room.members, &owner.user_uuid);
    let ghost before = old(inner)@.rooms[env.room_id];
    let ghost shrunk = with_members(before, without(before.members, owner.user_uuid));
    assert(room@ =~= shrunk);
    fan_member_update(
        &inner.directory,
        &room,
        MEMBER_CHANGE_LEAVE,
        &owner.user_uuid,
        alias.as_str(),
        outs,
    );
    inner.rooms.insert(env.room_id, room);
    proof {
        let step = leave_step(old(inner)@, env@, Some(owner@));
        if old(inner)@.wf() {
            lemma_without_rendered(before.members, owner.user_uuid);
        }
        assert(inner@.rooms =~= step.node.rooms);
        assert(inner@ =~= step.node);
    }
    detail
}

/// The step for `MEMBER_UPDATE`: only the device of the room's host is
/// believed, and our own removal or leaving drops the room.
pub open spec fn member_update_step(
    n: NodeModel,
    env: EnvelopeModel,
    owner: Option<AppOwnerModel>,
) -> Step {
    match owner {
        None => ignored(n, "MEMBER_UPDATE from unresolved sender — dropped"@),
        Some(o) => match member_update_of(env.body) {
            None => ignored(n, "MEMBER_UPDATE malformed"@),
            Some((change, user, alias)) => if !n.rooms.contains_key(env.room_id) {
                ignored(n, "MEMBER_UPDATE for unknown room"@)
            } else if o.device_uuid != n.rooms[env.room_id].rh_device {
                ignored(n, "MEMBER_UPDATE not from our RH — dropped"@)
            } else {
                let room = n.rooms[env.room_id];
                if (change == MEMBER_CHANGE_REMOVE || change == MEMBER_CHANGE_LEAVE)
                    && n.own_user_uuid == Some(user) {
                    ignored(
                        NodeModel { rooms: n.rooms.remove(env.room_id), ..n },
                        "we were removed from '"@ + room.name + "' — left the room"@,
                    )
                } else if change == MEMBER_CHANGE_ADD {
                    ignored(
                        if is_member(room.members, user) {
                            n
                        } else {
                            n.with_room(
                                env.room_id,
                                with_members(room, room.members.push(new_member(user, alias))),
                            )
                        },
                        "member added to '"@ + room.name + "': "@ + alias,
                    )
                } else if change == MEMBER_CHANGE_REMOVE || change == MEMBER_CHANGE_LEAVE {
                    ignored(
                        n.with_room(
                            env.room_id,
                            with_members(room, without(room.members, user)),
                        ),
                        alias + (if change == MEMBER_CHANGE_LEAVE {
                            " left '"@
                        } else {
                            " removed from '"@
                        }) + room.name + "'"@,
                    )
                } else {
                    ignored(n, "MEMBER_UPDATE unknown change kind"@)
                }
            },
        },
    }
}

/// Handle `MEMBER_UPDATE`.
pub fn handle_member_update(
    inner: &mut Inner,
    env: &Envelope<'_>,
    owner: Option<&AppOwner>,
) -> (r: String)
    ensures
        final(inner)@ == member_update_step(old(inner)@, env@, owner_model(owner)).node,
        r@ == member_update_step(old(inner)@, env@, owner_model(owner)).detail,
        old(inner)@.wf() ==> final(inner)@.wf(),
{
    broadcast use crate::views::group_views;

    let Some(owner) = owner else {
        return "MEMBER_UPDATE from unresolved sender — dropped".to_owned();
    };
    let Some((change, user, alias)) = decode_member_update(env.body) else {
        return "MEMBER_UPDATE malformed".to_owned();
    };
    let Some(held) = inner.rooms.get(&env.room_id) else {
        return "MEMBER_UPDATE for unknown room".to_owned();
    };
    if !uuid_eq(&owner.device_uuid, &held.rh_device) {
        return "MEMBER_UPDATE not from our RH — dropped".to_owned();
    }
    if (change == MEMBER_CHANGE_REMOVE || change == MEMBER_CHANGE_LEAVE) && is_uuid(
        &inner.own_user_uuid,
        &user,
    ) {
        let detail = join3("we were removed from '", held.name.as_str(), "' — left the room");
        inner.rooms.remove(&env.room_id);
        assert(inner@ =~= member_update_step(old(inner)@, env@, Some(owner@)).node);
        return detail;
    }
    if change != MEMBER_CHANGE_ADD && change != MEMBER_CHANGE_REMOVE && change
        != MEMBER_CHANGE_LEAVE {
        return "MEMBER_UPDATE unknown change kind".to_owned();
    }
    let Some(mut room) = inner.rooms.remove(&env.room_id) else {
        return alias;
    };
    let ghost before = old(inner)@.rooms[env.room_id];
    let detail = if change == MEMBER_CHANGE_ADD {
        let detail = {
            let mut d = join3("member added to '", room.name.as_str(), "': ");
            d.append(alias.as_str());
            d
        };
        if !has_member(&room.members, &user) {
            room.members.push(make_member(&user, alias));
        }
        detail
    } else {
        room.members = drop_member(&room.members, &user);
        let verb = if change == MEMBER_CHANGE_LEAVE {
            " left '"
        } else {
            " removed from '"
        };
        let mut d = join3(alias.as_str(), verb, room.name.as_str());
        d.append("'");
        d
    };
    inner.rooms.insert(env.room_id, room);
    proof {
        let step = member_update_step(old(inner)@, env@, Some(owner@));
        if old(inner)@.wf() {
            lemma_without_rendered(before.members, user);
        }
        assert(step.node.rooms.contains_key(env.room_id));
        assert(inner@.rooms[env.room_id] =~= step.node.rooms[env.room_id]);
        assert(inner@.rooms =~= step.node.rooms);
        assert(inner@ =~= step.node);
    }
    detail
}

// ── Changes from the local user ──────────────────────────────────────────────

/// The outcome of a local request to add a member.
pub open spec fn local_add(
    n: NodeModel,
    room_id: Uuid,
    target: Uuid,
) -> Result<(NodeModel, Seq<OutboundModel>, Seq<char>), Seq<char>> {
    if !n.rooms.contains_key(room_id) {
        Err("unknown room"@)
    } else if !n.directory.contains_key(target) {
        Err("target not a known contact"@)
    } else if n.directory[target].own {
        Err("target is our own user"@)
    } else if is_member(n.rooms[room_id].members, target) {
        Err("already a member"@)
    } else {
        let (node, sent) = addition(n, room_id, target);
        Ok((node, sent, "added "@ + n.directory[target].alias))
    }
}

/// Whether a local request had its outcome.
pub open spec fn answered(
    outcome: Result<(NodeModel, Seq<OutboundModel>, Seq<char>), Seq<char>>,
    r: Result<String, String>,
    was: NodeModel,
    is: NodeModel,
    before: Seq<Outbound>,
    after: Seq<Outbound>,
) -> bool {
    match outcome {
        Ok((node, sent, note)) => {
            &&& r matches Ok(m) && m@ == note
            &&& is == node
            &&& views(after) == views(before) + sent
        },
        Err(note) => {
            &&& r matches Err(e) && e@ == note
            &&& is == was
            &&& views(after) == views(before)
        },
    }
}

/// Add a member to a room that this node hosts, for the local user.
pub fn local_add_member(
    inner: &mut Inner,
    room_id: &Uuid,
    target: &Uuid,
    outs: &mut Vec<Outbound>,
) -> (r: Result<String, String>)
    ensures
        answered(
            local_add(old(inner)@, *room_id, *target),
            r,
            old(inner)@,
            final(inner)@,
            old(outs)@,
            final(outs)@,
        ),
        old(inner)@.wf() ==> final(inner)@.wf(),
{
    let Some(room) = inner.rooms.get(room_id) else {
        return Err("unknown room".to_owned());
    };
    let Some(dir) = inner.directory.get(target) else {
        return Err("target not a known contact".to_owned());
    };
    if dir.own {
        return Err("target is our own user".to_owned());
    }
    if has_member(&room.members, target) {
        return Err("already a member".to_owned());
    }
    let note = join2("added ", dir.alias.as_str());
    add_to_room(inner, room_id, target, outs);
    Ok(note)
}

/// The outcome of a local request to remove a member.
pub open spec fn local_remove(
    n: NodeModel,
    room_id: Uuid,
    target: Uuid,
) -> Result<(NodeModel, Seq<OutboundModel>, Seq<char>), Seq<char>> {
    if !n.rooms.contains_key(room_id) {
        Err("unknown room"@)
    } else if !is_member(n.rooms[room_id].members, target) {
        Err("not a member"@)
    } else {
        let (node, sent) = removal(n, room_id, target);
        let members = n.rooms[room_id].members;
        Ok((node, sent, "removed "@ + members[member_index(members, target)].alias))
    }
}

/// Remove a member from a room that this node hosts, for the local user.
pub fn local_remove_member(
    inner: &mut Inner,
    room_id: &Uuid,
    target: &Uuid,
    outs: &mut Vec<Outbound>,
) -> (r: Result<String, String>)
    ensures
        answered(
            local_remove(old(inner)@, *room_id, *target),
            r,
            old(inner)@,
            final(inner)@,
            old(outs)@,
            final(outs)@,
        ),
        old(inner)@.wf() ==> final(inner)@.wf(),
{
    let Some(room) = inner.rooms.get(room_id) else {
        return Err("unknown room".to_owned());
    };
    let Some(i) = find_member(&room.members, target) else {
        return Err("not a member".to_owned());
    };
    let note = join2("removed ", room.members[i].alias.as_str());
    remove_from_room(inner, room_id, target, outs);
    Ok(note)
}

} // verus!
