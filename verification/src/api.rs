//! What the local user asks for, and what the node does on its own from time
//! to time.

use crate::bytes::{text_bytes, zero_id, zero_uuid, Uuid};
use crate::clock::now_ms;
use crate::codec::{encode_dev_text, encode_envelope, encode_open_room, encode_post};
use crate::codec::{envelope_bytes, open_room_bytes, post_bytes, MAX_APP_PAYLOAD};
use crate::messages::{acked, acked_seq, after, has_seq_left, lemma_highest, ordering};
use crate::messages::{replay_after, replay_frames, rh_accept_message, seq_left, top_seq};
use crate::msg;
use crate::packet::{build_send, send_bytes};
use crate::rooms::{answered, create_room, creation, invite_frames, local_add, local_add_member};
use crate::rooms::{local_remove, local_remove_member, queue_invite, resolve_user};
use crate::state::{highest_seq, reach, ua_of, AttachState, ChatMsgModel, Inner, MemberModel};
use crate::state::{NodeModel, Outbound, OutboundModel, Role, RoomModel, RoomState, UserDir};
use crate::state::UserDirModel;
use crate::text::{blank, dec, decimal, hex, hex_chars, hex_to_uuid, is_blank, join2, join3};
use crate::text::{join5, lemma_bytes_le_total, lemma_bytes_le_transitive, precedes, short_hex};
use crate::text::{short_hex_chars, text_le, uuid_of_hex};
use crate::uuid::UuidMap;
use crate::views::{lemma_views_take, views};
use vstd::prelude::*;
use vstd::utf8::encode_utf8;

verus! {

/// How often a client announces itself to its User Agent, in seconds.
pub const ATTACH_INTERVAL_SECS: u64 = 10;

/// How often a host invites absent members again, in seconds.
pub const ROOM_MAINT_INTERVAL_SECS: u64 = 15;

/// How often a host sends unacknowledged messages again, in seconds.
pub const RH_RETRY_INTERVAL_SECS: u64 = 5;

/// How often the check of a saved token is repeated.
pub const STARTUP_RETRIES: u32 = 4;

/// How long to wait before repeating it, in seconds.
pub const STARTUP_RETRY_DELAY_SECS: u64 = 2;

// ── Starting up ──────────────────────────────────────────────────────────────

/// What to do after an attempt to check a saved token.
#[derive(Clone, Copy, Debug, PartialEq, Eq, Structural)]
pub enum TokenStep {
    /// The daemon knows the token.
    Valid,
    /// Wait, and try again.
    Again,
    /// Use the token all the same, and go on in the background.
    GiveUp,
}

/// What to do after the attempt number `attempt`, counted from one, which did or
/// did not learn of the app.
pub fn startup_step(attempt: u32, has_info: bool) -> (r: TokenStep)
    ensures
        r == (if has_info {
            TokenStep::Valid
        } else if attempt <= STARTUP_RETRIES {
            TokenStep::Again
        } else {
            TokenStep::GiveUp
        }),
{
    if has_info {
        TokenStep::Valid
    } else if attempt <= STARTUP_RETRIES {
        TokenStep::Again
    } else {
        TokenStep::GiveUp
    }
}

// ── Answers ──────────────────────────────────────────────────────────────────

/// The outcome of a local request: the node, the frames to send and a note, or
/// the reason why nothing was done.
pub type Outcome = Result<(NodeModel, Seq<OutboundModel>, Seq<char>), Seq<char>>;

/// The answer to a local request.
pub struct SendResponse {
    pub ok: bool,
    /// A note on success, the reason on failure.
    pub error: Option<String>,
}

/// Answer a request. Without a token nothing can be sent, so success is owed
/// only when there is one; a refusal is passed on as it is.
pub fn finish(token: &Option<Uuid>, result: Result<String, String>) -> (r: SendResponse)
    ensures
        r.ok == (token is Some && result is Ok),
        r.error matches Some(e) && e@ == match result {
            Ok(m) => if token is Some {
                m@
            } else {
                "not registered"@
            },
            Err(e) => e@,
        },
{
    match result {
        Ok(m) => if token.is_some() {
            SendResponse { ok: true, error: Some(m) }
        } else {
            SendResponse { ok: false, error: Some("not registered".to_owned()) }
        },
        Err(e) => SendResponse { ok: false, error: Some(e) },
    }
}

// ── Test frames ──────────────────────────────────────────────────────────────

/// The payload of a `DEV_TEXT` frame.
pub open spec fn dev_payload(text: Seq<char>) -> Seq<u8> {
    envelope_bytes(msg::DEV_TEXT, zero_id(), text_bytes(text))
}

/// The packet that carries a text to a listed destination.
pub open spec fn dev_packet(
    n: NodeModel,
    dest_index: int,
    text: Seq<char>,
) -> Result<Seq<u8>, Seq<char>> {
    match n.token {
        None => Err("not registered"@),
        Some(token) => if dest_index >= n.destinations.len() {
            Err("invalid destination index"@)
        } else if dev_payload(text).len() > MAX_APP_PAYLOAD {
            Err(
                "message too long ("@ + dec(dev_payload(text).len()) + " > "@ + dec(
                    MAX_APP_PAYLOAD as nat,
                ) + " bytes)"@,
            )
        } else {
            let dest = n.destinations[dest_index];
            Ok(send_bytes(token, dest.device_uuid, dest.app_id, dev_payload(text)))
        },
    }
}

/// Build the packet that carries a text to a listed destination.
pub fn prepare_send(inner: &Inner, dest_index: usize, text: &str) -> (r: Result<Vec<u8>, String>)
    ensures
        match dev_packet(inner@, dest_index as int, text@) {
            Ok(p) => r matches Ok(b) && b@ == p,
            Err(note) => r matches Err(e) && e@ == note,
        },
{
    let Some(token) = inner.token else {
        return Err("not registered".to_owned());
    };
    if dest_index >= inner.destinations.len() {
        return Err("invalid destination index".to_owned());
    }
    let body = encode_dev_text(text);
    let payload = encode_envelope(msg::DEV_TEXT, &zero_uuid(), body.as_slice());
    if payload.len() > MAX_APP_PAYLOAD {
        return Err(
            join5(
                "message too long (",
                decimal(payload.len() as u64).as_str(),
                " > ",
                decimal(MAX_APP_PAYLOAD as u64).as_str(),
                " bytes)",
            ),
        );
    }
    let dest = &inner.destinations[dest_index];
    Ok(build_send(&token, dest.device_uuid.as_slice(), &dest.app_id, payload.as_slice()))
}

// ── What the user sees ───────────────────────────────────────────────────────

/// A contact who could be invited to a room.
pub struct ContactUser {
    pub user_uuid_hex: String,
    pub alias: String,
    /// Whether their User Agent can be resolved right now.
    pub ua_resolvable: bool,
}

/// The model of `ContactUser`.
pub struct ContactUserModel {
    pub user_uuid_hex: Seq<char>,
    pub alias: Seq<char>,
    pub ua_resolvable: bool,
}

impl View for ContactUser {
    type V = ContactUserModel;

    open spec fn view(&self) -> ContactUserModel {
        ContactUserModel {
            user_uuid_hex: self.user_uuid_hex@,
            alias: self.alias@,
            ua_resolvable: self.ua_resolvable,
        }
    }
}

/// A directory entry as a contact.
pub open spec fn contact_of(user: Uuid, d: UserDirModel) -> ContactUserModel {
    ContactUserModel {
        user_uuid_hex: hex_chars(user@),
        alias: d.alias,
        ua_resolvable: ua_of(d.sgs) is Some,
    }
}

/// Whether `users` are the users of the directory other than our own, each once.
pub open spec fn are_contacts(users: Seq<Uuid>, directory: Map<Uuid, UserDirModel>) -> bool {
    &&& users.no_duplicates()
    &&& forall|u: Uuid| #[trigger]
        users.contains(u) <==> directory.contains_key(u) && !directory[u].own
}

/// The directory entries of `users` as contacts.
pub open spec fn contacts_of(
    users: Seq<Uuid>,
    directory: Map<Uuid, UserDirModel>,
) -> Seq<ContactUserModel> {
    Seq::new(users.len(), |i: int| contact_of(users[i], directory[users[i]]))
}

/// The contacts, each once, in no particular order.
pub fn list_contacts(inner: &Inner) -> (r: Vec<ContactUser>)
    ensures
        exists|users: Seq<Uuid>| #[trigger]
            are_contacts(users, inner@.directory) && views(r@) == contacts_of(
                users,
                inner@.directory,
            ),
{
    broadcast use crate::views::group_views;

    let ids = inner.directory.keys();
    let ghost dir = inner@.directory;
    let ghost mut users = Seq::<Uuid>::empty();
    let mut out: Vec<ContactUser> = Vec::new();
    let mut i: usize = 0;
    assert(views(out@) =~= contacts_of(users, dir));
    while i < ids.len()
        invariant
            i <= ids@.len(),
            dir == inner@.directory,
            ids@.no_duplicates(),
            forall|u: Uuid| #[trigger] ids@.contains(u) <==> dir.contains_key(u),
            users.no_duplicates(),
            forall|u: Uuid| #[trigger]
                users.contains(u) <==> ids@.take(i as int).contains(u) && !dir[u].own,
            views(out@) == contacts_of(users, dir),
        decreases ids@.len() - i,
    {
        broadcast use crate::views::group_views;

        let ghost before = users;
        let ghost u = ids@[i as int];
        proof {
            assert(ids@.contains(u));
            assert(ids@.take(i + 1) =~= ids@.take(i as int).push(u));
            assert(!ids@.take(i as int).contains(u));
            assert forall|x: Uuid| #[trigger]
                ids@.take(i + 1).contains(x) <==> x == u || ids@.take(i as int).contains(x) by {
                if ids@.take(i as int).contains(x) {
                    let j = choose|j: int| 0 <= j < i && ids@.take(i as int)[j] == x;
                    assert(ids@.take(i + 1)[j] == x);
                }
                if x == u {
                    assert(ids@.take(i + 1)[i as int] == x);
                }
            }
        }
        if let Some(d) = inner.directory.get(&ids[i]) {
            if !d.own {
                let ua = d.resolve_ua();
                out.push(
                    ContactUser {
                        user_uuid_hex: hex(ids[i].as_slice()),
                        alias: d.alias.clone(),
                        ua_resolvable: ua.is_some(),
                    },
                );
                proof {
                    users = users.push(u);
                    assert(!before.contains(u));
                    assert forall|x: Uuid| #[trigger]
                        users.contains(x) <==> x == u || before.contains(x) by {
                        if before.contains(x) {
                            let j = choose|j: int| 0 <= j < before.len() && before[j] == x;
                            assert(users[j] == x);
                        }
                        if x == u {
                            assert(users[before.len() as int] == x);
                        }
                    }
                    assert(views(out@) =~= contacts_of(users, dir));
                }
            }
        }
        i += 1;
    }
    proof {
        assert(ids@.take(i as int) =~= ids@);
        assert(are_contacts(users, dir));
    }
    out
}

/// Whether `ids` are the rooms, each once.
pub open spec fn are_rooms(ids: Seq<Uuid>, rooms: Map<Uuid, RoomModel>) -> bool {
    &&& ids.no_duplicates()
    &&& forall|u: Uuid| #[trigger] ids.contains(u) <==> rooms.contains_key(u)
}

/// Whether `ids` are in the order of their rooms' names.
pub open spec fn by_name(ids: Seq<Uuid>, rooms: Map<Uuid, RoomModel>) -> bool {
    forall|i: int, j: int|
        0 <= i < j < ids.len() ==> text_le(
            rooms[#[trigger] ids[i]].name,
            rooms[#[trigger] ids[j]].name,
        )
}

fn insert_by_name(rooms: &UuidMap<RoomState>, sorted: &mut Vec<Uuid>, id: Uuid)
    requires
        rooms@.contains_key(id),
        by_name(old(sorted)@, rooms@),
        forall|i: int|
            0 <= i < old(sorted)@.len() ==> rooms@.contains_key(#[trigger] old(sorted)@[i]),
    ensures
        by_name(final(sorted)@, rooms@),
        exists|k: int|
            0 <= k <= old(sorted)@.len() && final(sorted)@ == #[trigger] old(sorted)@.insert(k, id),
{
    let Some(room) = rooms.get(&id) else {
        return ;
    };
    let ghost before = sorted@;
    let mut k: usize = sorted.len();
    let mut placed = false;
    while k > 0 && !placed
        invariant
            k <= sorted@.len(),
            sorted@ == before,
            rooms@.contains_key(id),
            room@ == rooms@[id],
            forall|i: int| 0 <= i < before.len() ==> rooms@.contains_key(#[trigger] before[i]),
            forall|j: int|
                k <= j < before.len() ==> text_le(
                    rooms@[id].name,
                    rooms@[#[trigger] before[j]].name,
                ),
            placed ==> k > 0 && text_le(rooms@[before[k - 1]].name, rooms@[id].name),
        decreases k + if placed {
            0int
        } else {
            1
        },
    {
        match rooms.get(&sorted[k - 1]) {
            Some(other) => {
                if precedes(other.name.as_str(), room.name.as_str()) {
                    placed = true;
                } else {
                    proof {
                        lemma_bytes_le_total(
                            encode_utf8(other.name@),
                            encode_utf8(room.name@),
                        );
                    }
                    k -= 1;
                }
            },
            None => {
                k -= 1;
            },
        }
    }
    sorted.insert(k, id);
    proof {
        let out = sorted@;
        assert(out == before.insert(k as int, id));
        assert forall|i: int, j: int| 0 <= i < j < out.len() implies text_le(
            rooms@[#[trigger] out[i]].name,
            rooms@[#[trigger] out[j]].name,
        ) by {
            let oi = if i < k {
                i
            } else {
                i - 1
            };
            let oj = if j < k {
                j
            } else {
                j - 1
            };
            if i != k && j != k {
                assert(out[i] == before[oi] && out[j] == before[oj]);
            } else if i == k {
                assert(out[j] == before[oj]);
            } else {
                assert(out[i] == before[i]);
                if i < k - 1 {
                    lemma_bytes_le_transitive(
                        encode_utf8(rooms@[before[i]].name),
                        encode_utf8(rooms@[before[k - 1]].name),
                        encode_utf8(rooms@[id].name),
                    );
                }
            }
        }
    }
}

/// The rooms, each once, in the order of their names.
pub fn rooms_by_name(inner: &Inner) -> (r: Vec<Uuid>)
    ensures
        are_rooms(r@, inner@.rooms),
        by_name(r@, inner@.rooms),
{
    let ids = inner.rooms.keys();
    let mut out: Vec<Uuid> = Vec::new();
    let mut i: usize = 0;
    while i < ids.len()
        invariant
            i <= ids@.len(),
            ids@.no_duplicates(),
            forall|u: Uuid| #[trigger] ids@.contains(u) <==> inner@.rooms.contains_key(u),
            out@.no_duplicates(),
            forall|u: Uuid| #[trigger] out@.contains(u) <==> ids@.take(i as int).contains(u),
            by_name(out@, inner@.rooms),
        decreases ids@.len() - i,
    {
        let ghost before = out@;
        let ghost u = ids@[i as int];
        proof {
            assert(ids@.contains(u));
            assert forall|j: int| 0 <= j < before.len() implies inner@.rooms.contains_key(
                #[trigger] before[j],
            ) by {
                assert(before.contains(before[j]));
                let t = ids@.take(i as int);
                let x = choose|x: int| 0 <= x < t.len() && t[x] == before[j];
                assert(ids@[x] == before[j]);
                assert(ids@.contains(before[j]));
            }
        }
        insert_by_name(&inner.rooms, &mut out, ids[i]);
        proof {
            let k = choose|k: int|
                0 <= k <= before.len() && out@ == #[trigger] before.insert(k, u);
            let t = ids@.take(i as int);
            assert(ids@.take(i + 1) =~= t.push(u));
            assert(!t.contains(u));
            assert(!before.contains(u));
            lemma_insert_contains(before, k, u);
            lemma_insert_contains(t, t.len() as int, u);
            assert(t.insert(t.len() as int, u) =~= t.push(u));
        }
        i += 1;
    }
    assert(ids@.take(i as int) =~= ids@);
    out
}

proof fn lemma_insert_contains(s: Seq<Uuid>, k: int, u: Uuid)
    requires
        0 <= k <= s.len(),
        s.no_duplicates(),
        !s.contains(u),
    ensures
        s.insert(k, u).no_duplicates(),
        forall|x: Uuid| #[trigger] s.insert(k, u).contains(x) <==> x == u || s.contains(x),
{
    let out = s.insert(k, u);
    assert forall|x: Uuid| #[trigger] out.contains(x) <==> x == u || s.contains(x) by {
        if out.contains(x) && x != u {
            let j = choose|j: int| 0 <= j < out.len() && out[j] == x;
            if j < k {
                assert(s[j] == x);
            } else {
                assert(s[j - 1] == x);
            }
        }
        if s.contains(x) {
            let j = choose|j: int| 0 <= j < s.len() && s[j] == x;
            if j < k {
                assert(out[j] == x);
            } else {
                assert(out[j + 1] == x);
            }
        }
        if x == u {
            assert(out[k] == x);
        }
    }
    assert forall|i: int, j: int| 0 <= i < out.len() && 0 <= j < out.len() && i != j implies out[i]
        != out[j] by {
        let oi = if i < k {
            i
        } else {
            i - 1
        };
        let oj = if j < k {
            j
        } else {
            j - 1
        };
        if i != k {
            assert(out[i] == s[oi]);
            assert(s.contains(s[oi]));
        }
        if j != k {
            assert(out[j] == s[oj]);
            assert(s.contains(s[oj]));
        }
    }
}

/// Whether the daemon's owner approved this app.
pub fn is_approved(inner: &Inner) -> (r: bool)
    ensures
        r == (inner@.app_info matches Some(a) && a.approved),
{
    match &inner.app_info {
        Some(a) => a.approved,
        None => false,
    }
}

/// How long to wait before the next fetch, in seconds: longer once the app is
/// known.
pub fn refresh_delay(inner: &Inner) -> (r: u64)
    ensures
        r == if inner@.app_info is Some {
            30u64
        } else {
            5u64
        },
{
    if inner.app_info.is_some() {
        30
    } else {
        5
    }
}

// ── Rooms, for the local user ────────────────────────────────────────────────

/// The users that hexadecimal strings name; what does not parse is left out.
pub open spec fn parsed_users(hexes: Seq<Seq<char>>) -> Seq<Uuid>
    decreases hexes.len(),
{
    if hexes.len() == 0 {
        Seq::empty()
    } else {
        let front = parsed_users(hexes.drop_last());
        match uuid_of_hex(hexes.last()) {
            Some(u) => front.push(u),
            None => front,
        }
    }
}

fn parse_users(hexes: &Vec<String>) -> (r: Vec<Uuid>)
    ensures
        r@ == parsed_users(views(hexes@)),
{
    let ghost all = views(hexes@);
    let mut out: Vec<Uuid> = Vec::new();
    let mut i: usize = 0;
    assert(all.take(0) =~= Seq::empty());
    while i < hexes.len()
        invariant
            i <= hexes@.len(),
            all == views(hexes@),
            out@ == parsed_users(all.take(i as int)),
        decreases hexes@.len() - i,
    {
        proof {
            lemma_views_take(hexes@, i as int);
        }
        if let Some(u) = hex_to_uuid(hexes[i].as_str()) {
            out.push(u);
        }
        i += 1;
    }
    assert(all.take(i as int) =~= all);
    out
}

/// The outcome of a local request for a room: a User Agent hosts it itself, a
/// client asks its User Agent to.
pub open spec fn room_creation(
    n: NodeModel,
    name: Seq<char>,
    hexes: Seq<Seq<char>>,
    fresh_id: Uuid,
) -> Outcome {
    let users = parsed_users(hexes);
    match n.role {
        Role::UserAgent => match creation(n, fresh_id, name, 0, 0, users, None) {
            Some((node, sent)) => Ok(
                (node, sent, "created room "@ + short_hex_chars(fresh_id) + "…"@),
            ),
            None => Err("local identity not resolved yet"@),
        },
        Role::DataGuest => match n.ua {
            Some(ua) => match ua.app_id {
                Some(app) => Ok(
                    (
                        n,
                        seq![
                            OutboundModel {
                                dest_device: ua.device_uuid,
                                dest_app: app,
                                msg_type: msg::OPEN_ROOM,
                                room_id: zero_id(),
                                body: open_room_bytes(name, 0, 0, users),
                            },
                        ],
                        "OPEN_ROOM sent to our UA"@,
                    ),
                ),
                None => Err("no resolvable UA to host the room"@),
            },
            None => Err("no resolvable UA to host the room"@),
        },
        _ => Err("this node cannot create a room (role not resolved)"@),
    }
}

/// Create a room for the local user, under a fresh identifier if this node is
/// to host it.
pub fn room_create(
    inner: &mut Inner,
    name: &str,
    member_hexes: &Vec<String>,
    fresh_id: Uuid,
    outs: &mut Vec<Outbound>,
) -> (r: Result<String, String>)
    ensures
        answered(
            room_creation(old(inner)@, name@, views(member_hexes@), fresh_id),
            r,
            old(inner)@,
            final(inner)@,
            old(outs)@,
            final(outs)@,
        ),
        old(inner)@.wf() ==> final(inner)@.wf(),
{
    broadcast use crate::views::group_views;

    let members = parse_users(member_hexes);
    match inner.role {
        Role::UserAgent => {
            match create_room(inner, fresh_id, name, 0, 0, members.as_slice(), None, outs) {
                Some(rid) => Ok(join3("created room ", short_hex(&rid).as_str(), "…")),
                None => Err("local identity not resolved yet".to_owned()),
            }
        },
        Role::DataGuest => {
            let Some(ua) = &inner.ua else {
                return Err("no resolvable UA to host the room".to_owned());
            };
            let Some(dest_app) = ua.app_id else {
                return Err("no resolvable UA to host the room".to_owned());
            };
            let body = encode_open_room(name, 0, 0, members.as_slice());
            outs.push(
                Outbound {
                    dest_device: ua.device_uuid,
                    dest_app,
                    msg_type: msg::OPEN_ROOM,
                    room_id: zero_uuid(),
                    body,
                },
            );
            proof {
                let sent = room_creation(
                    old(inner)@,
                    name@,
                    views(member_hexes@),
                    fresh_id,
                )->Ok_0.1;
                assert(views(outs@) =~= views(old(outs)@) + sent);
            }
            Ok("OPEN_ROOM sent to our UA".to_owned())
        },
        _ => Err("this node cannot create a room (role not resolved)".to_owned()),
    }
}

/// Whether an operation names a user.
pub open spec fn names_user(msg_type: u8) -> bool {
    msg_type == msg::ADD_MEMBER || msg_type == msg::REMOVE_MEMBER
}

/// The outcome of a local change of membership in a known room: a host makes it
/// itself, anyone else asks the host.
pub open spec fn member_op(
    n: NodeModel,
    room_id: Uuid,
    target: Option<Uuid>,
    msg_type: u8,
) -> Outcome {
    let room = n.rooms[room_id];
    if room.is_rh {
        if msg_type == msg::ADD_MEMBER {
            local_add(n, room_id, target->0)
        } else if msg_type == msg::REMOVE_MEMBER {
            local_remove(n, room_id, target->0)
        } else if msg_type == msg::LEAVE {
            Err("host cannot LEAVE its own room"@)
        } else {
            Err("unsupported op"@)
        }
    } else if names_user(msg_type) || msg_type == msg::LEAVE {
        let frame = OutboundModel {
            dest_device: room.rh_device,
            dest_app: room.rh_app_id,
            msg_type,
            room_id,
            body: if msg_type == msg::LEAVE {
                Seq::empty()
            } else {
                target->0@
            },
        };
        let node = if msg_type == msg::LEAVE {
            NodeModel { rooms: n.rooms.remove(room_id), ..n }
        } else {
            n
        };
        Ok((node, seq![frame], "forwarded to RH"@))
    } else {
        Err("unsupported op"@)
    }
}

/// The outcome of a local change of membership.
pub open spec fn room_member_change(
    n: NodeModel,
    room_hex: Seq<char>,
    user_hex: Option<Seq<char>>,
    msg_type: u8,
) -> Outcome {
    match uuid_of_hex(room_hex) {
        None => Err("bad room id"@),
        Some(room_id) => if user_hex matches Some(h) && uuid_of_hex(h) is None {
            Err("bad user id"@)
        } else if !n.rooms.contains_key(room_id) {
            Err("unknown room"@)
        } else {
            let target = match user_hex {
                Some(h) => uuid_of_hex(h),
                None => None,
            };
            member_op(n, room_id, target, msg_type)
        },
    }
}

/// An optional string as a model.
pub open spec fn text_model(s: Option<&str>) -> Option<Seq<char>> {
    match s {
        Some(t) => Some(t@),
        None => None,
    }
}

/// Whether a room is known by its hexadecimal identifier.
pub open spec fn knows_room(n: NodeModel, room_hex: Seq<char>) -> bool {
    uuid_of_hex(room_hex) matches Some(id) && n.rooms.contains_key(id)
}

fn forward(
    inner: &mut Inner,
    room_id: Uuid,
    dest_device: Uuid,
    dest_app: Uuid,
    msg_type: u8,
    body: Vec<u8>,
    outs: &mut Vec<Outbound>,
) -> (r: Result<String, String>)
    ensures
        r matches Ok(m) && m@ == "forwarded to RH"@,
        views(final(outs)@) == views(old(outs)@) + seq![
            OutboundModel { dest_device, dest_app, msg_type, room_id, body: body@ },
        ],
        final(inner)@ == if msg_type == msg::LEAVE {
            NodeModel { rooms: old(inner)@.rooms.remove(room_id), ..old(inner)@ }
        } else {
            old(inner)@
        },
{
    broadcast use crate::views::group_views;

    outs.push(Outbound { dest_device, dest_app, msg_type, room_id, body });
    assert(views(outs@) =~= views(old(outs)@) + seq![
        OutboundModel { dest_device, dest_app, msg_type, room_id, body: body@ },
    ]);
    if msg_type == msg::LEAVE {
        inner.rooms.remove(&room_id);
        assert(inner@ =~= (NodeModel {
            rooms: old(inner)@.rooms.remove(room_id),
            ..old(inner)@
        }));
    }
    Ok("forwarded to RH".to_owned())
}

/// Add, remove or leave for the local user. A host makes the change itself and
/// tells the members; anyone else asks the host, and leaves at once.
pub fn room_member_op(
    inner: &mut Inner,
    room_hex: &str,
    user_hex: Option<&str>,
    msg_type: u8,
    outs: &mut Vec<Outbound>,
) -> (r: Result<String, String>)
    requires
        names_user(msg_type) && knows_room(old(inner)@, room_hex@) ==> user_hex is Some,
    ensures
        answered(
            room_member_change(old(inner)@, room_hex@, text_model(user_hex), msg_type),
            r,
            old(inner)@,
            final(inner)@,
            old(outs)@,
            final(outs)@,
        ),
        old(inner)@.wf() ==> final(inner)@.wf(),
{
    let Some(room_id) = hex_to_uuid(room_hex) else {
        return Err("bad room id".to_owned());
    };
    let mut target: Option<Uuid> = None;
    if let Some(h) = user_hex {
        target = hex_to_uuid(h);
        if target.is_none() {
            return Err("bad user id".to_owned());
        }
    }
    let Some(room) = inner.rooms.get(&room_id) else {
        return Err("unknown room".to_owned());
    };
    let is_rh = room.is_rh;
    let dest_device = room.rh_device;
    let dest_app = room.rh_app_id;
    if msg_type == msg::ADD_MEMBER || msg_type == msg::REMOVE_MEMBER {
        let Some(user) = target else {
            return Err("bad user id".to_owned());
        };
        if !is_rh {
            let mut body: Vec<u8> = Vec::new();
            body.extend_from_slice(user.as_slice());
            assert(body@ =~= user@);
            return forward(inner, room_id, dest_device, dest_app, msg_type, body, outs);
        }
        if msg_type == msg::ADD_MEMBER {
            local_add_member(inner, &room_id, &user, outs)
        } else {
            local_remove_member(inner, &room_id, &user, outs)
        }
    } else if msg_type == msg::LEAVE {
        if is_rh {
            return Err("host cannot LEAVE its own room".to_owned());
        }
        forward(inner, room_id, dest_device, dest_app, msg_type, Vec::new(), outs)
    } else {
        Err("unsupported op".to_owned())
    }
}

/// The outcome of a local post: a host orders it, anyone else sends it to the
/// host.
pub open spec fn room_posting(
    n: NodeModel,
    room_hex: Seq<char>,
    text: Seq<char>,
    cid: Uuid,
    ts_ms: u64,
) -> Outcome {
    match uuid_of_hex(room_hex) {
        None => Err("bad room id"@),
        Some(room_id) => if is_blank(text) {
            Err("empty message"@)
        } else if !n.rooms.contains_key(room_id) {
            Err("unknown room"@)
        } else if n.rooms[room_id].is_rh {
            let sender = match n.own_user_uuid {
                Some(u) => u,
                None => zero_id(),
            };
            match ordering(n, room_id, sender, cid, text, ts_ms) {
                Ok((node, sent, seq)) => Ok((node, sent, "posted as seq "@ + dec(seq as nat))),
                Err(note) => Err(note),
            }
        } else {
            let room = n.rooms[room_id];
            Ok(
                (
                    n,
                    seq![
                        OutboundModel {
                            dest_device: room.rh_device,
                            dest_app: room.rh_app_id,
                            msg_type: msg::POST,
                            room_id,
                            body: post_bytes(cid, text),
                        },
                    ],
                    "POST sent to RH"@,
                ),
            )
        },
    }
}

/// Whether a local post, unless it is blank, can be ordered.
pub open spec fn post_ready(n: NodeModel, room_hex: Seq<char>, text: Seq<char>) -> bool {
    match uuid_of_hex(room_hex) {
        Some(id) => is_blank(text) || seq_left(n, id),
        None => true,
    }
}

/// Whether a local post, unless it is blank, can be ordered.
pub fn can_take_post(inner: &Inner, room_hex: &str, text: &str) -> (r: bool)
    ensures
        r == post_ready(inner@, room_hex@, text@),
{
    match hex_to_uuid(room_hex) {
        Some(id) => blank(text) || has_seq_left(inner, &id),
        None => true,
    }
}

/// Post a text to a room for the local user, at `ts_ms`, under a fresh message
/// identifier.
pub fn room_post_at(
    inner: &mut Inner,
    room_hex: &str,
    text: &str,
    cid: Uuid,
    ts_ms: u64,
    outs: &mut Vec<Outbound>,
) -> (r: Result<String, String>)
    requires
        old(inner)@.wf(),
        post_ready(old(inner)@, room_hex@, text@),
    ensures
        answered(
            room_posting(old(inner)@, room_hex@, text@, cid, ts_ms),
            r,
            old(inner)@,
            final(inner)@,
            old(outs)@,
            final(outs)@,
        ),
        final(inner)@.wf(),
{
    broadcast use crate::views::group_views;

    let Some(room_id) = hex_to_uuid(room_hex) else {
        return Err("bad room id".to_owned());
    };
    if blank(text) {
        return Err("empty message".to_owned());
    }
    let Some(room) = inner.rooms.get(&room_id) else {
        return Err("unknown room".to_owned());
    };
    if room.is_rh {
        let sender = match inner.own_user_uuid {
            Some(u) => u,
            None => zero_uuid(),
        };
        match rh_accept_message(inner, &room_id, sender, cid, text.to_owned(), ts_ms, outs) {
            Ok(seq) => Ok(join2("posted as seq ", decimal(seq).as_str())),
            Err(e) => Err(e),
        }
    } else {
        outs.push(
            Outbound {
                dest_device: room.rh_device,
                dest_app: room.rh_app_id,
                msg_type: msg::POST,
                room_id,
                body: encode_post(&cid, text),
            },
        );
        proof {
            let sent = room_posting(old(inner)@, room_hex@, text@, cid, ts_ms)->Ok_0.1;
            assert(views(outs@) =~= views(old(outs)@) + sent);
        }
        Ok("POST sent to RH".to_owned())
    }
}

/// Post a text to a room for the local user now.
pub fn room_post(
    inner: &mut Inner,
    room_hex: &str,
    text: &str,
    cid: Uuid,
    outs: &mut Vec<Outbound>,
) -> (r: Result<String, String>)
    requires
        old(inner)@.wf(),
        post_ready(old(inner)@, room_hex@, text@),
    ensures
        exists|ts_ms: u64|
            answered(
                #[trigger] room_posting(old(inner)@, room_hex@, text@, cid, ts_ms),
                r,
                old(inner)@,
                final(inner)@,
                old(outs)@,
                final(outs)@,
            ),
        final(inner)@.wf(),
{
    let ts_ms: u64 = now_ms();
    room_post_at(inner, room_hex, text, cid, ts_ms, outs)
}

// ── From time to time ────────────────────────────────────────────────────────

/// The frame by which a client announces itself to its User Agent, with the
/// token to send it under: only a client with a token and a resolved User Agent
/// has one.
pub open spec fn attach_frame(n: NodeModel) -> Option<(Uuid, OutboundModel)> {
    match (n.role, n.token, n.ua) {
        (Role::DataGuest, Some(token), Some(ua)) => match ua.app_id {
            Some(dest_app) => Some(
                (
                    token,
                    OutboundModel {
                        dest_device: ua.device_uuid,
                        dest_app,
                        msg_type: msg::CLIENT_ATTACH,
                        room_id: zero_id(),
                        body: Seq::empty(),
                    },
                ),
            ),
            None => None,
        },
        _ => None,
    }
}

/// Build the frame by which a client announces itself to its User Agent.
pub fn attach_target(inner: &Inner) -> (r: Option<(Uuid, Outbound)>)
    ensures
        match attach_frame(inner@) {
            Some((token, o)) => r matches Some(x) && x.0 == token && x.1@ == o,
            None => r is None,
        },
{
    if inner.role != Role::DataGuest {
        return None;
    }
    match (inner.token, &inner.ua) {
        (Some(token), Some(ua)) => match ua.app_id {
            Some(dest_app) => {
                let body: Vec<u8> = Vec::new();
                assert(body@ =~= Seq::<u8>::empty());
                Some(
                    (
                        token,
                        Outbound {
                            dest_device: ua.device_uuid,
                            dest_app,
                            msg_type: msg::CLIENT_ATTACH,
                            room_id: zero_uuid(),
                            body,
                        },
                    ),
                )
            },
            None => None,
        },
        _ => None,
    }
}

/// Note that an announcement was sent at `now`.
pub fn note_attach_sent(inner: &mut Inner, now: u64)
    ensures
        final(inner)@ == (NodeModel {
            attach: AttachState {
                last_sent: Some(now),
                last_ack: old(inner)@.attach.last_ack,
            },
            ..old(inner)@
        }),
        old(inner)@.wf() ==> final(inner)@.wf(),
{
    inner.attach = AttachState { last_sent: Some(now), last_ack: inner.attach.last_ack };
    assert(inner@ =~= (NodeModel {
        attach: AttachState { last_sent: Some(now), last_ack: old(inner)@.attach.last_ack },
        ..old(inner)@
    }));
}

/// The frames of several rooms, one room after the other.
pub open spec fn room_frames(
    ids: Seq<Uuid>,
    frames: spec_fn(Uuid) -> Seq<OutboundModel>,
) -> Seq<OutboundModel>
    decreases ids.len(),
{
    if ids.len() == 0 {
        Seq::empty()
    } else {
        room_frames(ids.drop_last(), frames) + frames(ids.last())
    }
}

/// The members who have not announced themselves.
pub open spec fn absent(members: Seq<MemberModel>) -> Seq<MemberModel>
    decreases members.len(),
{
    if members.len() == 0 {
        Seq::empty()
    } else if members.last().present {
        absent(members.drop_last())
    } else {
        absent(members.drop_last()).push(members.last())
    }
}

/// The invitations that a host sends again in one room.
pub open spec fn reinvites(n: NodeModel, id: Uuid) -> Seq<OutboundModel> {
    let room = n.rooms[id];
    if room.is_rh {
        invite_frames(n.directory, room, absent(room.members))
    } else {
        Seq::empty()
    }
}

/// A node's repeated invitations, room by room.
pub open spec fn reinvites_in(n: NodeModel) -> spec_fn(Uuid) -> Seq<OutboundModel> {
    |id: Uuid| reinvites(n, id)
}

fn reinvite(directory: &UuidMap<UserDir>, room: &RoomState, outs: &mut Vec<Outbound>)
    ensures
        views(final(outs)@) == views(old(outs)@) + invite_frames(
            directory@,
            room@,
            absent(room@.members),
        ),
{
    let ghost all = room@.members;
    let mut i: usize = 0;
    assert(all.take(0) =~= Seq::empty());
    assert(views(outs@) + Seq::<OutboundModel>::empty() =~= views(outs@));
    while i < room.members.len()
        invariant
            i <= room.members@.len(),
            all == room@.members,
            views(outs@) == views(old(outs)@) + invite_frames(
                directory@,
                room@,
                absent(all.take(i as int)),
            ),
        decreases room.members@.len() - i,
    {
        proof {
            lemma_views_take(room.members@, i as int);
            let front = absent(all.take(i as int));
            assert(front.push(all[i as int]).drop_last() =~= front);
        }
        if !room.members[i].present {
            queue_invite(directory, room, &room.members[i].user_uuid, outs);
        }
        assert(views(outs@) =~= views(old(outs)@) + invite_frames(
            directory@,
            room@,
            absent(all.take(i + 1)),
        ));
        i += 1;
    }
    assert(all.take(i as int) =~= all);
}

/// Invite absent members of the rooms that this node hosts again, room by room
/// in no particular order. A member who could not be reached when the room was
/// made can be reached later.
pub fn maintenance_frames(inner: &Inner, outs: &mut Vec<Outbound>)
    ensures
        exists|ids: Seq<Uuid>| #[trigger]
            are_rooms(ids, inner@.rooms) && views(final(outs)@) == views(old(outs)@)
                + room_frames(ids, reinvites_in(inner@)),
{
    let ids = inner.rooms.keys();
    let ghost f = reinvites_in(inner@);
    let mut i: usize = 0;
    assert(ids@.take(0) =~= Seq::empty());
    assert(views(outs@) + Seq::<OutboundModel>::empty() =~= views(outs@));
    while i < ids.len()
        invariant
            i <= ids@.len(),
            f == reinvites_in(inner@),
            forall|u: Uuid| #[trigger] ids@.contains(u) <==> inner@.rooms.contains_key(u),
            views(outs@) == views(old(outs)@) + room_frames(ids@.take(i as int), f),
        decreases ids@.len() - i,
    {
        proof {
            assert(ids@.contains(ids@[i as int]));
            assert(ids@.take(i + 1).drop_last() =~= ids@.take(i as int));
            assert(ids@.take(i + 1).last() == ids@[i as int]);
        }
        if let Some(room) = inner.rooms.get(&ids[i]) {
            if room.is_rh {
                reinvite(&inner.directory, room, outs);
            }
        }
        assert(views(outs@) =~= views(old(outs)@) + room_frames(ids@.take(i + 1), f));
        i += 1;
    }
    assert(ids@.take(i as int) =~= ids@);
    assert(are_rooms(ids@, inner@.rooms));
}

/// The messages that one member still owes an acknowledgement for, none when
/// their User Agent cannot be resolved.
pub open spec fn member_retries(
    directory: Map<Uuid, UserDirModel>,
    room: RoomModel,
    user: Uuid,
) -> Seq<OutboundModel> {
    match reach(directory, user) {
        Some((dev, app)) => replay_frames(
            after(room.messages, acked(room, user)),
            room.room_id,
            dev,
            app,
        ),
        None => Seq::empty(),
    }
}

/// The messages that the members still owe acknowledgements for.
pub open spec fn all_retries(
    directory: Map<Uuid, UserDirModel>,
    room: RoomModel,
    members: Seq<MemberModel>,
) -> Seq<OutboundModel>
    decreases members.len(),
{
    if members.len() == 0 {
        Seq::empty()
    } else {
        all_retries(directory, room, members.drop_last()) + member_retries(
            directory,
            room,
            members.last().user_uuid,
        )
    }
}

/// The messages that a host sends again in one room.
pub open spec fn retries(n: NodeModel, id: Uuid) -> Seq<OutboundModel> {
    let room = n.rooms[id];
    if room.is_rh {
        all_retries(n.directory, room, room.members)
    } else {
        Seq::empty()
    }
}

/// A node's repeated messages, room by room.
pub open spec fn retries_in(n: NodeModel) -> spec_fn(Uuid) -> Seq<OutboundModel> {
    |id: Uuid| retries(n, id)
}

/// Nothing comes after the highest number of a history.
pub proof fn lemma_nothing_after(ms: Seq<ChatMsgModel>, since: u64)
    requires
        forall|i: int| 0 <= i < ms.len() ==> (#[trigger] ms[i]).seq <= since,
    ensures
        after(ms, since) == Seq::<ChatMsgModel>::empty(),
    decreases ms.len(),
{
    if ms.len() > 0 {
        let front = ms.drop_last();
        assert forall|i: int| 0 <= i < front.len() implies (#[trigger] front[i]).seq <= since by {
            assert(front[i] == ms[i]);
        }
        lemma_nothing_after(front, since);
    }
}

fn retry_room(directory: &UuidMap<UserDir>, room: &RoomState, outs: &mut Vec<Outbound>)
    ensures
        views(final(outs)@) == views(old(outs)@) + all_retries(directory@, room@, room@.members),
{
    let latest: u64 = top_seq(&room.messages);
    let ghost all = room@.members;
    let mut i: usize = 0;
    assert(all.take(0) =~= Seq::empty());
    assert(views(outs@) + Seq::<OutboundModel>::empty() =~= views(outs@));
    while i < room.members.len()
        invariant
            i <= room.members@.len(),
            all == room@.members,
            latest == highest_seq(room@.messages),
            views(outs@) == views(old(outs)@) + all_retries(
                directory@,
                room@,
                all.take(i as int),
            ),
        decreases room.members@.len() - i,
    {
        proof {
            lemma_views_take(room.members@, i as int);
        }
        let user = &room.members[i].user_uuid;
        let done: u64 = acked_seq(room, user);
        if done < latest {
            if let Some((dev, app)) = resolve_user(directory, user) {
                replay_after(&room.messages, done, &room.room_id, &dev, &app, outs);
            }
        } else {
            proof {
                lemma_highest(room@.messages);
                lemma_nothing_after(room@.messages, done);
                assert(member_retries(directory@, room@, *user) =~= Seq::empty());
            }
        }
        assert(views(outs@) =~= views(old(outs)@) + all_retries(
            directory@,
            room@,
            all.take(i + 1),
        ));
        i += 1;
    }
    assert(all.take(i as int) =~= all);
}

/// Send again, in the rooms that this node hosts, every message that a member
/// has not acknowledged, room by room in no particular order.
pub fn retry_frames(inner: &Inner, outs: &mut Vec<Outbound>)
    ensures
        exists|ids: Seq<Uuid>| #[trigger]
            are_rooms(ids, inner@.rooms) && views(final(outs)@) == views(old(outs)@)
                + room_frames(ids, retries_in(inner@)),
{
    let ids = inner.rooms.keys();
    let ghost f = retries_in(inner@);
    let mut i: usize = 0;
    assert(ids@.take(0) =~= Seq::empty());
    assert(views(outs@) + Seq::<OutboundModel>::empty() =~= views(outs@));
    while i < ids.len()
        invariant
            i <= ids@.len(),
            f == retries_in(inner@),
            forall|u: Uuid| #[trigger] ids@.contains(u) <==> inner@.rooms.contains_key(u),
            views(outs@) == views(old(outs)@) + room_frames(ids@.take(i as int), f),
        decreases ids@.len() - i,
    {
        proof {
            assert(ids@.contains(ids@[i as int]));
            assert(ids@.take(i + 1).drop_last() =~= ids@.take(i as int));
            assert(ids@.take(i + 1).last() == ids@[i as int]);
        }
        if let Some(room) = inner.rooms.get(&ids[i]) {
            if room.is_rh {
                retry_room(&inner.directory, room, outs);
            }
        }
        assert(views(outs@) =~= views(old(outs)@) + room_frames(ids@.take(i + 1), f));
        i += 1;
    }
    assert(ids@.take(i as int) =~= ids@);
    assert(are_rooms(ids@, inner@.rooms));
}

} // verus!
