//! The chat protocol on the wire: the envelope that every payload starts with,
//! and the bodies of the message types.

use crate::bytes::{be_bytes, bytes_at, lemma_many_bytes_push, lemma_many_stops, many_at};
use crate::bytes::{many_bytes, push_bytes, push_str, push_text, read_slice, read_str, read_text};
use crate::bytes::{read_u16, read_u64, read_u8, read_uuid, str_at, str_bytes, text_at};
use crate::bytes::{text_bytes, to_be, u16_at, u16_be, u64_at, u64_be, u8_at, uuid_at, uuid_of};
use crate::bytes::Uuid;
use crate::state::{Member, MemberModel};
use crate::views::{lemma_views_take, views};
use vstd::prelude::*;

verus! {

/// The protocol version of every payload.
pub const PROTO_VERSION: u8 = 1;

/// The length of a room identifier.
pub const ROOM_ID_LEN: usize = 16;

/// The length of an envelope: version, message type and room identifier.
pub const ENVELOPE_LEN: usize = 1 + 1 + ROOM_ID_LEN;

/// The longest app payload, envelope included.
pub const MAX_APP_PAYLOAD: usize = 1024;

// ── Envelope ─────────────────────────────────────────────────────────────────

/// `[version][msg_type][room_id:16][body]`.
pub open spec fn envelope_bytes(msg_type: u8, room_id: Uuid, body: Seq<u8>) -> Seq<u8> {
    seq![PROTO_VERSION, msg_type] + room_id@ + body
}

/// Encode an envelope.
pub fn encode_envelope(msg_type: u8, room_id: &Uuid, body: &[u8]) -> (r: Vec<u8>)
    ensures
        r@ == envelope_bytes(msg_type, *room_id, body@),
{
    let mut buf: Vec<u8> = Vec::new();
    buf.push(PROTO_VERSION);
    buf.push(msg_type);
    push_bytes(&mut buf, room_id.as_slice());
    push_bytes(&mut buf, body);
    assert(buf@ =~= envelope_bytes(msg_type, *room_id, body@));
    buf
}

/// A decoded envelope.
pub struct Envelope<'a> {
    pub msg_type: u8,
    pub room_id: Uuid,
    pub body: &'a [u8],
}

/// The model of `Envelope`.
pub struct EnvelopeModel {
    pub msg_type: u8,
    pub room_id: Uuid,
    pub body: Seq<u8>,
}

impl<'a> View for Envelope<'a> {
    type V = EnvelopeModel;

    open spec fn view(&self) -> EnvelopeModel {
        EnvelopeModel { msg_type: self.msg_type, room_id: self.room_id, body: self.body@ }
    }
}

/// The envelope that a payload holds: none when the payload is shorter than an
/// envelope or of another version.
pub open spec fn envelope_of(data: Seq<u8>) -> Option<EnvelopeModel> {
    if data.len() < ENVELOPE_LEN || data[0] != PROTO_VERSION {
        None
    } else {
        Some(
            EnvelopeModel {
                msg_type: data[1],
                room_id: uuid_of(data.subrange(2, 18)),
                body: data.subrange(18, data.len() as int),
            },
        )
    }
}

/// Decode an envelope. A short payload or an unknown version gives none: a
/// future version is dropped, not misread.
pub fn decode_envelope(data: &[u8]) -> (r: Option<Envelope<'_>>)
    ensures
        match envelope_of(data@) {
            Some(m) => r matches Some(e) && e@ == m,
            None => r is None,
        },
{
    if data.len() < ENVELOPE_LEN || data[0] != PROTO_VERSION {
        return None;
    }
    let mut pos: usize = 2;
    let Some(room_id) = read_uuid(data, &mut pos) else {
        return None;
    };
    Some(Envelope { msg_type: data[1], room_id, body: &data[ENVELOPE_LEN..data.len()] })
}

// ── DEV_TEXT ─────────────────────────────────────────────────────────────────

/// Build a `DEV_TEXT` body: `[len:u16][utf8]`.
pub fn encode_dev_text(text: &str) -> (r: Vec<u8>)
    ensures
        r@ == text_bytes(text@),
{
    let mut body: Vec<u8> = Vec::new();
    push_text(&mut body, text);
    assert(body@ =~= text_bytes(text@));
    body
}

/// The text of a `DEV_TEXT` body.
pub open spec fn dev_text_of(body: Seq<u8>) -> Option<Seq<char>> {
    match text_at(body, 0) {
        Some((t, _)) => Some(t),
        None => None,
    }
}

/// Decode a `DEV_TEXT` body.
pub fn decode_dev_text(body: &[u8]) -> (r: Option<String>)
    ensures
        match dev_text_of(body@) {
            Some(t) => r matches Some(x) && x@ == t,
            None => r is None,
        },
{
    let mut pos: usize = 0;
    read_text(body, &mut pos)
}

// ── OPEN_ROOM ────────────────────────────────────────────────────────────────

/// How an identifier is written.
pub open spec fn uuid_enc() -> spec_fn(Uuid) -> Seq<u8> {
    |u: Uuid| u@
}

/// How an identifier is read.
pub open spec fn uuid_item() -> spec_fn(Seq<u8>, int) -> Option<(Uuid, int)> {
    |s: Seq<u8>, p: int| uuid_at(s, p)
}

/// `name:str, retention:u8, join_hist:u8, member_count:u8, member_user:16 ×N`.
pub open spec fn open_room_bytes(
    name: Seq<char>,
    retention: u8,
    join_hist: u8,
    members: Seq<Uuid>,
) -> Seq<u8> {
    str_bytes(name) + seq![retention, join_hist] + be_bytes(members.len(), 1) + many_bytes(
        uuid_enc(),
        members,
    )
}

/// Encode an `OPEN_ROOM` body.
pub fn encode_open_room(name: &str, retention: u8, join_hist: u8, members: &[Uuid]) -> (r: Vec<u8>)
    ensures
        r@ == open_room_bytes(name@, retention, join_hist, members@),
{
    let mut b: Vec<u8> = Vec::new();
    push_str(&mut b, name);
    b.push(retention);
    b.push(join_hist);
    push_bytes(&mut b, &to_be::<1>(members.len() as u128));
    let ghost head = b@;
    assert(head =~= str_bytes(name@) + seq![retention, join_hist] + be_bytes(members@.len(), 1));
    let mut i: usize = 0;
    assert(b@ =~= head + many_bytes(uuid_enc(), members@.take(0)));
    while i < members.len()
        invariant
            i <= members@.len(),
            b@ == head + many_bytes(uuid_enc(), members@.take(i as int)),
        decreases members@.len() - i,
    {
        push_bytes(&mut b, members[i].as_slice());
        proof {
            let m = members@[i as int];
            assert(members@.take(i + 1) =~= members@.take(i as int).push(m));
            lemma_many_bytes_push(uuid_enc(), members@.take(i as int), m);
            assert(b@ =~= head + many_bytes(uuid_enc(), members@.take(i + 1)));
        }
        i += 1;
    }
    assert(members@.take(i as int) =~= members@);
    b
}

/// A decoded `OPEN_ROOM` body.
pub struct OpenRoom {
    pub name: String,
    pub retention: u8,
    pub join_hist: u8,
    pub members: Vec<Uuid>,
}

/// The model of `OpenRoom`.
pub struct OpenRoomModel {
    pub name: Seq<char>,
    pub retention: u8,
    pub join_hist: u8,
    pub members: Seq<Uuid>,
}

impl View for OpenRoom {
    type V = OpenRoomModel;

    open spec fn view(&self) -> OpenRoomModel {
        OpenRoomModel {
            name: self.name@,
            retention: self.retention,
            join_hist: self.join_hist,
            members: self.members@,
        }
    }
}

/// What an `OPEN_ROOM` body says.
pub open spec fn open_room_of(body: Seq<u8>) -> Option<OpenRoomModel> {
    match str_at(body, 0) {
        Some((name, p)) => match u8_at(body, p + 2) {
            Some((count, q)) => match many_at(uuid_item(), body, q, count as nat) {
                Some((members, _)) => Some(
                    OpenRoomModel { name, retention: body[p], join_hist: body[p + 1], members },
                ),
                None => None,
            },
            None => None,
        },
        None => None,
    }
}

/// Decode an `OPEN_ROOM` body.
pub fn decode_open_room(body: &[u8]) -> (r: Option<OpenRoom>)
    ensures
        match open_room_of(body@) {
            Some(m) => r matches Some(o) && o@ == m,
            None => r is None,
        },
{
    let mut pos: usize = 0;
    let Some(name) = read_str(body, &mut pos) else {
        return None;
    };
    let Some(retention) = read_u8(body, &mut pos) else {
        return None;
    };
    let Some(join_hist) = read_u8(body, &mut pos) else {
        return None;
    };
    let Some(count) = read_u8(body, &mut pos) else {
        return None;
    };
    let ghost start = pos as int;
    let mut members: Vec<Uuid> = Vec::new();
    let mut i: u8 = 0;
    while i < count
        invariant
            i <= count,
            many_at(uuid_item(), body@, start, i as nat) == Some((members@, pos as int)),
            many_at(uuid_item(), body@, start, count as nat) is None ==> open_room_of(body@) is None,
        decreases count - i,
    {
        let Some(u) = read_uuid(body, &mut pos) else {
            proof {
                lemma_many_stops(uuid_item(), body@, start, (i + 1) as nat, count as nat);
            }
            return None;
        };
        members.push(u);
        i += 1;
    }
    Some(OpenRoom { name, retention, join_hist, members })
}

// ── INVITE ───────────────────────────────────────────────────────────────────

/// A member as an invitation lists them: user and alias.
pub type Listed = (Uuid, Seq<char>);

/// The members of a room as an invitation lists them.
pub open spec fn roster(members: Seq<MemberModel>) -> Seq<Listed> {
    Seq::new(members.len(), |i: int| (members[i].user_uuid, members[i].alias))
}

/// How a listed member is written.
pub open spec fn listed_enc() -> spec_fn(Listed) -> Seq<u8> {
    |m: Listed| m.0@ + str_bytes(m.1)
}

/// The listed member at `p`.
pub open spec fn listed_at(s: Seq<u8>, p: int) -> Option<(Listed, int)> {
    match uuid_at(s, p) {
        Some((u, q)) => match str_at(s, q) {
            Some((a, e)) => Some(((u, a), e)),
            None => None,
        },
        None => None,
    }
}

/// How a listed member is read.
pub open spec fn listed_item() -> spec_fn(Seq<u8>, int) -> Option<(Listed, int)> {
    |s: Seq<u8>, p: int| listed_at(s, p)
}

/// `name:str, host_user:16, rh_device:16, rh_app_id:16, retention:u8,
/// join_hist:u8, member_count:u8, (member_user:16, alias:str)×N`.
pub open spec fn invite_bytes(inv: InviteModel) -> Seq<u8> {
    str_bytes(inv.name) + inv.host_user@ + inv.rh_device@ + inv.rh_app@ + seq![
        inv.retention,
        inv.join_hist,
    ] + be_bytes(inv.members.len(), 1) + many_bytes(listed_enc(), inv.members)
}

/// Encode an `INVITE` body.
pub fn encode_invite(
    name: &str,
    host_user: &Uuid,
    rh_device: &Uuid,
    rh_app: &Uuid,
    retention: u8,
    join_hist: u8,
    members: &[Member],
) -> (r: Vec<u8>)
    ensures
        r@ == invite_bytes(
            InviteModel {
                name: name@,
                host_user: *host_user,
                rh_device: *rh_device,
                rh_app: *rh_app,
                retention,
                join_hist,
                members: roster(views(members@)),
            },
        ),
{
    let mut b: Vec<u8> = Vec::new();
    push_str(&mut b, name);
    push_bytes(&mut b, host_user.as_slice());
    push_bytes(&mut b, rh_device.as_slice());
    push_bytes(&mut b, rh_app.as_slice());
    b.push(retention);
    b.push(join_hist);
    push_bytes(&mut b, &to_be::<1>(members.len() as u128));
    let ghost head = b@;
    let ghost all = roster(views(members@));
    assert(head =~= str_bytes(name@) + host_user@ + rh_device@ + rh_app@ + seq![
        retention,
        join_hist,
    ] + be_bytes(all.len(), 1));
    let mut i: usize = 0;
    assert(b@ =~= head + many_bytes(listed_enc(), all.take(0)));
    while i < members.len()
        invariant
            i <= members@.len(),
            all == roster(views(members@)),
            b@ == head + many_bytes(listed_enc(), all.take(i as int)),
        decreases members@.len() - i,
    {
        let ghost before = b@;
        push_bytes(&mut b, members[i].user_uuid.as_slice());
        push_str(&mut b, members[i].alias.as_str());
        proof {
            let m = all[i as int];
            assert(m == (members@[i as int].user_uuid, members@[i as int].alias@));
            assert(all.take(i + 1) =~= all.take(i as int).push(m));
            lemma_many_bytes_push(listed_enc(), all.take(i as int), m);
            assert(b@ =~= before + listed_enc()(m));
            assert(b@ =~= head + many_bytes(listed_enc(), all.take(i + 1)));
        }
        i += 1;
    }
    assert(all.take(i as int) =~= all);
    b
}

/// A decoded `INVITE` body.
pub struct Invite {
    pub name: String,
    pub host_user: Uuid,
    pub rh_device: Uuid,
    pub rh_app: Uuid,
    pub retention: u8,
    pub join_hist: u8,
    pub members: Vec<(Uuid, String)>,
}

/// The model of `Invite`.
pub struct InviteModel {
    pub name: Seq<char>,
    pub host_user: Uuid,
    pub rh_device: Uuid,
    pub rh_app: Uuid,
    pub retention: u8,
    pub join_hist: u8,
    pub members: Seq<Listed>,
}

/// The views of listed members.
pub open spec fn listed_views(s: Seq<(Uuid, String)>) -> Seq<Listed> {
    Seq::new(s.len(), |i: int| (s[i].0, s[i].1@))
}

impl View for Invite {
    type V = InviteModel;

    open spec fn view(&self) -> InviteModel {
        InviteModel {
            name: self.name@,
            host_user: self.host_user,
            rh_device: self.rh_device,
            rh_app: self.rh_app,
            retention: self.retention,
            join_hist: self.join_hist,
            members: listed_views(self.members@),
        }
    }
}

/// What an `INVITE` body says.
pub open spec fn invite_of(body: Seq<u8>) -> Option<InviteModel> {
    match str_at(body, 0) {
        Some((name, p)) => match u8_at(body, p + 50) {
            Some((count, q)) => match many_at(listed_item(), body, q, count as nat) {
                Some((members, _)) => Some(
                    InviteModel {
                        name,
                        host_user: uuid_of(body.subrange(p, p + 16)),
                        rh_device: uuid_of(body.subrange(p + 16, p + 32)),
                        rh_app: uuid_of(body.subrange(p + 32, p + 48)),
                        retention: body[p + 48],
                        join_hist: body[p + 49],
                        members,
                    },
                ),
                None => None,
            },
            None => None,
        },
        None => None,
    }
}

/// Decode an `INVITE` body.
pub fn decode_invite(body: &[u8]) -> (r: Option<Invite>)
    ensures
        match invite_of(body@) {
            Some(m) => r matches Some(i) && i@ == m,
            None => r is None,
        },
{
    let mut pos: usize = 0;
    let Some(name) = read_str(body, &mut pos) else {
        return None;
    };
    let Some(host_user) = read_uuid(body, &mut pos) else {
        return None;
    };
    let Some(rh_device) = read_uuid(body, &mut pos) else {
        return None;
    };
    let Some(rh_app) = read_uuid(body, &mut pos) else {
        return None;
    };
    let Some(retention) = read_u8(body, &mut pos) else {
        return None;
    };
    let Some(join_hist) = read_u8(body, &mut pos) else {
        return None;
    };
    let Some(count) = read_u8(body, &mut pos) else {
        return None;
    };
    let ghost start = pos as int;
    let mut members: Vec<(Uuid, String)> = Vec::new();
    let mut i: u8 = 0;
    assert(listed_views(members@) =~= Seq::<Listed>::empty());
    while i < count
        invariant
            i <= count,
            many_at(listed_item(), body@, start, i as nat) == Some(
                (listed_views(members@), pos as int),
            ),
            many_at(listed_item(), body@, start, count as nat) is None ==> invite_of(body@) is None,
        decreases count - i,
    {
        let ghost at = pos as int;
        let ghost done = listed_views(members@);
        let Some(u) = read_uuid(body, &mut pos) else {
            proof {
                lemma_many_stops(listed_item(), body@, start, (i + 1) as nat, count as nat);
            }
            return None;
        };
        let Some(a) = read_str(body, &mut pos) else {
            proof {
                assert(listed_at(body@, at) is None);
                lemma_many_stops(listed_item(), body@, start, (i + 1) as nat, count as nat);
            }
            return None;
        };
        assert(listed_at(body@, at) == Some(((u, a@), pos as int)));
        members.push((u, a));
        assert(listed_views(members@) =~= done.push((u, a@)));
        i += 1;
    }
    Some(Invite { name, host_user, rh_device, rh_app, retention, join_hist, members })
}

// ── HELLO ────────────────────────────────────────────────────────────────────

/// A room and the highest sequence number applied in it.
pub type Cursor = (Uuid, u64);

/// How a cursor is written.
pub open spec fn cursor_enc() -> spec_fn(Cursor) -> Seq<u8> {
    |c: Cursor| c.0@ + be_bytes(c.1 as nat, 8)
}

/// The cursor at `p`.
pub open spec fn cursor_at(s: Seq<u8>, p: int) -> Option<(Cursor, int)> {
    match uuid_at(s, p) {
        Some((u, q)) => match u64_at(s, q) {
            Some((n, e)) => Some(((u, n), e)),
            None => None,
        },
        None => None,
    }
}

/// How a cursor is read.
pub open spec fn cursor_item() -> spec_fn(Seq<u8>, int) -> Option<(Cursor, int)> {
    |s: Seq<u8>, p: int| cursor_at(s, p)
}

/// `ua_device:16, ua_app_id:16, room_count:u16, (room_id:16, last_seq:u64)×N`.
pub open spec fn hello_bytes(ua_device: Uuid, ua_app: Uuid, rooms: Seq<Cursor>) -> Seq<u8> {
    ua_device@ + ua_app@ + be_bytes(rooms.len(), 2) + many_bytes(cursor_enc(), rooms)
}

/// Encode a `HELLO` body.
pub fn encode_hello(ua_device: &Uuid, ua_app: &Uuid, rooms: &[Cursor]) -> (r: Vec<u8>)
    ensures
        r@ == hello_bytes(*ua_device, *ua_app, rooms@),
{
    let mut b: Vec<u8> = Vec::new();
    push_bytes(&mut b, ua_device.as_slice());
    push_bytes(&mut b, ua_app.as_slice());
    push_bytes(&mut b, &to_be::<2>(rooms.len() as u128));
    let ghost head = b@;
    assert(head =~= ua_device@ + ua_app@ + be_bytes(rooms@.len(), 2));
    let mut i: usize = 0;
    assert(b@ =~= head + many_bytes(cursor_enc(), rooms@.take(0)));
    while i < rooms.len()
        invariant
            i <= rooms@.len(),
            b@ == head + many_bytes(cursor_enc(), rooms@.take(i as int)),
        decreases rooms@.len() - i,
    {
        let ghost before = b@;
        push_bytes(&mut b, rooms[i].0.as_slice());
        push_bytes(&mut b, &u64_be(rooms[i].1));
        proof {
            let c = rooms@[i as int];
            assert(rooms@.take(i + 1) =~= rooms@.take(i as int).push(c));
            lemma_many_bytes_push(cursor_enc(), rooms@.take(i as int), c);
            assert(b@ =~= before + cursor_enc()(c));
            assert(b@ =~= head + many_bytes(cursor_enc(), rooms@.take(i + 1)));
        }
        i += 1;
    }
    assert(rooms@.take(i as int) =~= rooms@);
    b
}

/// What a `HELLO` body says: the sender's device, its app, and its cursors.
pub open spec fn hello_of(body: Seq<u8>) -> Option<(Uuid, Uuid, Seq<Cursor>)> {
    match u16_at(body, 32) {
        Some((count, q)) => match many_at(cursor_item(), body, q, count as nat) {
            Some((rooms, _)) => Some(
                (uuid_of(body.subrange(0, 16)), uuid_of(body.subrange(16, 32)), rooms),
            ),
            None => None,
        },
        None => None,
    }
}

/// Decode a `HELLO` body.
pub fn decode_hello(body: &[u8]) -> (r: Option<(Uuid, Uuid, Vec<Cursor>)>)
    ensures
        match hello_of(body@) {
            Some((d, a, rooms)) => r matches Some(x) && x.0 == d && x.1 == a && x.2@ == rooms,
            None => r is None,
        },
{
    let mut pos: usize = 0;
    let Some(device) = read_uuid(body, &mut pos) else {
        return None;
    };
    let Some(app) = read_uuid(body, &mut pos) else {
        return None;
    };
    let Some(count) = read_u16(body, &mut pos) else {
        return None;
    };
    let ghost start = pos as int;
    let mut rooms: Vec<Cursor> = Vec::new();
    let mut i: u16 = 0;
    while i < count
        invariant
            i <= count,
            many_at(cursor_item(), body@, start, i as nat) == Some((rooms@, pos as int)),
            many_at(cursor_item(), body@, start, count as nat) is None ==> hello_of(body@) is None,
        decreases count - i,
    {
        let ghost at = pos as int;
        let Some(rid) = read_uuid(body, &mut pos) else {
            proof {
                lemma_many_stops(cursor_item(), body@, start, (i + 1) as nat, count as nat);
            }
            return None;
        };
        let Some(seq) = read_u64(body, &mut pos) else {
            proof {
                assert(cursor_at(body@, at) is None);
                lemma_many_stops(cursor_item(), body@, start, (i + 1) as nat, count as nat);
            }
            return None;
        };
        assert(cursor_at(body@, at) == Some(((rid, seq), pos as int)));
        rooms.push((rid, seq));
        i += 1;
    }
    Some((device, app, rooms))
}

// ── MEMBER_UPDATE ────────────────────────────────────────────────────────────

/// A member was added.
pub const MEMBER_CHANGE_ADD: u8 = 0;

/// A member was removed by the host.
pub const MEMBER_CHANGE_REMOVE: u8 = 1;

/// A member left.
pub const MEMBER_CHANGE_LEAVE: u8 = 2;

/// `change:u8, member_user:16, alias:str`.
pub open spec fn member_update_bytes(change: u8, user: Uuid, alias: Seq<char>) -> Seq<u8> {
    seq![change] + user@ + str_bytes(alias)
}

/// Encode a `MEMBER_UPDATE` body.
pub fn encode_member_update(change: u8, user: &Uuid, alias: &str) -> (r: Vec<u8>)
    ensures
        r@ == member_update_bytes(change, *user, alias@),
{
    let mut b: Vec<u8> = Vec::new();
    b.push(change);
    push_bytes(&mut b, user.as_slice());
    push_str(&mut b, alias);
    assert(b@ =~= member_update_bytes(change, *user, alias@));
    b
}

/// What a `MEMBER_UPDATE` body says.
pub open spec fn member_update_of(body: Seq<u8>) -> Option<(u8, Uuid, Seq<char>)> {
    match str_at(body, 17) {
        Some((alias, _)) => Some((body[0], uuid_of(body.subrange(1, 17)), alias)),
        None => None,
    }
}

/// Decode a `MEMBER_UPDATE` body.
pub fn decode_member_update(body: &[u8]) -> (r: Option<(u8, Uuid, String)>)
    ensures
        match member_update_of(body@) {
            Some((c, u, a)) => r matches Some(x) && x.0 == c && x.1 == u && x.2@ == a,
            None => r is None,
        },
{
    let mut pos: usize = 0;
    let Some(change) = read_u8(body, &mut pos) else {
        return None;
    };
    let Some(user) = read_uuid(body, &mut pos) else {
        return None;
    };
    let Some(alias) = read_str(body, &mut pos) else {
        return None;
    };
    Some((change, user, alias))
}

// ── POST ─────────────────────────────────────────────────────────────────────

/// `client_msg_id:16, text, attach_count:u8`, the count always zero.
pub open spec fn post_bytes(client_msg_id: Uuid, text: Seq<char>) -> Seq<u8> {
    client_msg_id@ + text_bytes(text) + seq![0u8]
}

/// Encode a `POST` body.
pub fn encode_post(client_msg_id: &Uuid, text: &str) -> (r: Vec<u8>)
    ensures
        r@ == post_bytes(*client_msg_id, text@),
{
    let mut b: Vec<u8> = Vec::new();
    push_bytes(&mut b, client_msg_id.as_slice());
    push_text(&mut b, text);
    b.push(0);
    assert(b@ =~= post_bytes(*client_msg_id, text@));
    b
}

/// What a `POST` body says. What follows the text is ignored.
pub open spec fn post_of(body: Seq<u8>) -> Option<(Uuid, Seq<char>)> {
    match text_at(body, 16) {
        Some((text, _)) => Some((uuid_of(body.subrange(0, 16)), text)),
        None => None,
    }
}

/// Decode a `POST` body.
pub fn decode_post(body: &[u8]) -> (r: Option<(Uuid, String)>)
    ensures
        match post_of(body@) {
            Some((c, t)) => r matches Some(x) && x.0 == c && x.1@ == t,
            None => r is None,
        },
{
    let mut pos: usize = 0;
    let Some(cid) = read_uuid(body, &mut pos) else {
        return None;
    };
    let Some(text) = read_text(body, &mut pos) else {
        return None;
    };
    Some((cid, text))
}

// ── MSG ──────────────────────────────────────────────────────────────────────

/// A decoded `MSG` body.
pub struct DecodedMsg {
    pub seq: u64,
    pub sender_user: Uuid,
    pub ts_ms: u64,
    pub client_msg_id: Uuid,
    pub text: String,
}

/// The model of `DecodedMsg`.
pub struct DecodedMsgModel {
    pub seq: u64,
    pub sender_user: Uuid,
    pub ts_ms: u64,
    pub client_msg_id: Uuid,
    pub text: Seq<char>,
}

impl View for DecodedMsg {
    type V = DecodedMsgModel;

    open spec fn view(&self) -> DecodedMsgModel {
        DecodedMsgModel {
            seq: self.seq,
            sender_user: self.sender_user,
            ts_ms: self.ts_ms,
            client_msg_id: self.client_msg_id,
            text: self.text@,
        }
    }
}

/// `seq:u64, sender_user:16, ts_ms:u64, client_msg_id:16, text, attach_count:u8`,
/// the count always zero.
pub open spec fn msg_bytes(m: DecodedMsgModel) -> Seq<u8> {
    be_bytes(m.seq as nat, 8) + m.sender_user@ + be_bytes(m.ts_ms as nat, 8) + m.client_msg_id@
        + text_bytes(m.text) + seq![0u8]
}

/// Encode a `MSG` body.
pub fn encode_msg(
    seq: u64,
    sender_user: &Uuid,
    ts_ms: u64,
    client_msg_id: &Uuid,
    text: &str,
) -> (r: Vec<u8>)
    ensures
        r@ == msg_bytes(
            DecodedMsgModel {
                seq,
                sender_user: *sender_user,
                ts_ms,
                client_msg_id: *client_msg_id,
                text: text@,
            },
        ),
{
    let mut b: Vec<u8> = Vec::new();
    push_bytes(&mut b, &u64_be(seq));
    push_bytes(&mut b, sender_user.as_slice());
    push_bytes(&mut b, &u64_be(ts_ms));
    push_bytes(&mut b, client_msg_id.as_slice());
    push_text(&mut b, text);
    b.push(0);
    assert(b@ =~= be_bytes(seq as nat, 8) + sender_user@ + be_bytes(ts_ms as nat, 8)
        + client_msg_id@ + text_bytes(text@) + seq![0u8]);
    b
}

/// What a `MSG` body says. What follows the text is ignored.
pub open spec fn msg_of(body: Seq<u8>) -> Option<DecodedMsgModel> {
    match (u64_at(body, 0), u64_at(body, 24), text_at(body, 48)) {
        (Some((seq, _)), Some((ts_ms, _)), Some((text, _))) => Some(
            DecodedMsgModel {
                seq,
                sender_user: uuid_of(body.subrange(8, 24)),
                ts_ms,
                client_msg_id: uuid_of(body.subrange(32, 48)),
                text,
            },
        ),
        _ => None,
    }
}

/// Decode a `MSG` body.
pub fn decode_msg(body: &[u8]) -> (r: Option<DecodedMsg>)
    ensures
        match msg_of(body@) {
            Some(m) => r matches Some(x) && x@ == m,
            None => r is None,
        },
{
    let mut pos: usize = 0;
    let Some(seq) = read_u64(body, &mut pos) else {
        return None;
    };
    let Some(sender_user) = read_uuid(body, &mut pos) else {
        return None;
    };
    let Some(ts_ms) = read_u64(body, &mut pos) else {
        return None;
    };
    let Some(client_msg_id) = read_uuid(body, &mut pos) else {
        return None;
    };
    let Some(text) = read_text(body, &mut pos) else {
        return None;
    };
    Some(DecodedMsg { seq, sender_user, ts_ms, client_msg_id, text })
}

// ── ACK ──────────────────────────────────────────────────────────────────────

/// Encode an `ACK` body: `seq:u64`, the highest contiguous number applied.
pub fn encode_ack(seq: u64) -> (r: Vec<u8>)
    ensures
        r@ == be_bytes(seq as nat, 8),
{
    let mut b: Vec<u8> = Vec::new();
    push_bytes(&mut b, &u64_be(seq));
    assert(b@ =~= be_bytes(seq as nat, 8));
    b
}

/// What an `ACK` body says.
pub open spec fn ack_of(body: Seq<u8>) -> Option<u64> {
    match u64_at(body, 0) {
        Some((n, _)) => Some(n),
        None => None,
    }
}

/// Decode an `ACK` body.
pub fn decode_ack(body: &[u8]) -> (r: Option<u64>)
    ensures
        r == ack_of(body@),
{
    let mut pos: usize = 0;
    read_u64(body, &mut pos)
}

// ── HISTORY_REQ ──────────────────────────────────────────────────────────────

/// `since_seq:u64, max_count:u16`.
pub open spec fn history_req_bytes(since: u64, max: u16) -> Seq<u8> {
    be_bytes(since as nat, 8) + be_bytes(max as nat, 2)
}

/// Encode a `HISTORY_REQ` body.
pub fn encode_history_req(since: u64, max: u16) -> (r: Vec<u8>)
    ensures
        r@ == history_req_bytes(since, max),
{
    let mut b: Vec<u8> = Vec::new();
    push_bytes(&mut b, &u64_be(since));
    push_bytes(&mut b, &u16_be(max));
    assert(b@ =~= history_req_bytes(since, max));
    b
}

/// What a `HISTORY_REQ` body says.
pub open spec fn history_req_of(body: Seq<u8>) -> Option<(u64, u16)> {
    match (u64_at(body, 0), u16_at(body, 8)) {
        (Some((since, _)), Some((max, _))) => Some((since, max)),
        _ => None,
    }
}

/// Decode a `HISTORY_REQ` body.
pub fn decode_history_req(body: &[u8]) -> (r: Option<(u64, u16)>)
    ensures
        r == history_req_of(body@),
{
    let mut pos: usize = 0;
    let Some(since) = read_u64(body, &mut pos) else {
        return None;
    };
    let Some(max) = read_u16(body, &mut pos) else {
        return None;
    };
    Some((since, max))
}

// ── HISTORY_RESP ─────────────────────────────────────────────────────────────

/// Two length bytes (modulo 65536), then the entry.
pub open spec fn entry_bytes(e: Seq<u8>) -> Seq<u8> {
    be_bytes(e.len(), 2) + e
}

/// How a history entry is written.
pub open spec fn entry_enc() -> spec_fn(Seq<u8>) -> Seq<u8> {
    |e: Seq<u8>| entry_bytes(e)
}

/// The history entry at `p`.
pub open spec fn entry_at(s: Seq<u8>, p: int) -> Option<(Seq<u8>, int)> {
    match u16_at(s, p) {
        Some((n, q)) => bytes_at(s, q, n as int),
        None => None,
    }
}

/// How a history entry is read.
pub open spec fn entry_item() -> spec_fn(Seq<u8>, int) -> Option<(Seq<u8>, int)> {
    |s: Seq<u8>, p: int| entry_at(s, p)
}

/// A truth value as a byte.
pub open spec fn flag(b: bool) -> u8 {
    if b {
        1
    } else {
        0
    }
}

/// `from_seq:u64, to_seq:u64, more:u8, count:u16, (entry_len:u16, MSG-body)×count`.
pub open spec fn history_resp_bytes(
    from: u64,
    to: u64,
    more: bool,
    entries: Seq<Seq<u8>>,
) -> Seq<u8> {
    be_bytes(from as nat, 8) + be_bytes(to as nat, 8) + seq![flag(more)] + be_bytes(entries.len(), 2)
        + many_bytes(entry_enc(), entries)
}

/// Encode a `HISTORY_RESP` body. Each entry is a full `MSG` body.
pub fn encode_history_resp(from: u64, to: u64, more: bool, entries: &[Vec<u8>]) -> (r: Vec<u8>)
    ensures
        r@ == history_resp_bytes(from, to, more, views(entries@)),
{
    let mut b: Vec<u8> = Vec::new();
    push_bytes(&mut b, &u64_be(from));
    push_bytes(&mut b, &u64_be(to));
    b.push(if more { 1 } else { 0 });
    push_bytes(&mut b, &to_be::<2>(entries.len() as u128));
    let ghost head = b@;
    let ghost all = views(entries@);
    assert(head =~= be_bytes(from as nat, 8) + be_bytes(to as nat, 8) + seq![flag(more)]
        + be_bytes(all.len(), 2));
    let mut i: usize = 0;
    assert(b@ =~= head + many_bytes(entry_enc(), all.take(0)));
    while i < entries.len()
        invariant
            i <= entries@.len(),
            all == views(entries@),
            b@ == head + many_bytes(entry_enc(), all.take(i as int)),
        decreases entries@.len() - i,
    {
        let ghost before = b@;
        push_bytes(&mut b, &to_be::<2>(entries[i].len() as u128));
        push_bytes(&mut b, entries[i].as_slice());
        proof {
            let e = entries@[i as int]@;
            lemma_views_take(entries@, i as int);
            lemma_many_bytes_push(entry_enc(), all.take(i as int), e);
            assert(b@ =~= before + entry_enc()(e));
            assert(b@ =~= head + many_bytes(entry_enc(), all.take(i + 1)));
        }
        i += 1;
    }
    assert(all.take(i as int) =~= all);
    b
}

/// What a `HISTORY_RESP` body says.
pub open spec fn history_resp_of(body: Seq<u8>) -> Option<(u64, u64, bool, Seq<Seq<u8>>)> {
    match (u64_at(body, 0), u64_at(body, 8), u8_at(body, 16), u16_at(body, 17)) {
        (Some((from, _)), Some((to, _)), Some((more, _)), Some((count, q))) => match many_at(
            entry_item(),
            body,
            q,
            count as nat,
        ) {
            Some((entries, _)) => Some((from, to, more != 0, entries)),
            None => None,
        },
        _ => None,
    }
}

/// Decode a `HISTORY_RESP` body.
pub fn decode_history_resp(body: &[u8]) -> (r: Option<(u64, u64, bool, Vec<Vec<u8>>)>)
    ensures
        match history_resp_of(body@) {
            Some((f, t, m, es)) => r matches Some(x) && x.0 == f && x.1 == t && x.2 == m && views(
                x.3@,
            ) == es,
            None => r is None,
        },
{
    broadcast use crate::views::group_views;

    let mut pos: usize = 0;
    let Some(from) = read_u64(body, &mut pos) else {
        return None;
    };
    let Some(to) = read_u64(body, &mut pos) else {
        return None;
    };
    let Some(more) = read_u8(body, &mut pos) else {
        return None;
    };
    let Some(count) = read_u16(body, &mut pos) else {
        return None;
    };
    let ghost start = pos as int;
    let mut entries: Vec<Vec<u8>> = Vec::new();
    let mut i: u16 = 0;
    while i < count
        invariant
            i <= count,
            many_at(entry_item(), body@, start, i as nat) == Some((views(entries@), pos as int)),
            many_at(entry_item(), body@, start, count as nat) is None ==> history_resp_of(
                body@,
            ) is None,
        decreases count - i,
    {
        broadcast use crate::views::group_views;

        let ghost at = pos as int;
        let Some(len) = read_u16(body, &mut pos) else {
            proof {
                lemma_many_stops(entry_item(), body@, start, (i + 1) as nat, count as nat);
            }
            return None;
        };
        let Some(part) = read_slice(body, &mut pos, len as usize) else {
            proof {
                assert(entry_at(body@, at) is None);
                lemma_many_stops(entry_item(), body@, start, (i + 1) as nat, count as nat);
            }
            return None;
        };
        let mut e: Vec<u8> = Vec::new();
        push_bytes(&mut e, part);
        assert(e@ =~= part@);
        assert(entry_at(body@, at) == Some((e@, pos as int)));
        entries.push(e);
        i += 1;
    }
    Some((from, to, more != 0, entries))
}

} // verus!
