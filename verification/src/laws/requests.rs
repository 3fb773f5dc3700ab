//! What the local user's requests do: creating a room, changing its members,
//! posting, sending a test text; and what the user is shown.

use crate::api::{are_contacts, are_rooms, attach_frame, by_name, contacts_of, dev_packet};
use crate::api::{parsed_users, room_creation, room_member_change, room_posting, Outcome};
use crate::bytes::{be_bytes, lemma_be_bytes_len, str_bytes, text_bytes, zero_id, Uuid};
use crate::codec::{dev_text_of, envelope_bytes, envelope_of, open_room_of, post_of};
use crate::codec::{EnvelopeModel, OpenRoomModel};
use crate::laws::refusals::fails;
use crate::laws::spelling::{lower_at, order_is_that_of_the_first_difference};
use crate::messages::ordering;
use crate::msg;
use crate::packet::{packet_of, register_bytes};
use crate::rooms::{creation, local_add, local_remove};
use crate::round_trip::{dev_text_round_trip, envelope_round_trip, fits_str, fits_text};
use crate::round_trip::{open_room_round_trip, post_round_trip};
use crate::state::{reach, NodeModel, OutboundModel, Role, RoomModel, UserDirModel};
use crate::text::{dec, hex_chars, is_blank, text_le, uuid_of_hex};
use vstd::prelude::*;
use vstd::utf8::encode_utf8;

verus! {

// ── Packets ──────────────────────────────────────────────────────────────────

/// A packet to the daemon spells, in this order, the send operation, the token,
/// the device and the app that the frame is for, and the frame, which reads back
/// as its kind, its room and its body.
pub proof fn packets_are_addressed(token: Uuid, o: OutboundModel)
    ensures
        ({
            let p = packet_of(token, o);
            &&& p.len() == 67 + o.body.len()
            &&& p[0] == 0x03
            &&& p.subrange(1, 17) == token@
            &&& p.subrange(17, 33) == o.dest_device@
            &&& p.subrange(33, 49) == o.dest_app@
            &&& envelope_of(p.subrange(49, p.len() as int)) == Some(
                EnvelopeModel { msg_type: o.msg_type, room_id: o.room_id, body: o.body },
            )
        }),
{
    let p = packet_of(token, o);
    let e = envelope_bytes(o.msg_type, o.room_id, o.body);
    envelope_round_trip(o.msg_type, o.room_id, o.body);
    assert(p.subrange(1, 17) =~= token@);
    assert(p.subrange(17, 33) =~= o.dest_device@);
    assert(p.subrange(33, 49) =~= o.dest_app@);
    assert(p.subrange(49, p.len() as int) =~= e);
}

/// A registration spells its operation, the app's alias, the port to push to and
/// the protocol; a request for data its operation and the token.
pub proof fn registration_layout(port: u16)
    ensures
        ({
            let b = register_bytes(port);
            let a = str_bytes("pnet-chat"@);
            let p = str_bytes("application/pnet-chat"@);
            &&& b.len() == 3 + a.len() + p.len()
            &&& b[0] == 0x00
            &&& b.subrange(1, 1 + a.len() as int) == a
            &&& 256 * b[1 + a.len() as int] + b[2 + a.len() as int] == port
            &&& b.subrange(3 + a.len() as int, b.len() as int) == p
        }),
{
    let b = register_bytes(port);
    let a = str_bytes("pnet-chat"@);
    let p = str_bytes("application/pnet-chat"@);
    let n = be_bytes(port as nat, 2);
    reveal_with_fuel(be_bytes, 3);
    lemma_be_bytes_len(port as nat, 2);
    assert(b.subrange(1, 1 + a.len() as int) =~= a);
    assert(b.subrange(3 + a.len() as int, b.len() as int) =~= p);
    assert(b[1 + a.len() as int] == n[0] && b[2 + a.len() as int] == n[1]);
}

/// A test text goes to the chosen destination, as a text frame outside any room
/// that reads back as the text. It is refused without a token, with a destination
/// that is not listed, or when the frame would not fit a payload.
pub proof fn texts_are_sent_as_typed(n: NodeModel, i: int, text: Seq<char>)
    requires
        0 <= i,
        i < n.destinations.len() ==> n.destinations[i].device_uuid.len() == 16,
    ensures
        match dev_packet(n, i, text) {
            Err(_) => n.token is None || i >= n.destinations.len() || 20 + encode_utf8(text).len()
                > 1024,
            Ok(p) => {
                let d = n.destinations[i];
                let token = n.token->0;
                &&& n.token is Some && i < n.destinations.len() && 20 + encode_utf8(text).len()
                    <= 1024
                &&& p[0] == 0x03
                &&& p.subrange(1, 17) == token@
                &&& p.subrange(17, 33) == d.device_uuid
                &&& p.subrange(33, 49) == d.app_id@
                &&& envelope_of(p.subrange(49, p.len() as int)) matches Some(e) && e.msg_type
                    == 0xF0 && e.room_id == zero_id() && dev_text_of(e.body) == Some(text)
            },
        },
{
    let payload = envelope_bytes(msg::DEV_TEXT, zero_id(), text_bytes(text));
    lemma_be_bytes_len(encode_utf8(text).len(), 2);
    if let Ok(p) = dev_packet(n, i, text) {
        let d = n.destinations[i];
        let token = n.token->0;
        envelope_round_trip(msg::DEV_TEXT, zero_id(), text_bytes(text));
        dev_text_round_trip(text, Seq::empty());
        assert(text_bytes(text) + Seq::<u8>::empty() =~= text_bytes(text));
        assert(p.subrange(1, 17) =~= token@);
        assert(p.subrange(17, 33) =~= d.device_uuid);
        assert(p.subrange(33, 49) =~= d.app_id@);
        assert(p.subrange(49, p.len() as int) =~= payload);
    }
}

/// Only a guest that is registered and knows its User Agent's app attaches, to
/// that app on the User Agent's device, with an empty frame outside any room.
pub proof fn guests_attach_to_their_ua(n: NodeModel)
    ensures
        match attach_frame(n) {
            Some((token, o)) => {
                &&& n.role == Role::DataGuest
                &&& n.token == Some(token)
                &&& n.ua matches Some(ua) && ua.app_id == Some(o.dest_app) && o.dest_device
                    == ua.device_uuid
                &&& o.msg_type == 0x10
                &&& o.room_id == zero_id()
                &&& o.body.len() == 0
            },
            None => n.role != Role::DataGuest || n.token is None || n.ua is None
                || n.ua->0.app_id is None,
        },
{
}

// ── Rooms ────────────────────────────────────────────────────────────────────

/// A text as an identifier.
pub open spec fn as_id() -> spec_fn(Seq<char>) -> Option<Uuid> {
    |h: Seq<char>| uuid_of_hex(h)
}

/// Those that are identifiers.
pub open spec fn is_id() -> spec_fn(Option<Uuid>) -> bool {
    |u: Option<Uuid>| u is Some
}

/// The identifier itself.
pub open spec fn the_id() -> spec_fn(Option<Uuid>) -> Uuid {
    |u: Option<Uuid>| u->0
}

/// The users of a request are those of its texts that spell one, in their order.
pub proof fn users_are_parsed_in_order(hexes: Seq<Seq<char>>)
    ensures
        parsed_users(hexes) == hexes.map_values(as_id()).filter(is_id()).map_values(the_id()),
    decreases hexes.len(),
{
    reveal(Seq::filter);
    let ids = hexes.map_values(as_id());
    let out = ids.filter(is_id()).map_values(the_id());
    if hexes.len() > 0 {
        let front = hexes.drop_last();
        users_are_parsed_in_order(front);
        assert(ids.drop_last() =~= front.map_values(as_id()));
        let kept = ids.drop_last().filter(is_id());
        assert(ids.last() == uuid_of_hex(hexes.last()));
        assert(out =~= if ids.last() is Some {
            kept.map_values(the_id()).push(ids.last()->0)
        } else {
            kept.map_values(the_id())
        });
    } else {
        assert(out =~= Seq::empty());
    }
}

/// Whether a frame is addressed to an app on a device.
pub open spec fn goes_to(o: OutboundModel, device: Uuid, app: Uuid) -> bool {
    o.dest_device == device && o.dest_app == app
}

/// The acting User Agent creates the room itself, under the given name, with the
/// users that the request spells, and tells nobody but them. A guest asks its User
/// Agent's app for it, with a frame that reads back as the same name and users,
/// and changes nothing itself. Anyone else is refused, and nothing happens.
pub proof fn creation_requests_are_judged(
    n: NodeModel,
    name: Seq<char>,
    hexes: Seq<Seq<char>>,
    fresh: Uuid,
)
    ensures
        ({
            let users = hexes.map_values(as_id()).filter(is_id()).map_values(the_id());
            let out = room_creation(n, name, hexes, fresh);
            match n.role {
                Role::UserAgent => match creation(n, fresh, name, 0, 0, users, None) {
                    Some((after, sent)) => out matches Ok((node, frames, note)) && node == after
                        && frames == sent && note == "created room "@ + hex_chars(fresh@).take(8)
                        + "…"@,
                    None => fails(out, "local identity not resolved yet"@),
                },
                Role::DataGuest => if n.ua is Some && n.ua->0.app_id is Some {
                    &&& out matches Ok((node, frames, note)) && note == "OPEN_ROOM sent to our UA"@
                        && node == n && frames.len() == 1 && goes_to(
                        frames[0],
                        n.ua->0.device_uuid,
                        n.ua->0.app_id->0,
                    )
                        && frames[0].msg_type == 0x01 && frames[0].room_id == zero_id() && (
                    fits_str(name) && users.len() < 0x100 ==> open_room_of(frames[0].body) == Some(
                        OpenRoomModel { name, retention: 0, join_hist: 0, members: users },
                    ))
                } else {
                    fails(out, "no resolvable UA to host the room"@)
                },
                _ => fails(out, "this node cannot create a room (role not resolved)"@),
            }
        }),
{
    users_are_parsed_in_order(hexes);
    let users = parsed_users(hexes);
    if n.role == Role::DataGuest && n.ua is Some && n.ua->0.app_id is Some {
        let body = room_creation(n, name, hexes, fresh)->Ok_0.1[0].body;
        if fits_str(name) && users.len() < 0x100 {
            open_room_round_trip(
                OpenRoomModel { name, retention: 0, join_hist: 0, members: users },
                Seq::empty(),
            );
            assert(body + Seq::<u8>::empty() =~= body);
        }
    }
}

/// Whether the answer to a request is one frame to the host of a room, of a kind
/// and with a body.
pub open spec fn asks_host(
    out: Outcome,
    n: NodeModel,
    after: NodeModel,
    id: Uuid,
    msg_type: u8,
    body: Seq<u8>,
) -> bool {
    out matches Ok((node, frames, note)) && note == "forwarded to RH"@ && node == after
        && frames.len() == 1 && goes_to(
        frames[0],
        n.rooms[id].rh_device,
        n.rooms[id].rh_app_id,
    ) && frames[0].msg_type == msg_type && frames[0].room_id == id && frames[0].body == body
}

/// A change to a room's members is made here by the room's host, and asked of the
/// host by anyone else, with a frame that names exactly the user. One who leaves
/// tells the host and drops exactly the room; the host cannot leave. A request
/// that does not spell a room we know, or spells a user badly, is refused.
pub proof fn member_requests_are_judged(
    n: NodeModel,
    room_hex: Seq<char>,
    user_hex: Option<Seq<char>>,
    msg_type: u8,
    id: Uuid,
    user: Uuid,
)
    ensures
        ({
            let out = room_member_change(n, room_hex, user_hex, msg_type);
            let good = uuid_of_hex(room_hex) == Some(id) && n.rooms.contains_key(id) && (
            user_hex matches Some(h) ==> uuid_of_hex(h) is Some);
            let named = user_hex matches Some(h) && uuid_of_hex(h) == Some(user);
            let without = NodeModel { rooms: n.rooms.remove(id), ..n };
            let bad = user_hex matches Some(h) && uuid_of_hex(h) is None;
            &&& uuid_of_hex(room_hex) is None ==> fails(out, "bad room id"@)
            &&& uuid_of_hex(room_hex) is Some && bad ==> fails(out, "bad user id"@)
            &&& uuid_of_hex(room_hex) == Some(id) && !bad && !n.rooms.contains_key(id) ==> fails(
                out,
                "unknown room"@,
            )
            &&& good && msg_type != 0x06 && msg_type != 0x07 && msg_type != 0x08 ==> fails(
                out,
                "unsupported op"@,
            )
            &&& good && named && n.rooms[id].is_rh && msg_type == 0x06 ==> out == local_add(
                n,
                id,
                user,
            )
            &&& good && named && n.rooms[id].is_rh && msg_type == 0x07 ==> out == local_remove(
                n,
                id,
                user,
            )
            &&& good && n.rooms[id].is_rh && msg_type == 0x08 ==> fails(
                out,
                "host cannot LEAVE its own room"@,
            )
            &&& good && named && !n.rooms[id].is_rh && (msg_type == 0x06 || msg_type == 0x07)
                ==> asks_host(out, n, n, id, msg_type, user@)
            &&& good && !n.rooms[id].is_rh && msg_type == 0x08 ==> asks_host(
                out,
                n,
                without,
                id,
                0x08,
                Seq::empty(),
            )
        }),
{
}

/// A post to a room that we host is ordered here, as our own user's; a post to
/// another room goes to its host, with a frame that reads back as the message's
/// identifier and text, and changes nothing here. A blank text, or one for a room
/// that we do not know, is refused.
pub proof fn post_requests_are_judged(
    n: NodeModel,
    room_hex: Seq<char>,
    text: Seq<char>,
    cid: Uuid,
    ts_ms: u64,
    id: Uuid,
)
    ensures
        ({
            let out = room_posting(n, room_hex, text, cid, ts_ms);
            let own = match n.own_user_uuid {
                Some(u) => u,
                None => zero_id(),
            };
            &&& uuid_of_hex(room_hex) is None ==> fails(out, "bad room id"@)
            &&& uuid_of_hex(room_hex) is Some && is_blank(text) ==> fails(out, "empty message"@)
            &&& uuid_of_hex(room_hex) == Some(id) && !is_blank(text) && !n.rooms.contains_key(id)
                ==> fails(out, "unknown room"@)
            &&& uuid_of_hex(room_hex) == Some(id) && !is_blank(text) && n.rooms.contains_key(id)
                && n.rooms[id].is_rh ==> match ordering(n, id, own, cid, text, ts_ms) {
                Ok((after, sent, seq)) => out matches Ok((node, frames, note)) && node == after
                    && frames == sent && note == "posted as seq "@ + dec(seq as nat),
                Err(note) => fails(out, note),
            }
            &&& uuid_of_hex(room_hex) == Some(id) && !is_blank(text) && n.rooms.contains_key(id)
                && !n.rooms[id].is_rh ==> {
                &&& out matches Ok((node, frames, note)) && note == "POST sent to RH"@ && node == n
                    && frames.len() == 1 && goes_to(
                    frames[0],
                    n.rooms[id].rh_device,
                    n.rooms[id].rh_app_id,
                ) && frames[0].msg_type == 0x0A && frames[0].room_id == id && (fits_text(text)
                    ==> post_of(frames[0].body) == Some((cid, text)))
            }
        }),
{
    if fits_text(text) {
        post_round_trip(cid, text, Seq::empty());
        let out = room_posting(n, room_hex, text, cid, ts_ms);
        if out is Ok && (out->Ok_0).1.len() == 1 {
            let body = (out->Ok_0).1[0].body;
            assert(body + Seq::<u8>::empty() =~= body);
        }
    }
}

/// The rooms are listed each once, and every room is; of two, the one listed first
/// has the name that comes first by its bytes, or the same.
pub proof fn rooms_are_listed_by_name(
    ids: Seq<Uuid>,
    rooms: Map<Uuid, RoomModel>,
    i: int,
    j: int,
    id: Uuid,
)
    requires
        are_rooms(ids, rooms),
        by_name(ids, rooms),
    ensures
        rooms.contains_key(id) <==> ids.contains(id),
        0 <= i < j < ids.len() ==> {
            let a = encode_utf8(rooms[ids[i]].name);
            let b = encode_utf8(rooms[ids[j]].name);
            &&& ids[i] != ids[j]
            &&& a.is_prefix_of(b) || exists|k: int| lower_at(a, b, k)
        },
{
    if 0 <= i < j < ids.len() {
        let a = encode_utf8(rooms[ids[i]].name);
        let b = encode_utf8(rooms[ids[j]].name);
        order_is_that_of_the_first_difference(a, b);
        assert(text_le(rooms[ids[i]].name, rooms[ids[j]].name));
    }
}

// ── Contacts ─────────────────────────────────────────────────────────────────

/// The contacts shown are the users of the directory but ourselves, each once,
/// under their own identifier and alias, marked resolvable if and only if they can
/// be reached.
pub proof fn contacts_are_shown_as_known(
    users: Seq<Uuid>,
    directory: Map<Uuid, UserDirModel>,
    i: int,
    j: int,
    u: Uuid,
)
    requires
        are_contacts(users, directory),
    ensures
        contacts_of(users, directory).len() == users.len(),
        0 <= i < users.len() ==> directory.contains_key(users[i]) && !directory[users[i]].own,
        0 <= i < users.len() ==> {
            let c = contacts_of(users, directory)[i];
            &&& c.user_uuid_hex == hex_chars(users[i]@)
            &&& c.alias == directory[users[i]].alias
            &&& c.ua_resolvable == (reach(directory, users[i]) is Some)
        },
        0 <= i < j < users.len() ==> users[i] != users[j],
        directory.contains_key(u) && !directory[u].own ==> users.contains(u),
{
    if 0 <= i < users.len() {
        assert(users.contains(users[i]));
    }
}

} // verus!
