//! What stands on the wire: a body is read as a value exactly if it starts with
//! that value's encoding, and each field has its place in the encoding.

use crate::bytes::{be_bytes, lemma_be_bytes_1, lemma_be_bytes_len, lemma_be_bytes_of_value};
use crate::bytes::{lemma_be_value_bound, lemma_pow256_values, lemma_prefixed_back};
use crate::bytes::{lemma_u64_back, lemma_uuid_of_view, lemma_view_of_uuid, many_at, many_bytes};
use crate::bytes::{pow256, prefixed_at, str_at, str_bytes, text_at, text_bytes, u16_at, u64_at};
use crate::bytes::{uuid_at, Uuid};
use crate::codec::{ack_of, cursor_enc, cursor_item, dev_text_of, entry_enc, entry_item};
use crate::codec::{envelope_bytes, envelope_of, hello_bytes, hello_of, history_req_bytes};
use crate::codec::{history_req_of, history_resp_bytes, history_resp_of, invite_bytes, invite_of};
use crate::codec::{listed_enc, listed_item, member_update_bytes, member_update_of, msg_bytes};
use crate::codec::{msg_of, open_room_bytes, open_room_of, post_bytes, post_of, uuid_enc};
use crate::codec::{uuid_item, Cursor, DecodedMsgModel, EnvelopeModel, InviteModel, Listed};
use crate::codec::{OpenRoomModel, MEMBER_CHANGE_ADD, MEMBER_CHANGE_LEAVE, MEMBER_CHANGE_REMOVE};
use crate::round_trip::{ack_round_trip, dev_text_round_trip, envelope_round_trip, fits_str};
use crate::round_trip::{fits_text, hello_round_trip, history_req_round_trip, invite_round_trip};
use crate::round_trip::{member_update_round_trip, open_room_round_trip};
use vstd::arithmetic::div_mod::lemma_div_denominator;
use vstd::arithmetic::power::{lemma_pow0, lemma_pow_positive, pow};
use vstd::prelude::*;
use vstd::utf8::{decode_utf8_encode_utf8, encode_utf8};

verus! {

// ── Numbers ──────────────────────────────────────────────────────────────────

/// The `i`-th byte of a number counts the 256s to the power of the bytes that
/// follow it: the most significant byte comes first.
pub proof fn numbers_are_big_endian(n: nat, len: nat, i: int)
    requires
        0 <= i < len,
    ensures
        be_bytes(n, len).len() == len,
        be_bytes(n, len)[i] == (n as int / pow(256, (len - 1 - i) as nat)) % 256,
    decreases len,
{
    reveal(pow);
    lemma_be_bytes_len(n, len);
    lemma_be_bytes_len(n / 256, (len - 1) as nat);
    lemma_pow0(256);
    if i < len - 1 {
        let k = (len - 2 - i) as nat;
        numbers_are_big_endian(n / 256, (len - 1) as nat, i);
        lemma_pow_positive(256, k);
        lemma_div_denominator(n as int, 256, pow(256, k));
        assert(pow(256, k + 1) == 256 * pow(256, k));
        assert(k + 1 == len - 1 - i);
    }
}

// ── Reading, backwards ───────────────────────────────────────────────────────

/// Whether what an item reads is what its encoding writes.
pub open spec fn writes_back<T>(
    item: spec_fn(Seq<u8>, int) -> Option<(T, int)>,
    enc: spec_fn(T) -> Seq<u8>,
) -> bool {
    forall|s: Seq<u8>, p: int|
        p >= 0 ==> match #[trigger] item(s, p) {
            Some((t, e)) => p <= e <= s.len() && s.subrange(p, e) == enc(t),
            None => true,
        }
}

proof fn lemma_many_from<T>(
    item: spec_fn(Seq<u8>, int) -> Option<(T, int)>,
    enc: spec_fn(T) -> Seq<u8>,
    s: Seq<u8>,
    p: int,
    n: nat,
)
    requires
        writes_back(item, enc),
        0 <= p <= s.len(),
    ensures
        many_at(item, s, p, n) matches Some((ts, q)) ==> ts.len() == n && p <= q <= s.len()
            && s.subrange(p, q) == many_bytes(enc, ts),
    decreases n,
{
    if n > 0 {
        lemma_many_from(item, enc, s, p, (n - 1) as nat);
        if let Some((ts, q)) = many_at(item, s, p, (n - 1) as nat) {
            if let Some((t, e)) = item(s, q) {
                assert(ts.push(t).drop_last() =~= ts);
                assert(s.subrange(p, e) =~= s.subrange(p, q) + s.subrange(q, e));
            }
        }
    } else {
        assert(s.subrange(p, p) =~= Seq::empty());
    }
}

/// An identifier that is read stands where it was read.
pub proof fn lemma_uuid_from(s: Seq<u8>, p: int)
    ensures
        uuid_at(s, p) matches Some((u, e)) ==> e == p + 16 && e <= s.len() && s.subrange(p, e)
            == u@,
{
    if 0 <= p && p + 16 <= s.len() {
        lemma_view_of_uuid(s.subrange(p, p + 16));
    }
}

proof fn lemma_u16_from(s: Seq<u8>, p: int)
    ensures
        u16_at(s, p) matches Some((n, e)) ==> e == p + 2 && e <= s.len() && s.subrange(p, e)
            == be_bytes(n as nat, 2),
{
    if 0 <= p && p + 2 <= s.len() {
        lemma_pow256_values();
        lemma_be_value_bound(s.subrange(p, p + 2));
        lemma_be_bytes_of_value(s.subrange(p, p + 2));
    }
}

proof fn lemma_u64_from(s: Seq<u8>, p: int)
    ensures
        u64_at(s, p) matches Some((n, e)) ==> e == p + 8 && e <= s.len() && s.subrange(p, e)
            == be_bytes(n as nat, 8),
{
    if 0 <= p && p + 8 <= s.len() {
        lemma_pow256_values();
        lemma_be_value_bound(s.subrange(p, p + 8));
        lemma_be_bytes_of_value(s.subrange(p, p + 8));
    }
}

proof fn lemma_prefixed_from(s: Seq<u8>, p: int, w: nat)
    ensures
        prefixed_at(s, p, w as int) matches Some((t, e)) ==> {
            &&& encode_utf8(t).len() < pow256(w)
            &&& p <= e <= s.len()
            &&& s.subrange(p, e) == be_bytes(encode_utf8(t).len(), w) + encode_utf8(t)
        },
{
    if let Some((t, e)) = prefixed_at(s, p, w as int) {
        let head = s.subrange(p, p + w);
        let b = s.subrange(p + w, e);
        lemma_be_value_bound(head);
        lemma_be_bytes_of_value(head);
        decode_utf8_encode_utf8(b);
        assert(s.subrange(p, e) =~= head + b);
    }
}

/// A string that is read stands where it was read.
pub proof fn lemma_str_from(s: Seq<u8>, p: int)
    ensures
        str_at(s, p) matches Some((t, e)) ==> fits_str(t) && p < e <= s.len() && s.subrange(p, e)
            == str_bytes(t),
{
    lemma_pow256_values();
    lemma_prefixed_from(s, p, 1);
    if let Some((t, e)) = str_at(s, p) {
        lemma_be_bytes_len(encode_utf8(t).len(), 1);
        assert(s.subrange(p, e).len() == e - p);
    }
}

proof fn lemma_text_from(s: Seq<u8>, p: int)
    ensures
        text_at(s, p) matches Some((t, e)) ==> fits_text(t) && p < e <= s.len() && s.subrange(p, e)
            == text_bytes(t),
{
    lemma_pow256_values();
    lemma_prefixed_from(s, p, 2);
    if let Some((t, e)) = text_at(s, p) {
        lemma_be_bytes_len(encode_utf8(t).len(), 2);
        assert(s.subrange(p, e).len() == e - p);
    }
}

proof fn lemma_tail(whole: Seq<u8>, head: Seq<u8>) -> (tail: Seq<u8>)
    requires
        head.is_prefix_of(whole),
    ensures
        whole == head + tail,
{
    let tail = whole.subrange(head.len() as int, whole.len() as int);
    assert(whole =~= head + tail);
    tail
}

// ── Each kind of body ────────────────────────────────────────────────────────

/// A payload is read as a frame exactly if it is that frame's encoding.
pub proof fn envelopes_are_exact(data: Seq<u8>, e: EnvelopeModel)
    ensures
        envelope_of(data) == Some(e) <==> data == envelope_bytes(e.msg_type, e.room_id, e.body),
{
    envelope_round_trip(e.msg_type, e.room_id, e.body);
    if envelope_of(data) == Some(e) {
        lemma_view_of_uuid(data.subrange(2, 18));
        assert(data =~= envelope_bytes(e.msg_type, e.room_id, e.body));
    }
}

/// A frame spells its version, its kind, its room and its body, in this order.
pub proof fn envelope_layout(msg_type: u8, room_id: Uuid, body: Seq<u8>)
    ensures
        ({
            let b = envelope_bytes(msg_type, room_id, body);
            &&& b.len() == 18 + body.len()
            &&& b[0] == 1
            &&& b[1] == msg_type
            &&& b.subrange(2, 18) == room_id@
            &&& b.subrange(18, b.len() as int) == body
        }),
{
    let b = envelope_bytes(msg_type, room_id, body);
    assert(b.subrange(2, 18) =~= room_id@);
    assert(b.subrange(18, b.len() as int) =~= body);
}

/// A string spells its length in bytes, as far as the prefix holds it, then its
/// bytes.
pub proof fn string_layout(t: Seq<char>)
    ensures
        str_bytes(t).len() == 1 + encode_utf8(t).len(),
        str_bytes(t)[0] == encode_utf8(t).len() % 256,
        str_bytes(t).subrange(1, str_bytes(t).len() as int) == encode_utf8(t),
        text_bytes(t).len() == 2 + encode_utf8(t).len(),
        256 * text_bytes(t)[0] + text_bytes(t)[1] == encode_utf8(t).len() % 0x1_0000,
        text_bytes(t).subrange(2, text_bytes(t).len() as int) == encode_utf8(t),
{
    let n = encode_utf8(t).len();
    lemma_be_bytes_1(n);
    lemma_be_bytes_len(n, 2);
    reveal_with_fuel(be_bytes, 3);
    assert(str_bytes(t).subrange(1, str_bytes(t).len() as int) =~= encode_utf8(t));
    assert(text_bytes(t).subrange(2, text_bytes(t).len() as int) =~= encode_utf8(t));
}

/// A body is read as a text exactly if it starts with that text's encoding.
pub proof fn texts_are_exact(body: Seq<u8>, t: Seq<char>)
    ensures
        dev_text_of(body) == Some(t) <==> fits_text(t) && text_bytes(t).is_prefix_of(body),
{
    lemma_text_from(body, 0);
    if fits_text(t) && text_bytes(t).is_prefix_of(body) {
        let tail = lemma_tail(body, text_bytes(t));
        dev_text_round_trip(t, tail);
    }
    if let Some((x, e)) = text_at(body, 0) {
        assert(text_bytes(x).len() == e);
    }
}

proof fn lemma_uuids_write_back()
    ensures
        writes_back(uuid_item(), uuid_enc()),
{
    assert forall|s: Seq<u8>, p: int| p >= 0 implies match #[trigger] uuid_item()(s, p) {
        Some((t, e)) => p <= e <= s.len() && s.subrange(p, e) == uuid_enc()(t),
        None => true,
    } by {
        lemma_uuid_from(s, p);
    }
}

/// A body is read as a request for a room exactly if it starts with that request's
/// encoding.
pub proof fn open_rooms_are_exact(body: Seq<u8>, o: OpenRoomModel)
    ensures
        open_room_of(body) == Some(o) <==> fits_str(o.name) && o.members.len() < 0x100
            && open_room_bytes(o.name, o.retention, o.join_hist, o.members).is_prefix_of(body),
{
    let enc = open_room_bytes(o.name, o.retention, o.join_hist, o.members);
    if fits_str(o.name) && o.members.len() < 0x100 && enc.is_prefix_of(body) {
        let tail = lemma_tail(body, enc);
        open_room_round_trip(o, tail);
    }
    if open_room_of(body) == Some(o) {
        lemma_str_from(body, 0);
        lemma_uuids_write_back();
        let (name, p) = str_at(body, 0)->0;
        let count = body[p + 2];
        lemma_many_from(uuid_item(), uuid_enc(), body, p + 3, count as nat);
        lemma_be_bytes_1(count as nat);
        let (members, q) = many_at(uuid_item(), body, p + 3, count as nat)->0;
        assert(body.subrange(0, q) =~= body.subrange(0, p) + seq![body[p], body[p + 1]] + seq![
            count,
        ] + body.subrange(p + 3, q));
        assert(enc == body.subrange(0, q));
    }
}

/// A request for a room spells its name, its two modes, and its members, counted.
pub proof fn open_room_layout(o: OpenRoomModel, i: int)
    ensures
        ({
            let b = open_room_bytes(o.name, o.retention, o.join_hist, o.members);
            let p = str_bytes(o.name).len() as int;
            &&& b.len() == p + 3 + 16 * o.members.len()
            &&& b.subrange(0, p) == str_bytes(o.name)
            &&& b[p] == o.retention
            &&& b[p + 1] == o.join_hist
            &&& b[p + 2] == o.members.len() % 256
            &&& 0 <= i < o.members.len() ==> b.subrange(p + 3 + 16 * i, p + 19 + 16 * i)
                == o.members[i]@
        }),
{
    let b = open_room_bytes(o.name, o.retention, o.join_hist, o.members);
    let p = str_bytes(o.name).len() as int;
    let many = many_bytes(uuid_enc(), o.members);
    lemma_be_bytes_1(o.members.len());
    lemma_many_uuids(o.members, i);
    assert(b.subrange(0, p) =~= str_bytes(o.name));
    if 0 <= i < o.members.len() {
        assert(b.subrange(p + 3 + 16 * i, p + 19 + 16 * i) =~= many.subrange(16 * i, 16 * i + 16));
    }
}

proof fn lemma_many_uuids(us: Seq<Uuid>, i: int)
    ensures
        many_bytes(uuid_enc(), us).len() == 16 * us.len(),
        0 <= i < us.len() ==> many_bytes(uuid_enc(), us).subrange(16 * i, 16 * i + 16) == us[i]@,
    decreases us.len(),
{
    if us.len() > 0 {
        let front = us.drop_last();
        let m = many_bytes(uuid_enc(), front);
        lemma_many_uuids(front, i);
        if 0 <= i < front.len() {
            assert(many_bytes(uuid_enc(), us).subrange(16 * i, 16 * i + 16) =~= m.subrange(
                16 * i,
                16 * i + 16,
            ));
        } else if i == front.len() {
            assert(many_bytes(uuid_enc(), us).subrange(16 * i, 16 * i + 16) =~= us[i]@);
        }
    }
}

proof fn lemma_listed_write_back()
    ensures
        writes_back(listed_item(), listed_enc()),
{
    assert forall|s: Seq<u8>, p: int| p >= 0 implies match #[trigger] listed_item()(s, p) {
        Some((t, e)) => p <= e <= s.len() && s.subrange(p, e) == listed_enc()(t),
        None => true,
    } by {
        lemma_uuid_from(s, p);
        lemma_str_from(s, p + 16);
        if let Some((t, e)) = listed_item()(s, p) {
            assert(s.subrange(p, e) =~= s.subrange(p, p + 16) + s.subrange(p + 16, e));
        }
    }
}

proof fn lemma_aliases_fit(s: Seq<u8>, p: int, n: nat, i: int)
    requires
        0 <= p <= s.len(),
    ensures
        many_at(listed_item(), s, p, n) matches Some((ts, q)) ==> ts.len() == n && (0 <= i < n
            ==> fits_str(ts[i].1)),
    decreases n,
{
    if n > 0 {
        lemma_aliases_fit(s, p, (n - 1) as nat, i);
        lemma_listed_write_back();
        lemma_many_from(listed_item(), listed_enc(), s, p, (n - 1) as nat);
        if let Some((ts, q)) = many_at(listed_item(), s, p, (n - 1) as nat) {
            lemma_str_from(s, q + 16);
        }
    }
}

/// A body is read as an invitation exactly if it starts with that invitation's
/// encoding.
#[verifier::rlimit(30)]
pub proof fn invitations_are_exact(body: Seq<u8>, inv: InviteModel)
    ensures
        invite_of(body) == Some(inv) <==> {
            &&& fits_str(inv.name)
            &&& inv.members.len() < 0x100
            &&& forall|i: int|
                0 <= i < inv.members.len() ==> fits_str((#[trigger] inv.members[i]).1)
            &&& invite_bytes(inv).is_prefix_of(body)
        },
{
    let enc = invite_bytes(inv);
    if fits_str(inv.name) && inv.members.len() < 0x100 && (forall|i: int|
        0 <= i < inv.members.len() ==> fits_str((#[trigger] inv.members[i]).1)) && enc.is_prefix_of(
        body,
    ) {
        let tail = lemma_tail(body, enc);
        invite_round_trip(inv, tail);
    }
    if invite_of(body) == Some(inv) {
        lemma_str_from(body, 0);
        lemma_listed_write_back();
        let (name, p) = str_at(body, 0)->0;
        let count = body[p + 50];
        lemma_many_from(listed_item(), listed_enc(), body, p + 51, count as nat);
        lemma_be_bytes_1(count as nat);
        let (members, q) = many_at(listed_item(), body, p + 51, count as nat)->0;
        lemma_view_of_uuid(body.subrange(p, p + 16));
        lemma_view_of_uuid(body.subrange(p + 16, p + 32));
        lemma_view_of_uuid(body.subrange(p + 32, p + 48));
        assert(body.subrange(0, q) =~= body.subrange(0, p) + body.subrange(p, p + 16)
            + body.subrange(p + 16, p + 32) + body.subrange(p + 32, p + 48) + seq![
            body[p + 48],
            body[p + 49],
        ] + seq![count] + body.subrange(p + 51, q));
        assert(enc == body.subrange(0, q));
        assert forall|i: int| 0 <= i < inv.members.len() implies fits_str(
            (#[trigger] inv.members[i]).1,
        ) by {
            lemma_aliases_fit(body, p + 51, count as nat, i);
        }
    }
}

/// An invitation spells the room's name, its host's user, device and app, its two
/// modes, and its members, counted.
pub proof fn invitation_layout(inv: InviteModel)
    ensures
        ({
            let b = invite_bytes(inv);
            let p = str_bytes(inv.name).len() as int;
            &&& b.len() >= p + 51
            &&& b.subrange(0, p) == str_bytes(inv.name)
            &&& b.subrange(p, p + 16) == inv.host_user@
            &&& b.subrange(p + 16, p + 32) == inv.rh_device@
            &&& b.subrange(p + 32, p + 48) == inv.rh_app@
            &&& b[p + 48] == inv.retention
            &&& b[p + 49] == inv.join_hist
            &&& b[p + 50] == inv.members.len() % 256
        }),
{
    let b = invite_bytes(inv);
    let p = str_bytes(inv.name).len() as int;
    lemma_be_bytes_1(inv.members.len());
    assert(b.subrange(0, p) =~= str_bytes(inv.name));
    assert(b.subrange(p, p + 16) =~= inv.host_user@);
    assert(b.subrange(p + 16, p + 32) =~= inv.rh_device@);
    assert(b.subrange(p + 32, p + 48) =~= inv.rh_app@);
}

/// A listed member spells their identifier, then their alias, and what follows the
/// count of an invitation is those of its members, one after the other.
pub proof fn member_layout(m: Listed, rest: Seq<Listed>)
    ensures
        listed_enc()(m).subrange(0, 16) == m.0@,
        listed_enc()(m).subrange(16, listed_enc()(m).len() as int) == str_bytes(m.1),
        many_bytes(listed_enc(), rest.push(m)) == many_bytes(listed_enc(), rest) + listed_enc()(m),
        many_bytes(listed_enc(), Seq::<Listed>::empty()).len() == 0,
{
    assert(rest.push(m).drop_last() =~= rest);
    assert(listed_enc()(m).subrange(0, 16) =~= m.0@);
    assert(listed_enc()(m).subrange(16, listed_enc()(m).len() as int) =~= str_bytes(m.1));
}

proof fn lemma_cursors_write_back()
    ensures
        writes_back(cursor_item(), cursor_enc()),
{
    assert forall|s: Seq<u8>, p: int| p >= 0 implies match #[trigger] cursor_item()(s, p) {
        Some((t, e)) => p <= e <= s.len() && s.subrange(p, e) == cursor_enc()(t),
        None => true,
    } by {
        lemma_uuid_from(s, p);
        lemma_u64_from(s, p + 16);
        if let Some((t, e)) = cursor_item()(s, p) {
            assert(s.subrange(p, e) =~= s.subrange(p, p + 16) + s.subrange(p + 16, e));
        }
    }
}

/// A body is read as an announcement exactly if it starts with that announcement's
/// encoding.
pub proof fn announcements_are_exact(body: Seq<u8>, device: Uuid, app: Uuid, rooms: Seq<Cursor>)
    ensures
        hello_of(body) == Some((device, app, rooms)) <==> rooms.len() < 0x1_0000 && hello_bytes(
            device,
            app,
            rooms,
        ).is_prefix_of(body),
{
    let enc = hello_bytes(device, app, rooms);
    if rooms.len() < 0x1_0000 && enc.is_prefix_of(body) {
        let tail = lemma_tail(body, enc);
        hello_round_trip(device, app, rooms, tail);
    }
    if hello_of(body) == Some((device, app, rooms)) {
        lemma_cursors_write_back();
        lemma_u16_from(body, 32);
        let (count, e) = u16_at(body, 32)->0;
        lemma_many_from(cursor_item(), cursor_enc(), body, 34, count as nat);
        let (ts, q) = many_at(cursor_item(), body, 34, count as nat)->0;
        lemma_view_of_uuid(body.subrange(0, 16));
        lemma_view_of_uuid(body.subrange(16, 32));
        assert(body.subrange(0, q) =~= body.subrange(0, 16) + body.subrange(16, 32)
            + body.subrange(32, 34) + body.subrange(34, q));
        assert(enc == body.subrange(0, q));
    }
}

/// An announcement spells a device, an app and the number of rooms, then each
/// room's identifier and how far it was read.
pub proof fn announcement_layout(device: Uuid, app: Uuid, rooms: Seq<Cursor>, c: Cursor)
    ensures
        ({
            let b = hello_bytes(device, app, rooms);
            &&& b.len() == 34 + many_bytes(cursor_enc(), rooms).len()
            &&& b.subrange(0, 16) == device@
            &&& b.subrange(16, 32) == app@
            &&& b.subrange(32, 34) == be_bytes(rooms.len(), 2)
            &&& b.subrange(34, b.len() as int) == many_bytes(cursor_enc(), rooms)
        }),
        cursor_enc()(c).len() == 24,
        cursor_enc()(c).subrange(0, 16) == c.0@,
        cursor_enc()(c).subrange(16, 24) == be_bytes(c.1 as nat, 8),
        many_bytes(cursor_enc(), rooms.push(c)) == many_bytes(cursor_enc(), rooms) + cursor_enc()(
            c,
        ),
{
    let b = hello_bytes(device, app, rooms);
    lemma_be_bytes_len(rooms.len(), 2);
    lemma_be_bytes_len(c.1 as nat, 8);
    assert(b.subrange(0, 16) =~= device@);
    assert(b.subrange(16, 32) =~= app@);
    assert(b.subrange(32, 34) =~= be_bytes(rooms.len(), 2));
    assert(b.subrange(34, b.len() as int) =~= many_bytes(cursor_enc(), rooms));
    assert(rooms.push(c).drop_last() =~= rooms);
    assert(cursor_enc()(c).subrange(0, 16) =~= c.0@);
    assert(cursor_enc()(c).subrange(16, 24) =~= be_bytes(c.1 as nat, 8));
}

/// A body is read as a notice exactly if it starts with that notice's encoding.
pub proof fn notices_are_read_exactly(body: Seq<u8>, change: u8, user: Uuid, alias: Seq<char>)
    ensures
        member_update_of(body) == Some((change, user, alias)) <==> fits_str(alias)
            && member_update_bytes(change, user, alias).is_prefix_of(body),
{
    let enc = member_update_bytes(change, user, alias);
    if fits_str(alias) && enc.is_prefix_of(body) {
        let tail = lemma_tail(body, enc);
        member_update_round_trip(change, user, alias, tail);
    }
    if member_update_of(body) == Some((change, user, alias)) {
        lemma_str_from(body, 17);
        let (a, q) = str_at(body, 17)->0;
        lemma_view_of_uuid(body.subrange(1, 17));
        assert(body.subrange(0, q) =~= seq![body[0]] + body.subrange(1, 17) + body.subrange(17, q));
        assert(enc == body.subrange(0, q));
    }
}

/// A notice spells the change (zero for someone added, one for someone removed,
/// two for someone who left), the user and the alias.
pub proof fn notice_layout(change: u8, user: Uuid, alias: Seq<char>)
    ensures
        MEMBER_CHANGE_ADD == 0 && MEMBER_CHANGE_REMOVE == 1 && MEMBER_CHANGE_LEAVE == 2,
        ({
            let b = member_update_bytes(change, user, alias);
            &&& b.len() == 17 + str_bytes(alias).len()
            &&& b[0] == change
            &&& b.subrange(1, 17) == user@
            &&& b.subrange(17, b.len() as int) == str_bytes(alias)
        }),
{
    let b = member_update_bytes(change, user, alias);
    assert(b.subrange(1, 17) =~= user@);
    assert(b.subrange(17, b.len() as int) =~= str_bytes(alias));
}

/// A body is read as a post exactly if it starts with the message's identifier and
/// its text.
pub proof fn posts_are_exact(body: Seq<u8>, cid: Uuid, text: Seq<char>)
    ensures
        post_of(body) == Some((cid, text)) <==> fits_text(text) && (cid@ + text_bytes(
            text,
        )).is_prefix_of(body),
{
    let enc = cid@ + text_bytes(text);
    if fits_text(text) && enc.is_prefix_of(body) {
        let tail = lemma_tail(body, enc);
        lemma_pow256_values();
        lemma_be_bytes_len(encode_utf8(text).len(), 2);
        lemma_prefixed_back(cid@, text, 2, tail);
        lemma_uuid_of_view(cid);
        assert(body.subrange(0, 16) =~= cid@);
    }
    if post_of(body) == Some((cid, text)) {
        lemma_text_from(body, 16);
        let (t, q) = text_at(body, 16)->0;
        lemma_view_of_uuid(body.subrange(0, 16));
        assert(body.subrange(0, q) =~= body.subrange(0, 16) + body.subrange(16, q));
        assert(enc == body.subrange(0, q));
    }
}

/// A post spells the message's identifier, its text, and that nothing is attached.
pub proof fn post_layout(cid: Uuid, text: Seq<char>)
    ensures
        ({
            let b = post_bytes(cid, text);
            &&& b.len() == 17 + text_bytes(text).len()
            &&& b.subrange(0, 16) == cid@
            &&& b.subrange(16, b.len() - 1) == text_bytes(text)
            &&& b.last() == 0
        }),
{
    let b = post_bytes(cid, text);
    assert(b.subrange(0, 16) =~= cid@);
    assert(b.subrange(16, b.len() - 1) =~= text_bytes(text));
}

/// The fields of a message, up to its text.
pub open spec fn fields_of(m: DecodedMsgModel) -> Seq<u8> {
    be_bytes(m.seq as nat, 8) + m.sender_user@ + be_bytes(m.ts_ms as nat, 8) + m.client_msg_id@
        + text_bytes(m.text)
}

/// A body is read as a message exactly if it starts with that message's fields.
#[verifier::rlimit(30)]
pub proof fn messages_are_exact(body: Seq<u8>, m: DecodedMsgModel)
    ensures
        msg_of(body) == Some(m) <==> fits_text(m.text) && fields_of(m).is_prefix_of(body),
{
    let enc = fields_of(m);
    let a = be_bytes(m.seq as nat, 8);
    let c = be_bytes(m.ts_ms as nat, 8);
    lemma_be_bytes_len(m.seq as nat, 8);
    lemma_be_bytes_len(m.ts_ms as nat, 8);
    if fits_text(m.text) && enc.is_prefix_of(body) {
        let tail = lemma_tail(body, enc);
        let t = text_bytes(m.text);
        lemma_pow256_values();
        lemma_u64_back(Seq::empty(), m.seq, m.sender_user@ + c + m.client_msg_id@ + t + tail);
        assert(Seq::<u8>::empty() + a + (m.sender_user@ + c + m.client_msg_id@ + t + tail)
            =~= body);
        lemma_u64_back(a + m.sender_user@, m.ts_ms, m.client_msg_id@ + t + tail);
        assert(a + m.sender_user@ + c + (m.client_msg_id@ + t + tail) =~= body);
        lemma_prefixed_back(a + m.sender_user@ + c + m.client_msg_id@, m.text, 2, tail);
        lemma_uuid_of_view(m.sender_user);
        lemma_uuid_of_view(m.client_msg_id);
        assert(body.subrange(8, 24) =~= m.sender_user@);
        assert(body.subrange(32, 48) =~= m.client_msg_id@);
    }
    if msg_of(body) == Some(m) {
        lemma_u64_from(body, 0);
        lemma_u64_from(body, 24);
        lemma_text_from(body, 48);
        let (t, q) = text_at(body, 48)->0;
        lemma_view_of_uuid(body.subrange(8, 24));
        lemma_view_of_uuid(body.subrange(32, 48));
        assert(body.subrange(0, q) =~= body.subrange(0, 8) + body.subrange(8, 24) + body.subrange(
            24,
            32,
        ) + body.subrange(32, 48) + body.subrange(48, q));
        assert(enc == body.subrange(0, q));
    }
}

/// A message spells its number, its sender, its time, its identifier and its text,
/// and that nothing is attached.
pub proof fn message_layout(m: DecodedMsgModel)
    ensures
        ({
            let b = msg_bytes(m);
            &&& b.len() == 49 + text_bytes(m.text).len()
            &&& b.subrange(0, 8) == be_bytes(m.seq as nat, 8)
            &&& b.subrange(8, 24) == m.sender_user@
            &&& b.subrange(24, 32) == be_bytes(m.ts_ms as nat, 8)
            &&& b.subrange(32, 48) == m.client_msg_id@
            &&& b.subrange(48, b.len() - 1) == text_bytes(m.text)
            &&& b.last() == 0
        }),
{
    let b = msg_bytes(m);
    lemma_be_bytes_len(m.seq as nat, 8);
    lemma_be_bytes_len(m.ts_ms as nat, 8);
    assert(b.subrange(0, 8) =~= be_bytes(m.seq as nat, 8));
    assert(b.subrange(8, 24) =~= m.sender_user@);
    assert(b.subrange(24, 32) =~= be_bytes(m.ts_ms as nat, 8));
    assert(b.subrange(32, 48) =~= m.client_msg_id@);
    assert(b.subrange(48, b.len() - 1) =~= text_bytes(m.text));
}

/// A body is read as an acknowledgement exactly if it starts with its number.
pub proof fn acknowledgements_are_exact(body: Seq<u8>, n: u64)
    ensures
        ack_of(body) == Some(n) <==> be_bytes(n as nat, 8).is_prefix_of(body),
{
    lemma_be_bytes_len(n as nat, 8);
    if be_bytes(n as nat, 8).is_prefix_of(body) {
        let tail = lemma_tail(body, be_bytes(n as nat, 8));
        ack_round_trip(n, tail);
    }
    lemma_u64_from(body, 0);
}

/// A body is read as a request for history exactly if it starts with the number
/// after which, then the number of messages wanted.
pub proof fn history_requests_are_exact(body: Seq<u8>, since: u64, max: u16)
    ensures
        history_req_of(body) == Some((since, max)) <==> (be_bytes(since as nat, 8) + be_bytes(
            max as nat,
            2,
        )).is_prefix_of(body),
        history_req_bytes(since, max).subrange(0, 8) == be_bytes(since as nat, 8),
        history_req_bytes(since, max).subrange(8, 10) == be_bytes(max as nat, 2),
        history_req_bytes(since, max).len() == 10,
{
    let enc = be_bytes(since as nat, 8) + be_bytes(max as nat, 2);
    lemma_be_bytes_len(since as nat, 8);
    lemma_be_bytes_len(max as nat, 2);
    assert(history_req_bytes(since, max) =~= enc);
    assert(enc.subrange(0, 8) =~= be_bytes(since as nat, 8));
    assert(enc.subrange(8, 10) =~= be_bytes(max as nat, 2));
    if enc.is_prefix_of(body) {
        let tail = lemma_tail(body, enc);
        history_req_round_trip(since, max, tail);
    }
    if history_req_of(body) == Some((since, max)) {
        lemma_u64_from(body, 0);
        lemma_u16_from(body, 8);
        assert(body.subrange(0, 10) =~= body.subrange(0, 8) + body.subrange(8, 10));
    }
}

proof fn lemma_entries_write_back()
    ensures
        writes_back(entry_item(), entry_enc()),
{
    assert forall|s: Seq<u8>, p: int| p >= 0 implies match #[trigger] entry_item()(s, p) {
        Some((t, e)) => p <= e <= s.len() && s.subrange(p, e) == entry_enc()(t),
        None => true,
    } by {
        lemma_u16_from(s, p);
        if let Some((t, e)) = entry_item()(s, p) {
            assert(t.len() == e - (p + 2));
            assert(s.subrange(p, e) =~= s.subrange(p, p + 2) + s.subrange(p + 2, e));
        }
    }
}

/// An answer to a request for history, with any byte that says whether more is to
/// come.
pub open spec fn answer_bytes(from: u64, to: u64, more: u8, entries: Seq<Seq<u8>>) -> Seq<u8> {
    be_bytes(from as nat, 8) + be_bytes(to as nat, 8) + seq![more] + be_bytes(entries.len(), 2)
        + many_bytes(entry_enc(), entries)
}

/// A body that is read as an answer with history starts with that answer's
/// encoding, in which any byte but zero says that more is to come.
pub proof fn history_answers_are_exact(
    body: Seq<u8>,
    from: u64,
    to: u64,
    more: bool,
    entries: Seq<Seq<u8>>,
)
    ensures
        history_resp_of(body) == Some((from, to, more, entries)) ==> {
            &&& body.len() >= 19
            &&& entries.len() < 0x1_0000
            &&& more == (body[16] != 0)
            &&& answer_bytes(from, to, body[16], entries).is_prefix_of(body)
        },
{
    if history_resp_of(body) == Some((from, to, more, entries)) {
        lemma_u64_from(body, 0);
        lemma_u64_from(body, 8);
        lemma_u16_from(body, 17);
        lemma_entries_write_back();
        let (count, e) = u16_at(body, 17)->0;
        lemma_many_from(entry_item(), entry_enc(), body, 19, count as nat);
        let (ts, q) = many_at(entry_item(), body, 19, count as nat)->0;
        assert(body.subrange(0, q) =~= body.subrange(0, 8) + body.subrange(8, 16) + seq![body[16]]
            + body.subrange(17, 19) + body.subrange(19, q));
        assert(answer_bytes(from, to, body[16], entries) == body.subrange(0, q));
    }
}

/// An answer with history spells the first and the last number, whether more is to
/// come, and its entries, counted, each after its length.
pub proof fn history_answer_layout(
    from: u64,
    to: u64,
    more: bool,
    entries: Seq<Seq<u8>>,
    e: Seq<u8>,
)
    ensures
        ({
            let b = history_resp_bytes(from, to, more, entries);
            &&& b.len() == 19 + many_bytes(entry_enc(), entries).len()
            &&& b.subrange(0, 8) == be_bytes(from as nat, 8)
            &&& b.subrange(8, 16) == be_bytes(to as nat, 8)
            &&& more ==> b[16] == 1
            &&& !more ==> b[16] == 0
            &&& b.subrange(17, 19) == be_bytes(entries.len(), 2)
            &&& b.subrange(19, b.len() as int) == many_bytes(entry_enc(), entries)
        }),
        many_bytes(entry_enc(), entries.push(e)) == many_bytes(entry_enc(), entries) + (be_bytes(
            e.len(),
            2,
        ) + e),
{
    let b = history_resp_bytes(from, to, more, entries);
    lemma_be_bytes_len(from as nat, 8);
    lemma_be_bytes_len(to as nat, 8);
    lemma_be_bytes_len(entries.len(), 2);
    assert(b.subrange(0, 8) =~= be_bytes(from as nat, 8));
    assert(b.subrange(8, 16) =~= be_bytes(to as nat, 8));
    assert(b.subrange(17, 19) =~= be_bytes(entries.len(), 2));
    assert(b.subrange(19, b.len() as int) =~= many_bytes(entry_enc(), entries));
    assert(entries.push(e).drop_last() =~= entries);
}

} // verus!
