//! Decoding gives back what was encoded, whatever follows it in the buffer.

use crate::bytes::{be_bytes, lemma_be_bytes_1, lemma_be_bytes_len, lemma_bytes_back};
use crate::bytes::{lemma_many_reads_back, lemma_pow256_values, lemma_prefixed_back};
use crate::bytes::{lemma_u16_back, lemma_u64_back, lemma_u8_back, lemma_uuid_back};
use crate::bytes::{lemma_uuid_of_view, many_at, many_bytes, reads_back, str_at, str_bytes};
use crate::bytes::{text_at, text_bytes, u64_at, u8_at, Uuid};
use crate::codec::{ack_of, cursor_enc, cursor_item, dev_text_of, entry_enc, entry_item};
use crate::codec::{envelope_bytes, envelope_of, flag, hello_bytes, hello_of, history_req_bytes};
use crate::codec::{history_req_of, history_resp_bytes, history_resp_of, invite_bytes, invite_of};
use crate::codec::{listed_enc, listed_item, member_update_bytes, member_update_of, msg_bytes};
use crate::codec::{msg_of, open_room_bytes, open_room_of, post_bytes, post_of, uuid_enc};
use crate::codec::{uuid_item, Cursor, DecodedMsgModel, EnvelopeModel, InviteModel, Listed};
use crate::codec::{OpenRoomModel, ENVELOPE_LEN, PROTO_VERSION};
use vstd::prelude::*;
use vstd::utf8::encode_utf8;

verus! {

/// Whether a one-byte length prefix can hold the length of `s`.
pub open spec fn fits_str(s: Seq<char>) -> bool {
    encode_utf8(s).len() < 0x100
}

/// Whether a two-byte length prefix can hold the length of `s`.
pub open spec fn fits_text(s: Seq<char>) -> bool {
    encode_utf8(s).len() < 0x1_0000
}

proof fn lemma_str_back(pre: Seq<u8>, t: Seq<char>, post: Seq<u8>)
    requires
        fits_str(t),
    ensures
        str_at(pre + str_bytes(t) + post, pre.len() as int) == Some(
            (t, (pre.len() + str_bytes(t).len()) as int),
        ),
        str_bytes(t).len() == 1 + encode_utf8(t).len(),
{
    lemma_pow256_values();
    lemma_be_bytes_len(encode_utf8(t).len(), 1);
    lemma_prefixed_back(pre, t, 1, post);
}

proof fn lemma_text_back(pre: Seq<u8>, t: Seq<char>, post: Seq<u8>)
    requires
        fits_text(t),
    ensures
        text_at(pre + text_bytes(t) + post, pre.len() as int) == Some(
            (t, (pre.len() + text_bytes(t).len()) as int),
        ),
{
    lemma_pow256_values();
    lemma_be_bytes_len(encode_utf8(t).len(), 2);
    lemma_prefixed_back(pre, t, 2, post);
}

/// An envelope decodes to the type, room and body it was made of.
pub proof fn envelope_round_trip(msg_type: u8, room_id: Uuid, body: Seq<u8>)
    ensures
        envelope_of(envelope_bytes(msg_type, room_id, body)) == Some(
            EnvelopeModel { msg_type, room_id, body },
        ),
{
    let data = envelope_bytes(msg_type, room_id, body);
    assert(data.subrange(2, 18) =~= room_id@);
    assert(data.subrange(18, data.len() as int) =~= body);
    lemma_uuid_of_view(room_id);
}

/// A payload that is too short for an envelope, or of another version, is not
/// an envelope.
pub proof fn foreign_payload_is_dropped(data: Seq<u8>)
    requires
        data.len() < ENVELOPE_LEN || data[0] != PROTO_VERSION,
    ensures
        envelope_of(data) is None,
{
}

/// A `DEV_TEXT` body decodes to its text.
pub proof fn dev_text_round_trip(text: Seq<char>, tail: Seq<u8>)
    requires
        fits_text(text),
    ensures
        dev_text_of(text_bytes(text) + tail) == Some(text),
{
    lemma_text_back(Seq::empty(), text, tail);
    assert(Seq::<u8>::empty() + text_bytes(text) + tail =~= text_bytes(text) + tail);
}

/// An `OPEN_ROOM` body decodes to what it was made of.
pub proof fn open_room_round_trip(open: OpenRoomModel, tail: Seq<u8>)
    requires
        fits_str(open.name),
        open.members.len() < 0x100,
    ensures
        open_room_of(
            open_room_bytes(open.name, open.retention, open.join_hist, open.members) + tail,
        ) == Some(open),
{
    let s = str_bytes(open.name);
    let h = seq![open.retention, open.join_hist];
    let n = open.members.len();
    let c = be_bytes(n, 1);
    let l = many_bytes(uuid_enc(), open.members);
    let body = open_room_bytes(open.name, open.retention, open.join_hist, open.members) + tail;
    lemma_str_back(Seq::empty(), open.name, h + c + l + tail);
    assert(Seq::<u8>::empty() + s + (h + c + l + tail) =~= body);
    lemma_be_bytes_1(n);
    lemma_u8_back(s + h, n as u8, l + tail);
    assert(s + h + seq![n as u8] + (l + tail) =~= body);
    assert forall|i: int| 0 <= i < n implies reads_back(
        uuid_item(),
        uuid_enc(),
        #[trigger] open.members[i],
    ) by {
        lemma_uuid_reads_back(open.members[i]);
    }
    lemma_many_reads_back(uuid_item(), uuid_enc(), open.members, s + h + c, tail);
    assert(s + h + c + l + tail =~= body);
    let p = s.len() as int;
    assert(body[p] == h[0]);
    assert(body[p + 1] == h[1]);
}

proof fn lemma_uuid_reads_back(u: Uuid)
    ensures
        reads_back(uuid_item(), uuid_enc(), u),
{
    assert forall|pre: Seq<u8>, post: Seq<u8>| #[trigger]
        uuid_item()(pre + uuid_enc()(u) + post, pre.len() as int) == Some(
            (u, (pre.len() + uuid_enc()(u).len()) as int),
        ) by {
        lemma_uuid_back(pre, u, post);
    }
}

proof fn lemma_listed_reads_back(m: Listed)
    requires
        fits_str(m.1),
    ensures
        reads_back(listed_item(), listed_enc(), m),
{
    assert forall|pre: Seq<u8>, post: Seq<u8>| #[trigger]
        listed_item()(pre + listed_enc()(m) + post, pre.len() as int) == Some(
            (m, (pre.len() + listed_enc()(m).len()) as int),
        ) by {
        let whole = pre + listed_enc()(m) + post;
        let a = str_bytes(m.1);
        lemma_uuid_back(pre, m.0, a + post);
        assert(pre + m.0@ + (a + post) =~= whole);
        lemma_str_back(pre + m.0@, m.1, post);
        assert(pre + m.0@ + a + post =~= whole);
    }
}

proof fn lemma_invite_shape(
    name: Seq<char>,
    fixed: Seq<u8>,
    members: Seq<Listed>,
    tail: Seq<u8>,
    body: Seq<u8>,
)
    requires
        fits_str(name),
        fixed.len() == 50,
        members.len() < 0x100,
        forall|i: int| 0 <= i < members.len() ==> fits_str((#[trigger] members[i]).1),
        body == str_bytes(name) + fixed + be_bytes(members.len(), 1) + many_bytes(
            listed_enc(),
            members,
        ) + tail,
    ensures
        ({
            let p = str_bytes(name).len() as int;
            &&& str_at(body, 0) == Some((name, p))
            &&& body.subrange(p, p + 50) == fixed
            &&& body.len() >= p + 51
            &&& u8_at(body, p + 50) == Some((members.len() as u8, p + 51))
            &&& many_at(listed_item(), body, p + 51, members.len()) matches Some((ms, _)) && ms
                == members
        }),
{
    let s = str_bytes(name);
    let n = members.len();
    let c = be_bytes(n, 1);
    let l = many_bytes(listed_enc(), members);
    let p = s.len() as int;
    lemma_be_bytes_1(n);
    assert(str_at(body, 0) == Some((name, p))) by {
        lemma_str_back(Seq::empty(), name, fixed + c + l + tail);
        assert(Seq::<u8>::empty() + s + (fixed + c + l + tail) =~= body);
    }
    assert(body.subrange(p, p + 50) =~= fixed);
    assert(u8_at(body, p + 50) == Some((n as u8, p + 51))) by {
        lemma_u8_back(s + fixed, n as u8, l + tail);
        assert(s + fixed + seq![n as u8] + (l + tail) =~= body);
    }
    assert forall|i: int| 0 <= i < n implies reads_back(
        listed_item(),
        listed_enc(),
        #[trigger] members[i],
    ) by {
        lemma_listed_reads_back(members[i]);
    }
    lemma_many_reads_back(listed_item(), listed_enc(), members, s + fixed + c, tail);
}

/// An `INVITE` body decodes to what it was made of.
pub proof fn invite_round_trip(inv: InviteModel, tail: Seq<u8>)
    requires
        fits_str(inv.name),
        inv.members.len() < 0x100,
        forall|i: int| 0 <= i < inv.members.len() ==> fits_str((#[trigger] inv.members[i]).1),
    ensures
        invite_of(invite_bytes(inv) + tail) == Some(inv),
{
    let fixed = inv.host_user@ + inv.rh_device@ + inv.rh_app@ + seq![
        inv.retention,
        inv.join_hist,
    ];
    let body = invite_bytes(inv) + tail;
    let p = str_bytes(inv.name).len() as int;
    assert(body == str_bytes(inv.name) + fixed + be_bytes(inv.members.len(), 1) + many_bytes(
        listed_enc(),
        inv.members,
    ) + tail) by {
        assert(str_bytes(inv.name) + inv.host_user@ + inv.rh_device@ + inv.rh_app@ + seq![
            inv.retention,
            inv.join_hist,
        ] =~= str_bytes(inv.name) + fixed);
    }
    lemma_invite_shape(inv.name, fixed, inv.members, tail, body);
    let part = body.subrange(p, p + 50);
    assert(body.subrange(p, p + 16) == inv.host_user@) by {
        assert(body.subrange(p, p + 16) =~= part.subrange(0, 16));
        assert(fixed.subrange(0, 16) =~= inv.host_user@);
    }
    assert(body.subrange(p + 16, p + 32) == inv.rh_device@) by {
        assert(body.subrange(p + 16, p + 32) =~= part.subrange(16, 32));
        assert(fixed.subrange(16, 32) =~= inv.rh_device@);
    }
    assert(body.subrange(p + 32, p + 48) == inv.rh_app@) by {
        assert(body.subrange(p + 32, p + 48) =~= part.subrange(32, 48));
        assert(fixed.subrange(32, 48) =~= inv.rh_app@);
    }
    assert(body[p + 48] == part[48] && part[48] == inv.retention);
    assert(body[p + 49] == part[49] && part[49] == inv.join_hist);
    lemma_uuid_of_view(inv.host_user);
    lemma_uuid_of_view(inv.rh_device);
    lemma_uuid_of_view(inv.rh_app);
}

proof fn lemma_cursor_reads_back(c: Cursor)
    ensures
        reads_back(cursor_item(), cursor_enc(), c),
{
    assert forall|pre: Seq<u8>, post: Seq<u8>| #[trigger]
        cursor_item()(pre + cursor_enc()(c) + post, pre.len() as int) == Some(
            (c, (pre.len() + cursor_enc()(c).len()) as int),
        ) by {
        let whole = pre + cursor_enc()(c) + post;
        let n = be_bytes(c.1 as nat, 8);
        lemma_be_bytes_len(c.1 as nat, 8);
        lemma_uuid_back(pre, c.0, n + post);
        assert(pre + c.0@ + (n + post) =~= whole);
        lemma_u64_back(pre + c.0@, c.1, post);
        assert(pre + c.0@ + n + post =~= whole);
    }
}

/// A `HELLO` body decodes to what it was made of.
pub proof fn hello_round_trip(device: Uuid, app: Uuid, rooms: Seq<Cursor>, tail: Seq<u8>)
    requires
        rooms.len() < 0x1_0000,
    ensures
        hello_of(hello_bytes(device, app, rooms) + tail) == Some((device, app, rooms)),
{
    let n = be_bytes(rooms.len(), 2);
    let l = many_bytes(cursor_enc(), rooms);
    let body = hello_bytes(device, app, rooms) + tail;
    lemma_be_bytes_len(rooms.len(), 2);
    lemma_u16_back(device@ + app@, rooms.len() as u16, l + tail);
    assert(device@ + app@ + n + (l + tail) =~= body);
    assert forall|i: int| 0 <= i < rooms.len() implies reads_back(
        cursor_item(),
        cursor_enc(),
        #[trigger] rooms[i],
    ) by {
        lemma_cursor_reads_back(rooms[i]);
    }
    lemma_many_reads_back(cursor_item(), cursor_enc(), rooms, device@ + app@ + n, tail);
    assert(device@ + app@ + n + l + tail =~= body);
    assert(body.subrange(0, 16) =~= device@);
    assert(body.subrange(16, 32) =~= app@);
    lemma_uuid_of_view(device);
    lemma_uuid_of_view(app);
}

/// A `MEMBER_UPDATE` body decodes to what it was made of.
pub proof fn member_update_round_trip(change: u8, user: Uuid, alias: Seq<char>, tail: Seq<u8>)
    requires
        fits_str(alias),
    ensures
        member_update_of(member_update_bytes(change, user, alias) + tail) == Some(
            (change, user, alias),
        ),
{
    let body = member_update_bytes(change, user, alias) + tail;
    lemma_str_back(seq![change] + user@, alias, tail);
    assert(seq![change] + user@ + str_bytes(alias) + tail =~= body);
    assert(body.subrange(1, 17) =~= user@);
    lemma_uuid_of_view(user);
}

/// A `POST` body decodes to what it was made of.
pub proof fn post_round_trip(cid: Uuid, text: Seq<char>, tail: Seq<u8>)
    requires
        fits_text(text),
    ensures
        post_of(post_bytes(cid, text) + tail) == Some((cid, text)),
{
    let body = post_bytes(cid, text) + tail;
    lemma_text_back(cid@, text, seq![0u8] + tail);
    assert(cid@ + text_bytes(text) + (seq![0u8] + tail) =~= body);
    assert(body.subrange(0, 16) =~= cid@);
    lemma_uuid_of_view(cid);
}

/// A `MSG` body decodes to what it was made of.
pub proof fn msg_round_trip(m: DecodedMsgModel, tail: Seq<u8>)
    requires
        fits_text(m.text),
    ensures
        msg_of(msg_bytes(m) + tail) == Some(m),
{
    let a = be_bytes(m.seq as nat, 8);
    let b = be_bytes(m.ts_ms as nat, 8);
    let rest = m.client_msg_id@ + text_bytes(m.text) + (seq![0u8] + tail);
    let body = msg_bytes(m) + tail;
    lemma_be_bytes_len(m.seq as nat, 8);
    lemma_be_bytes_len(m.ts_ms as nat, 8);
    assert(body =~= a + m.sender_user@ + b + rest);
    assert(u64_at(body, 0) == Some((m.seq, 8int))) by {
        lemma_u64_back(Seq::empty(), m.seq, m.sender_user@ + b + rest);
        assert(Seq::<u8>::empty() + a + (m.sender_user@ + b + rest) =~= body);
    }
    assert(u64_at(body, 24) == Some((m.ts_ms, 32int))) by {
        lemma_u64_back(a + m.sender_user@, m.ts_ms, rest);
    }
    assert(text_at(body, 48) matches Some((t, _)) && t == m.text) by {
        lemma_text_back(
            a + m.sender_user@ + b + m.client_msg_id@,
            m.text,
            seq![0u8] + tail,
        );
        assert(a + m.sender_user@ + b + m.client_msg_id@ + text_bytes(m.text) + (seq![0u8] + tail)
            =~= body);
    }
    assert(body.subrange(8, 24) == m.sender_user@) by {
        assert(body.subrange(8, 24) =~= m.sender_user@);
    }
    assert(body.subrange(32, 48) == m.client_msg_id@) by {
        assert(rest.subrange(0, 16) =~= m.client_msg_id@);
        assert(body.subrange(32, 48) =~= rest.subrange(0, 16));
    }
    lemma_uuid_of_view(m.sender_user);
    lemma_uuid_of_view(m.client_msg_id);
}

/// An `ACK` body decodes to its sequence number.
pub proof fn ack_round_trip(seq: u64, tail: Seq<u8>)
    ensures
        ack_of(be_bytes(seq as nat, 8) + tail) == Some(seq),
{
    lemma_u64_back(Seq::empty(), seq, tail);
    assert(Seq::<u8>::empty() + be_bytes(seq as nat, 8) + tail =~= be_bytes(seq as nat, 8) + tail);
}

/// A `HISTORY_REQ` body decodes to what it was made of.
pub proof fn history_req_round_trip(since: u64, max: u16, tail: Seq<u8>)
    ensures
        history_req_of(history_req_bytes(since, max) + tail) == Some((since, max)),
{
    let a = be_bytes(since as nat, 8);
    let b = be_bytes(max as nat, 2);
    let body = history_req_bytes(since, max) + tail;
    lemma_be_bytes_len(since as nat, 8);
    lemma_u64_back(Seq::empty(), since, b + tail);
    assert(Seq::<u8>::empty() + a + (b + tail) =~= body);
    lemma_u16_back(a, max, tail);
    assert(a + b + tail =~= body);
}

proof fn lemma_entry_reads_back(e: Seq<u8>)
    requires
        e.len() < 0x1_0000,
    ensures
        reads_back(entry_item(), entry_enc(), e),
{
    assert forall|pre: Seq<u8>, post: Seq<u8>| #[trigger]
        entry_item()(pre + entry_enc()(e) + post, pre.len() as int) == Some(
            (e, (pre.len() + entry_enc()(e).len()) as int),
        ) by {
        let whole = pre + entry_enc()(e) + post;
        let n = be_bytes(e.len(), 2);
        lemma_be_bytes_len(e.len(), 2);
        lemma_u16_back(pre, e.len() as u16, e + post);
        assert(pre + n + (e + post) =~= whole);
        lemma_bytes_back(pre + n, e, post);
        assert(pre + n + e + post =~= whole);
    }
}

/// A `HISTORY_RESP` body decodes to what it was made of.
pub proof fn history_resp_round_trip(
    from: u64,
    to: u64,
    more: bool,
    entries: Seq<Seq<u8>>,
    tail: Seq<u8>,
)
    requires
        entries.len() < 0x1_0000,
        forall|i: int| 0 <= i < entries.len() ==> (#[trigger] entries[i]).len() < 0x1_0000,
    ensures
        history_resp_of(history_resp_bytes(from, to, more, entries) + tail) == Some(
            (from, to, more, entries),
        ),
{
    let a = be_bytes(from as nat, 8);
    let b = be_bytes(to as nat, 8);
    let m = seq![flag(more)];
    let n = be_bytes(entries.len(), 2);
    let l = many_bytes(entry_enc(), entries);
    let body = history_resp_bytes(from, to, more, entries) + tail;
    lemma_be_bytes_len(from as nat, 8);
    lemma_be_bytes_len(to as nat, 8);
    lemma_be_bytes_len(entries.len(), 2);
    lemma_u64_back(Seq::empty(), from, b + m + n + l + tail);
    assert(Seq::<u8>::empty() + a + (b + m + n + l + tail) =~= body);
    lemma_u64_back(a, to, m + n + l + tail);
    assert(a + b + (m + n + l + tail) =~= body);
    lemma_u8_back(a + b, flag(more), n + l + tail);
    assert(a + b + m + (n + l + tail) =~= body);
    lemma_u16_back(a + b + m, entries.len() as u16, l + tail);
    assert(a + b + m + n + (l + tail) =~= body);
    assert forall|i: int| 0 <= i < entries.len() implies reads_back(
        entry_item(),
        entry_enc(),
        #[trigger] entries[i],
    ) by {
        lemma_entry_reads_back(entries[i]);
    }
    lemma_many_reads_back(entry_item(), entry_enc(), entries, a + b + m + n, tail);
    assert(a + b + m + n + l + tail =~= body);
}

} // verus!
