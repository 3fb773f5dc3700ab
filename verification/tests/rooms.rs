use pnet_chat::api::retry_frames;
use pnet_chat::bytes::Uuid;
use pnet_chat::codec::{decode_envelope, decode_hello, decode_history_req, decode_invite};
use pnet_chat::codec::{decode_member_update, decode_msg, encode_ack, encode_envelope};
use pnet_chat::codec::{encode_hello, encode_history_req, encode_history_resp, encode_member_update};
use pnet_chat::codec::{decode_ack, decode_history_resp, encode_msg, encode_open_room, encode_post};
use pnet_chat::codec::encode_dev_text;
use pnet_chat::frame::{can_take_push, handle_frame, handle_frame_at, handle_push, handle_push_at};
use pnet_chat::messages::{contiguous_seq, has_seq_left, resolve_sender};
use pnet_chat::msg;
use pnet_chat::rooms::{create_room, local_add_member, local_remove_member};
use pnet_chat::state::{AppOwner, Inner, Outbound, Role, RoomState, UserDir};
use pnet_chat::text::hex;

// Users: host 0xA0 on device 1 with app 0x11; bob 0xB0 on device 2 with app
// 0x22; carol 0xC0 on device 3 with app 0x33.

const ROOM: Uuid = [0x77; 16];

fn id(b: u8) -> Uuid {
    [b; 16]
}

fn owner(user: u8, device: u8, label: &str, own: bool) -> AppOwner {
    AppOwner { user_uuid: id(user), device_uuid: id(device), label: label.to_string(), own_user: own }
}

fn node(user: u8, device: u8, app: u8) -> Inner {
    let mut n = Inner::new(Some(id(0xEE)));
    n.own_user_uuid = Some(id(user));
    n.local_device = Some(id(device));
    n.local_app_id = Some(id(app));
    n.role = Role::UserAgent;
    for (u, d, a, alias) in [(0xA0, 1, 0x11, "ann"), (0xB0, 2, 0x22, "bob"), (0xC0, 3, 0x33, "carol")] {
        let own = u == user;
        n.directory.insert(id(u), UserDir { alias: alias.to_string(), own, sgs: vec![(id(d), 0, Some(id(a)))] });
        n.app_owners.insert(id(a), owner(u, d, alias, own));
    }
    n
}

fn host() -> Inner {
    node(0xA0, 1, 0x11)
}

fn bob() -> Inner {
    node(0xB0, 2, 0x22)
}

fn opened(members: &[Uuid]) -> (Inner, Vec<Outbound>) {
    let mut h = host();
    let mut outs = Vec::new();
    assert_eq!(create_room(&mut h, ROOM, "den", 1, 2, members, None, &mut outs), Some(ROOM));
    (h, outs)
}

/// Handle a frame that the app `sender` sent, at second 100 and millisecond 5000.
fn step(n: &mut Inner, sender: u8, t: u8, room: Uuid, body: &[u8]) -> (String, Vec<Outbound>) {
    let payload = encode_envelope(t, &room, body);
    let env = decode_envelope(&payload).unwrap();
    let o = n.app_owners.get(&id(sender)).cloned();
    let mut outs = Vec::new();
    let d = handle_frame_at(n, &env, id(sender), o.as_ref(), 100, 5000, id(0x5A), &mut outs);
    (d, outs)
}

fn relay(n: &mut Inner, sender: u8, o: &Outbound) -> (String, Vec<Outbound>) {
    step(n, sender, o.msg_type, o.room_id, &o.body)
}

fn room(n: &Inner) -> &RoomState {
    n.rooms.get(&ROOM).unwrap()
}

fn seqs(n: &Inner) -> Vec<u64> {
    room(n).messages.iter().map(|m| m.seq).collect()
}

/// A host with one room and bob in it, and bob's copy of it.
fn pair() -> (Inner, Inner) {
    let (h, outs) = opened(&[id(0xB0)]);
    let mut b = bob();
    relay(&mut b, 0x11, &outs[0]);
    (h, b)
}

#[test]
fn unresolved_senders_are_dropped() {
    let cases = [
        (msg::CLIENT_ATTACH, "attach from unresolved sender — dropped (waiting on sync)"),
        (msg::OPEN_ROOM, "OPEN_ROOM from unresolved sender — dropped"),
        (msg::INVITE, "INVITE from unresolved sender — dropped"),
        (msg::HELLO, "HELLO from unresolved sender — dropped"),
        (msg::ADD_MEMBER, "ADD_MEMBER from unresolved sender — dropped"),
        (msg::REMOVE_MEMBER, "REMOVE_MEMBER from unresolved sender — dropped"),
        (msg::LEAVE, "LEAVE from unresolved sender — dropped"),
        (msg::MEMBER_UPDATE, "MEMBER_UPDATE from unresolved sender — dropped"),
        (msg::POST, "POST from unresolved sender — dropped"),
        (msg::MSG, "MSG from unresolved sender — dropped"),
        (msg::ACK, "ACK from unresolved sender — dropped"),
        (msg::HISTORY_REQ, "HISTORY_REQ from unresolved sender — dropped"),
        (msg::HISTORY_RESP, "HISTORY_RESP from unresolved sender — dropped"),
    ];
    let (mut h, _) = opened(&[id(0xB0)]);
    for (t, want) in cases {
        let (d, outs) = step(&mut h, 0x99, t, ROOM, &[]);
        assert_eq!(d, want);
        assert!(outs.is_empty());
    }
    assert_eq!(room(&h).members.len(), 1);
}

#[test]
fn unhandled_types_are_described() {
    let mut h = host();
    let (d, outs) = step(&mut h, 0x22, 0x42, ROOM, &[1, 2, 3]);
    assert_eq!(d, "room 77777777…, 3 body byte(s) — not handled until a later phase");
    assert!(outs.is_empty());
    assert_eq!(step(&mut h, 0x22, msg::DEV_TEXT, ROOM, &encode_dev_text("ping")).0, "ping");
    assert_eq!(step(&mut h, 0x99, msg::DEV_TEXT, ROOM, &[0]).0, "<malformed DEV_TEXT>");
}

#[test]
fn clients_attach_to_their_agent() {
    let mut h = host();
    h.app_owners.insert(id(0x44), owner(0xA0, 4, "phone", true));
    let (d, outs) = step(&mut h, 0x44, msg::CLIENT_ATTACH, [0; 16], &[]);
    assert_eq!(d, "attach from phone — acked");
    assert_eq!(outs.len(), 1);
    assert_eq!((outs[0].dest_device, outs[0].dest_app, outs[0].msg_type), (id(4), id(0x44), msg::CLIENT_ATTACH_ACK));
    assert_eq!(outs[0].room_id, [0; 16]);
    assert!(outs[0].body.is_empty());
    step(&mut h, 0x44, msg::CLIENT_ATTACH, [0; 16], &[]);
    assert_eq!(h.attached_clients.len(), 1);
    assert_eq!(h.attached_clients[0].app_id_hex, hex(&id(0x44)));
    assert_eq!(h.attached_clients[0].device_uuid_hex, hex(&id(4)));
    assert_eq!((h.attached_clients[0].label.as_str(), h.attached_clients[0].last_seen), ("phone", 100));
    assert_eq!(step(&mut h, 0x22, msg::CLIENT_ATTACH, [0; 16], &[]).0, "attach from bob ignored — not our user");
    h.role = Role::SgStandby;
    assert_eq!(step(&mut h, 0x44, msg::CLIENT_ATTACH, [0; 16], &[]).0, "attach from phone ignored — we are not a UserAgent");
    assert_eq!(h.attached_clients.len(), 1);
}

#[test]
fn attachment_is_acknowledged_to_clients_only() {
    let mut h = host();
    assert_eq!(step(&mut h, 0x22, msg::CLIENT_ATTACH_ACK, [0; 16], &[]).0, "attach-ack received but we are not a DG");
    assert_eq!(h.attach.last_ack, None);
    h.role = Role::DataGuest;
    h.attach.last_sent = Some(3);
    assert_eq!(step(&mut h, 0x99, msg::CLIENT_ATTACH_ACK, [0; 16], &[]).0, "UA acknowledged our attach");
    assert_eq!((h.attach.last_sent, h.attach.last_ack), (Some(3), Some(100)));
}

#[test]
fn created_room_invites_everyone_reachable() {
    let (h, outs) = opened(&[id(0xB0), id(0xA0), id(0xD0), id(0xC0)]);
    let r = room(&h);
    let aliases: Vec<&str> = r.members.iter().map(|m| m.alias.as_str()).collect();
    assert_eq!(aliases, vec!["bob", "carol"]);
    assert!(r.is_rh && r.members.iter().all(|m| !m.present));
    assert_eq!((r.next_seq, r.last_seq, r.retention_mode, r.join_history_mode), (1, 0, 1, 2));
    assert_eq!((r.host_user, r.rh_device, r.rh_app_id), (id(0xA0), id(1), id(0x11)));
    assert_eq!(r.room_id_hex, hex(&ROOM));
    assert_eq!(outs.len(), 2);
    assert_eq!((outs[0].dest_device, outs[1].dest_device), (id(2), id(3)));
    let inv = decode_invite(&outs[0].body).unwrap();
    assert_eq!((inv.name.as_str(), inv.host_user, inv.rh_device, inv.rh_app), ("den", id(0xA0), id(1), id(0x11)));
    assert_eq!(inv.members.len(), 2);
    let mut anon = Inner::new(None);
    let mut none = Vec::new();
    assert_eq!(create_room(&mut anon, ROOM, "x", 0, 0, &[], None, &mut none), None);
    assert!(none.is_empty() && anon.rooms.get(&ROOM).is_none());
}

#[test]
fn rooms_are_opened_for_our_clients() {
    let mut h = host();
    h.app_owners.insert(id(0x44), owner(0xA0, 4, "phone", true));
    let body = encode_open_room("den", 0, 0, &[id(0xB0)]);
    assert_eq!(step(&mut h, 0x44, msg::OPEN_ROOM, [0; 16], &[]).0, "OPEN_ROOM malformed");
    assert_eq!(step(&mut h, 0x22, msg::OPEN_ROOM, [0; 16], &body).0, "OPEN_ROOM from bob rejected — not our user");
    let (d, outs) = step(&mut h, 0x44, msg::OPEN_ROOM, [0; 16], &body);
    assert_eq!(d, "created room 'den' (5a5a5a5a…) with 1 member(s)");
    assert_eq!(outs.len(), 2);
    assert_eq!(outs[0].msg_type, msg::INVITE);
    assert_eq!((outs[1].msg_type, outs[1].dest_device, outs[1].dest_app), (msg::ROOM_CREATED, id(4), id(0x44)));
    assert_eq!(outs[1].room_id, id(0x5A));
    assert!(h.rooms.get(&id(0x5A)).is_some());
    h.local_device = None;
    assert_eq!(step(&mut h, 0x44, msg::OPEN_ROOM, [0; 16], &body).0, "OPEN_ROOM failed — local identity not resolved yet");
    h.role = Role::DataGuest;
    assert_eq!(step(&mut h, 0x44, msg::OPEN_ROOM, [0; 16], &body).0, "OPEN_ROOM ignored — we are not a UserAgent (cannot be an RH)");
}

#[test]
fn invited_node_joins_and_says_hello() {
    let (_, outs) = opened(&[id(0xB0), id(0xC0)]);
    let mut b = bob();
    assert_eq!(step(&mut b, 0x11, msg::INVITE, ROOM, &[]).0, "INVITE malformed");
    let (d, answer) = relay(&mut b, 0x11, &outs[0]);
    assert_eq!(d, "invited to 'den' by ann — joined, HELLO sent");
    let r = room(&b);
    assert!(!r.is_rh);
    assert_eq!((r.hello_sent, r.members.len(), r.name.as_str()), (Some(100), 2, "den"));
    assert_eq!((r.retention_mode, r.join_history_mode), (1, 2));
    assert_eq!(answer.len(), 1);
    assert_eq!((answer[0].dest_device, answer[0].dest_app, answer[0].msg_type), (id(1), id(0x11), msg::HELLO));
    assert_eq!(decode_hello(&answer[0].body), Some((id(2), id(0x22), vec![(ROOM, 0)])));
    b.local_app_id = None;
    assert_eq!(relay(&mut b, 0x11, &outs[0]).0, "INVITE received but local identity not resolved yet");
}

#[test]
fn second_invitation_keeps_the_history() {
    let (mut h, mut b) = pair();
    let (_, fan) = step(&mut h, 0x11, msg::POST, ROOM, &encode_post(&id(9), "one"));
    relay(&mut b, 0x11, &fan[0]);
    let (_, outs) = opened(&[id(0xB0)]);
    let (d, answer) = relay(&mut b, 0x11, &outs[0]);
    assert_eq!(d, "re-INVITE to 'den' — re-HELLO sent (cursor 1)");
    assert_eq!(seqs(&b), vec![1]);
    assert_eq!(decode_hello(&answer[0].body).unwrap().2, vec![(ROOM, 1)]);
}

#[test]
fn second_invitation_reports_the_cursor_below_a_gap() {
    let (_, outs) = opened(&[id(0xB0)]);
    let (_, mut b) = pair();
    for s in [1, 3] {
        step(&mut b, 0x11, msg::MSG, ROOM, &encode_msg(s, &id(0xA0), 1, &id(8), "t"));
    }
    let (d, answer) = relay(&mut b, 0x11, &outs[0]);
    assert_eq!(d, "re-INVITE to 'den' — re-HELLO sent (cursor 1)");
    assert_eq!(decode_hello(&answer[0].body).unwrap().2, vec![(ROOM, 1)]);
    assert_eq!((seqs(&b), room(&b).last_seq), (vec![1, 3], 3));
}

#[test]
fn a_gap_is_healed_after_a_second_invitation() {
    let (mut h, mut b) = pair();
    let mut fan = Vec::new();
    for t in ["one", "two", "three"] {
        let (_, outs) = step(&mut h, 0x11, msg::POST, ROOM, &encode_post(&id(9), t));
        fan.extend(outs);
    }
    relay(&mut b, 0x11, &fan[0]);
    relay(&mut b, 0x11, &fan[2]);
    let (_, invites) = opened(&[id(0xB0)]);
    let (_, hello) = relay(&mut b, 0x11, &invites[0]);
    let (_, replay) = relay(&mut h, 0x22, &hello[0]);
    let mut acks = Vec::new();
    for o in &replay {
        acks.extend(relay(&mut b, 0x11, o).1);
    }
    assert_eq!(seqs(&b), vec![1, 2, 3]);
    assert_eq!(decode_ack(&acks.last().unwrap().body), Some(3));
    relay(&mut h, 0x22, acks.last().unwrap());
    assert_eq!(room(&h).member_acks.get(&id(0xB0)), Some(&3));
}

#[test]
fn sending_again_converges() {
    let (mut h, mut b) = pair();
    let mut fan = Vec::new();
    for t in ["one", "two", "three", "four"] {
        let (_, outs) = step(&mut h, 0x11, msg::POST, ROOM, &encode_post(&id(9), t));
        fan.extend(outs);
    }
    let (_, acks) = relay(&mut b, 0x11, &fan[0]);
    relay(&mut h, 0x22, &acks[0]);
    relay(&mut b, 0x11, &fan[2]);
    let mut again = Vec::new();
    retry_frames(&h, &mut again);
    assert_eq!(again.len(), 3);
    let mut acks = Vec::new();
    for o in &again {
        acks = relay(&mut b, 0x11, o).1;
    }
    assert_eq!(seqs(&b), vec![1, 2, 3, 4]);
    assert_eq!(decode_ack(&acks.last().unwrap().body), Some(4));
    relay(&mut h, 0x22, acks.last().unwrap());
    let mut again = Vec::new();
    retry_frames(&h, &mut again);
    assert!(again.is_empty());
}

#[test]
fn our_own_leaving_drops_the_room() {
    let (_, mut b) = pair();
    let left = encode_member_update(2, &id(0xB0), "");
    assert_eq!(step(&mut b, 0x33, msg::MEMBER_UPDATE, ROOM, &left).0, "MEMBER_UPDATE not from our RH — dropped");
    assert!(b.rooms.get(&ROOM).is_some());
    assert_eq!(step(&mut b, 0x11, msg::MEMBER_UPDATE, ROOM, &left).0, "we were removed from 'den' — left the room");
    assert!(b.rooms.get(&ROOM).is_none());
}

#[test]
fn hello_marks_present_and_replays() {
    let (mut h, mut b) = pair();
    for t in ["one", "two", "three"] {
        step(&mut h, 0x11, msg::POST, ROOM, &encode_post(&id(9), t));
    }
    assert_eq!(step(&mut h, 0x22, msg::HELLO, [0; 16], &[]).0, "HELLO malformed");
    let hello = encode_hello(&id(2), &id(0x22), &[(ROOM, 1), (id(0x66), 0)]);
    let (d, outs) = step(&mut h, 0x22, msg::HELLO, [0; 16], &hello);
    assert_eq!(d, "HELLO from bob — present + replayed in 1 room(s)");
    assert!(room(&h).members[0].present);
    assert_eq!(room(&h).member_acks.get(&id(0xB0)), Some(&1));
    let got: Vec<u64> = outs.iter().map(|o| decode_msg(&o.body).unwrap().seq).collect();
    assert_eq!(got, vec![2, 3]);
    let m = decode_msg(&outs[0].body).unwrap();
    assert_eq!((m.sender_user, m.ts_ms, m.client_msg_id, m.text.as_str()), (id(0xA0), 5000, [0; 16], "two"));
    assert!(outs.iter().all(|o| o.dest_device == id(2) && o.dest_app == id(0x22) && o.msg_type == msg::MSG));
    for o in &outs {
        relay(&mut b, 0x11, o);
    }
    assert_eq!(seqs(&b), vec![2, 3]);
    assert_eq!(step(&mut h, 0x33, msg::HELLO, [0; 16], &hello).0, "HELLO from carol — no matching room we host");
    let low = encode_hello(&id(2), &id(0x22), &[(ROOM, 0)]);
    step(&mut h, 0x22, msg::HELLO, [0; 16], &low);
    assert_eq!(room(&h).member_acks.get(&id(0xB0)), Some(&1));
}

#[test]
fn members_are_added_by_the_host() {
    let (mut h, mut b) = pair();
    let target = id(0xC0);
    assert_eq!(step(&mut h, 0x11, msg::ADD_MEMBER, ROOM, &target[..15]).0, "ADD_MEMBER malformed");
    assert_eq!(step(&mut h, 0x11, msg::ADD_MEMBER, id(1), &target).0, "ADD_MEMBER for unknown room");
    assert_eq!(step(&mut b, 0x22, msg::ADD_MEMBER, ROOM, &target).0, "ADD_MEMBER ignored — we are not this room's RH");
    assert_eq!(step(&mut h, 0x22, msg::ADD_MEMBER, ROOM, &target).0, "ADD_MEMBER rejected — sender is not the host");
    assert_eq!(step(&mut h, 0x11, msg::ADD_MEMBER, ROOM, &id(0xD0)).0, "ADD_MEMBER target not a known contact");
    assert_eq!(step(&mut h, 0x11, msg::ADD_MEMBER, ROOM, &id(0xA0)).0, "ADD_MEMBER target is our own user");
    assert_eq!(step(&mut h, 0x11, msg::ADD_MEMBER, ROOM, &id(0xB0)).0, "ADD_MEMBER: already a member");
    let (d, outs) = step(&mut h, 0x11, msg::ADD_MEMBER, ROOM, &target);
    assert_eq!(d, "added member carol to 'den'");
    assert_eq!(outs.len(), 2);
    assert_eq!((outs[0].msg_type, outs[0].dest_device), (msg::MEMBER_UPDATE, id(2)));
    assert_eq!(decode_member_update(&outs[0].body), Some((0, target, "carol".to_string())));
    assert_eq!((outs[1].msg_type, outs[1].dest_device), (msg::INVITE, id(3)));
    assert_eq!(decode_invite(&outs[1].body).unwrap().members.len(), 2);
    assert_eq!(relay(&mut b, 0x11, &outs[0]).0, "member added to 'den': carol");
    assert_eq!(room(&b).members[1].user_uuid, target);
    relay(&mut b, 0x11, &outs[0]);
    assert_eq!(room(&b).members.len(), 2);
}

#[test]
fn members_are_removed_by_the_host() {
    let (mut h, outs) = opened(&[id(0xB0), id(0xC0)]);
    let mut b = bob();
    relay(&mut b, 0x11, &outs[0]);
    assert_eq!(step(&mut h, 0x11, msg::REMOVE_MEMBER, ROOM, &[]).0, "REMOVE_MEMBER malformed");
    assert_eq!(step(&mut h, 0x11, msg::REMOVE_MEMBER, id(1), &id(0xB0)).0, "REMOVE_MEMBER for unknown room");
    assert_eq!(step(&mut b, 0x22, msg::REMOVE_MEMBER, ROOM, &id(0xC0)).0, "REMOVE_MEMBER ignored — we are not this room's RH");
    assert_eq!(step(&mut h, 0x22, msg::REMOVE_MEMBER, ROOM, &id(0xC0)).0, "REMOVE_MEMBER rejected — sender is not the host");
    assert_eq!(step(&mut h, 0x11, msg::REMOVE_MEMBER, ROOM, &id(0xD0)).0, "REMOVE_MEMBER: not a member");
    let (d, outs) = step(&mut h, 0x11, msg::REMOVE_MEMBER, ROOM, &id(0xC0));
    assert_eq!(d, "removed member carol from 'den'");
    assert_eq!(outs.len(), 2);
    assert_eq!(relay(&mut b, 0x11, &outs[0]).0, "carol removed from 'den'");
    assert_eq!(room(&b).members.len(), 1);
    let (_, outs) = step(&mut h, 0x11, msg::REMOVE_MEMBER, ROOM, &id(0xB0));
    assert_eq!(decode_member_update(&outs[0].body), Some((1, id(0xB0), "bob".to_string())));
    assert_eq!(relay(&mut b, 0x11, &outs[0]).0, "we were removed from 'den' — left the room");
    assert!(b.rooms.get(&ROOM).is_none());
    assert!(room(&h).members.is_empty());
}

#[test]
fn members_leave() {
    let (mut h, outs) = opened(&[id(0xB0), id(0xC0)]);
    let mut b = bob();
    relay(&mut b, 0x11, &outs[0]);
    assert_eq!(step(&mut h, 0x33, msg::LEAVE, id(1), &[]).0, "LEAVE for unknown room");
    assert_eq!(step(&mut b, 0x33, msg::LEAVE, ROOM, &[]).0, "LEAVE ignored — we are not this room's RH");
    assert_eq!(step(&mut h, 0x11, msg::LEAVE, ROOM, &[]).0, "LEAVE from a non-member — ignored");
    let (d, outs) = step(&mut h, 0x33, msg::LEAVE, ROOM, &[]);
    assert_eq!(d, "carol left 'den'");
    assert_eq!(outs.len(), 1);
    assert_eq!(outs[0].dest_device, id(2));
    assert_eq!(relay(&mut b, 0x11, &outs[0]).0, "carol left 'den'");
    assert_eq!((room(&h).members.len(), room(&b).members.len()), (1, 1));
}

#[test]
fn notices_come_from_the_host_alone() {
    let (_, mut b) = pair();
    assert_eq!(step(&mut b, 0x11, msg::MEMBER_UPDATE, ROOM, &[]).0, "MEMBER_UPDATE malformed");
    let add = encode_member_update(0, &id(0xC0), "carol");
    assert_eq!(step(&mut b, 0x11, msg::MEMBER_UPDATE, id(1), &add).0, "MEMBER_UPDATE for unknown room");
    assert_eq!(step(&mut b, 0x33, msg::MEMBER_UPDATE, ROOM, &add).0, "MEMBER_UPDATE not from our RH — dropped");
    assert_eq!(room(&b).members.len(), 1);
    let odd = encode_member_update(9, &id(0xC0), "carol");
    assert_eq!(step(&mut b, 0x11, msg::MEMBER_UPDATE, ROOM, &odd).0, "MEMBER_UPDATE unknown change kind");
}

#[test]
fn removing_undoes_adding() {
    let (mut h, _) = opened(&[id(0xB0)]);
    let mut outs = Vec::new();
    assert_eq!(local_add_member(&mut h, &ROOM, &id(0xC0), &mut outs), Ok("added carol".to_string()));
    assert_eq!(outs.len(), 2);
    assert_eq!(local_add_member(&mut h, &ROOM, &id(0xC0), &mut outs), Err("already a member".to_string()));
    assert_eq!(local_add_member(&mut h, &id(1), &id(0xC0), &mut outs), Err("unknown room".to_string()));
    assert_eq!(local_add_member(&mut h, &ROOM, &id(0xD0), &mut outs), Err("target not a known contact".to_string()));
    assert_eq!(local_add_member(&mut h, &ROOM, &id(0xA0), &mut outs), Err("target is our own user".to_string()));
    assert_eq!(local_remove_member(&mut h, &ROOM, &id(0xC0), &mut outs), Ok("removed carol".to_string()));
    assert_eq!(local_remove_member(&mut h, &ROOM, &id(0xC0), &mut outs), Err("not a member".to_string()));
    assert_eq!(local_remove_member(&mut h, &id(1), &id(0xC0), &mut outs), Err("unknown room".to_string()));
    assert_eq!(room(&h).members.len(), 1);
    assert_eq!(room(&h).members[0].user_uuid, id(0xB0));
    assert_eq!(outs.len(), 4);
}

#[test]
fn posts_are_numbered_and_fanned_out() {
    let (mut h, mut b) = pair();
    let body = encode_post(&id(9), "hello");
    assert_eq!(step(&mut h, 0x22, msg::POST, ROOM, &[]).0, "POST malformed");
    assert_eq!(step(&mut h, 0x22, msg::POST, id(1), &body).0, "POST for unknown room");
    assert_eq!(step(&mut b, 0x22, msg::POST, ROOM, &body).0, "POST ignored — we are not this room's RH");
    assert_eq!(step(&mut h, 0x33, msg::POST, ROOM, &body).0, "POST from non-member carol dropped");
    let (d, outs) = step(&mut h, 0x22, msg::POST, ROOM, &body);
    assert_eq!(d, "POST from bob ordered as seq 1");
    assert_eq!(step(&mut h, 0x11, msg::POST, ROOM, &body).0, "POST from ann ordered as seq 2");
    assert_eq!((room(&h).next_seq, room(&h).last_seq), (3, 2));
    assert_eq!(outs.len(), 1);
    let m = decode_msg(&outs[0].body).unwrap();
    assert_eq!((m.seq, m.sender_user, m.ts_ms, m.client_msg_id, m.text.as_str()), (1, id(0xB0), 5000, id(9), "hello"));
    let kept = &room(&h).messages[0];
    assert_eq!((kept.sender_alias.as_str(), kept.sender_is_self, kept.ts_ms), ("bob", false, 5000));
    assert!(room(&h).messages[1].sender_is_self);
    let (d, acks) = relay(&mut b, 0x11, &outs[0]);
    assert_eq!(d, "MSG seq 1 applied");
    assert_eq!(acks.len(), 1);
    assert_eq!((acks[0].msg_type, acks[0].dest_device, acks[0].dest_app), (msg::ACK, id(1), id(0x11)));
    assert_eq!(decode_ack(&acks[0].body), Some(1));
    assert!(room(&b).messages[0].sender_is_self);
    assert_eq!(relay(&mut h, 0x22, &acks[0]).0, "ACK from bob → seq 1");
    assert_eq!(room(&h).member_acks.get(&id(0xB0)), Some(&1));
}

#[test]
fn duplicates_are_harmless() {
    let (mut h, mut b) = pair();
    let (_, outs) = step(&mut h, 0x11, msg::POST, ROOM, &encode_post(&id(9), "hello"));
    relay(&mut b, 0x11, &outs[0]);
    let (d, acks) = relay(&mut b, 0x11, &outs[0]);
    assert_eq!(d, "MSG seq 1 duplicate — ignored");
    assert_eq!(decode_ack(&acks[0].body), Some(1));
    let other = encode_msg(1, &id(0xC0), 9, &id(8), "other");
    step(&mut b, 0x11, msg::MSG, ROOM, &other);
    assert_eq!(room(&b).messages.len(), 1);
    assert_eq!(room(&b).messages[0].text, "hello");
}

#[test]
fn gaps_are_asked_for_and_kept_in_order() {
    let (_, mut b) = pair();
    let m = |s: u64| encode_msg(s, &id(0xA0), s, &id(8), "t");
    assert_eq!(step(&mut b, 0x11, msg::MSG, ROOM, &[]).0, "MSG malformed");
    assert_eq!(step(&mut b, 0x33, msg::MSG, ROOM, &m(1)).0, "MSG not from our RH — dropped");
    assert_eq!(step(&mut b, 0x11, msg::MSG, id(1), &m(1)).0, "MSG not from our RH — dropped");
    let (_, outs) = step(&mut b, 0x11, msg::MSG, ROOM, &m(4));
    assert_eq!(outs.len(), 2);
    assert_eq!(outs[0].msg_type, msg::HISTORY_REQ);
    assert_eq!(decode_history_req(&outs[0].body), Some((0, 0)));
    assert_eq!(decode_ack(&outs[1].body), Some(0));
    step(&mut b, 0x11, msg::MSG, ROOM, &m(2));
    step(&mut b, 0x11, msg::MSG, ROOM, &m(1));
    assert_eq!(seqs(&b), vec![1, 2, 4]);
    assert_eq!(contiguous_seq(room(&b)), 2);
    let (_, outs) = step(&mut b, 0x11, msg::MSG, ROOM, &m(3));
    assert_eq!(outs.len(), 1);
    assert_eq!(decode_ack(&outs[0].body), Some(4));
    assert_eq!((room(&b).last_seq, contiguous_seq(room(&b))), (4, 4));
    let (_, outs) = step(&mut b, 0x11, msg::MSG, ROOM, &m(6));
    assert_eq!(decode_history_req(&outs[0].body), Some((4, 0)));
    let (_, outs) = step(&mut b, 0x11, msg::MSG, ROOM, &m(0));
    assert_eq!(outs.len(), 1);
    assert_eq!(seqs(&b), vec![0, 1, 2, 3, 4, 6]);
}

#[test]
fn acknowledgements_grow_and_come_from_members() {
    let (mut h, mut b) = pair();
    assert_eq!(step(&mut h, 0x22, msg::ACK, ROOM, &[]).0, "ACK malformed");
    assert_eq!(step(&mut h, 0x22, msg::ACK, id(1), &encode_ack(1)).0, "ACK for unknown room");
    assert_eq!(step(&mut b, 0x22, msg::ACK, ROOM, &encode_ack(1)).0, "ACK ignored — we are not this room's RH");
    assert_eq!(step(&mut h, 0x33, msg::ACK, ROOM, &encode_ack(1)).0, "ACK from non-member — dropped");
    step(&mut h, 0x22, msg::ACK, ROOM, &encode_ack(5));
    assert_eq!(step(&mut h, 0x22, msg::ACK, ROOM, &encode_ack(3)).0, "ACK from bob → seq 3");
    assert_eq!(room(&h).member_acks.get(&id(0xB0)), Some(&5));
}

#[test]
fn history_requests_are_judged() {
    let (mut h, mut b) = pair();
    let q = encode_history_req(0, 0);
    assert_eq!(step(&mut h, 0x22, msg::HISTORY_REQ, ROOM, &[]).0, "HISTORY_REQ malformed");
    assert_eq!(step(&mut h, 0x22, msg::HISTORY_REQ, id(1), &q).0, "HISTORY_REQ for unknown room");
    assert_eq!(step(&mut b, 0x22, msg::HISTORY_REQ, ROOM, &q).0, "HISTORY_REQ ignored — we are not this room's RH");
    assert_eq!(step(&mut h, 0x33, msg::HISTORY_REQ, ROOM, &q).0, "HISTORY_REQ from non-member — dropped");
    let (d, outs) = step(&mut h, 0x22, msg::HISTORY_REQ, ROOM, &q);
    assert_eq!(d, "HISTORY_REQ since 0 → replied 0 entries (more=false)");
    assert_eq!(decode_history_resp(&outs[0].body), Some((0, 0, false, vec![])));
}

#[test]
fn history_is_caught_up_in_chunks() {
    let (mut h, mut b) = pair();
    let text = "x".repeat(200);
    for _ in 0..10 {
        step(&mut h, 0x11, msg::POST, ROOM, &encode_post(&id(9), &text));
    }
    let mut ask = encode_history_req(0, 0);
    let mut rounds = 0;
    loop {
        let (_, outs) = step(&mut h, 0x22, msg::HISTORY_REQ, ROOM, &ask);
        assert_eq!(outs.len(), 1);
        assert!(outs[0].body.len() + 18 <= 1024);
        let (from, to, more, entries) = decode_history_resp(&outs[0].body).unwrap();
        assert!(to > from);
        assert_eq!(entries.len(), (to - from) as usize);
        let (d, next) = relay(&mut b, 0x11, &outs[0]);
        assert_eq!(d, format!("HISTORY_RESP applied {} (more={})", entries.len(), more));
        rounds += 1;
        if !more {
            assert_eq!(next.len(), 1);
            assert_eq!(decode_ack(&next[0].body), Some(10));
            break;
        }
        assert_eq!(decode_history_req(&next[0].body), Some((to, 0)));
        ask = next[0].body.clone();
    }
    assert_eq!(rounds, 4);
    assert_eq!(seqs(&b), (1..=10).collect::<Vec<u64>>());
    assert_eq!(room(&b).messages[3].text, text);
}

#[test]
fn chunk_boundary_is_exact() {
    // Each entry costs 2 + 51 + text bytes beside 37 for the rest: two texts
    // that add up to 1024 - 37 - 106 = 881 bytes just fit.
    for (len, want) in [(441, 2), (442, 1)] {
        let (mut h, _) = pair();
        step(&mut h, 0x11, msg::POST, ROOM, &encode_post(&id(9), &"a".repeat(440)));
        step(&mut h, 0x11, msg::POST, ROOM, &encode_post(&id(9), &"b".repeat(len)));
        let (d, _) = step(&mut h, 0x22, msg::HISTORY_REQ, ROOM, &encode_history_req(0, 0));
        assert_eq!(d, format!("HISTORY_REQ since 0 → replied {} entries (more={})", want, want == 1));
    }
}

#[test]
fn oversized_message_goes_alone() {
    let (mut h, _) = pair();
    step(&mut h, 0x11, msg::POST, ROOM, &encode_post(&id(9), &"a".repeat(5000)));
    step(&mut h, 0x11, msg::POST, ROOM, &encode_post(&id(9), "b"));
    let (d, outs) = step(&mut h, 0x22, msg::HISTORY_REQ, ROOM, &encode_history_req(0, 0));
    assert_eq!(d, "HISTORY_REQ since 0 → replied 1 entries (more=true)");
    assert!(outs[0].body.len() > 5000);
}

#[test]
fn history_count_can_be_capped() {
    let (mut h, _) = pair();
    for _ in 0..4 {
        step(&mut h, 0x11, msg::POST, ROOM, &encode_post(&id(9), "t"));
    }
    let (d, outs) = step(&mut h, 0x22, msg::HISTORY_REQ, ROOM, &encode_history_req(1, 2));
    assert_eq!(d, "HISTORY_REQ since 1 → replied 2 entries (more=true)");
    let (from, to, _, _) = decode_history_resp(&outs[0].body).unwrap();
    assert_eq!((from, to), (1, 3));
    h.directory.remove(&id(0xB0));
    let (d, outs) = step(&mut h, 0x22, msg::HISTORY_REQ, ROOM, &encode_history_req(3, 9));
    assert_eq!(d, "HISTORY_REQ since 3 → replied 1 entries (more=false)");
    assert!(outs.is_empty());
}

#[test]
fn history_answers_are_judged() {
    let (_, mut b) = pair();
    let e = encode_history_resp(0, 1, false, &[encode_msg(1, &id(0xA0), 1, &id(0), "t"), vec![1, 2]]);
    assert_eq!(step(&mut b, 0x33, msg::HISTORY_RESP, ROOM, &e).0, "HISTORY_RESP not from our RH — dropped");
    assert_eq!(step(&mut b, 0x11, msg::HISTORY_RESP, ROOM, &e[..5]).0, "HISTORY_RESP malformed");
    assert_eq!(step(&mut b, 0x11, msg::HISTORY_RESP, ROOM, &e).0, "HISTORY_RESP applied 1 (more=false)");
    assert_eq!(step(&mut b, 0x11, msg::HISTORY_RESP, ROOM, &e).0, "HISTORY_RESP applied 0 (more=false)");
}

#[test]
fn host_does_not_acknowledge_itself() {
    let (mut h, _) = pair();
    let (d, outs) = step(&mut h, 0x11, msg::MSG, ROOM, &encode_msg(7, &id(0xA0), 1, &id(8), "t"));
    assert_eq!(d, "MSG seq 7 applied");
    assert!(outs.is_empty());
}

#[test]
fn senders_are_named() {
    let (h, _) = pair();
    assert_eq!(resolve_sender(&h, &ROOM, &id(0xB0)), ("bob".to_string(), false));
    assert_eq!(resolve_sender(&h, &ROOM, &id(0xA0)), ("ann".to_string(), true));
    assert_eq!(resolve_sender(&h, &ROOM, &id(0xD0)), ("user#d0d0d0d0".to_string(), false));
    let mut alone = Inner::new(None);
    alone.own_user_uuid = Some(id(0xA0));
    assert_eq!(resolve_sender(&alone, &ROOM, &id(0xA0)), ("me".to_string(), true));
}

#[test]
fn pushes_are_logged_once() {
    let (mut h, _) = pair();
    let mut outs = Vec::new();
    assert!(!handle_push_at(&mut h, &[4; 16], 1, 2, 3, id(9), &mut outs));
    assert!(!handle_push_at(&mut h, &[3; 40], 1, 2, 3, id(9), &mut outs));
    assert!(h.log.is_empty());
    let push = |sender: u8, payload: &[u8]| [&[4u8][..], &id(sender)[..], payload].concat();
    let post = encode_envelope(msg::POST, &ROOM, &encode_post(&id(8), "hi"));
    assert!(handle_push_at(&mut h, &push(0x22, &post), 1, 2, 3, id(9), &mut outs));
    assert_eq!(outs.len(), 1);
    assert_eq!(room(&h).messages[0].ts_ms, 2);
    let l = &h.log[0];
    assert_eq!((l.sender.as_str(), l.kind.as_str(), l.detail.as_str(), l.timestamp), ("bob", "POST", "POST from bob ordered as seq 1", 3));
    handle_push_at(&mut h, &push(0x99, &post), 1, 2, 4, id(9), &mut outs);
    assert_eq!(h.log[1].sender, format!("app#{} (unresolved)", hex(&id(0x99))));
    assert_eq!(h.log[1].detail, "POST from unresolved sender — dropped");
    handle_push_at(&mut h, &push(0x22, &encode_envelope(0x42, &ROOM, &[])), 1, 2, 4, id(9), &mut outs);
    assert_eq!(h.log[2].kind, "UNKNOWN(0x42)");
    handle_push_at(&mut h, &push(0x22, &encode_envelope(0x05, &ROOM, &[])), 1, 2, 4, id(9), &mut outs);
    assert_eq!(h.log[3].kind, "UNKNOWN(0x05)");
    handle_push_at(&mut h, &push(0x22, &[2; 30]), 1, 2, 4, id(9), &mut outs);
    assert_eq!((h.log[4].kind.as_str(), h.log[4].detail.as_str()), ("BAD_FRAME", "undecodable payload (30 byte(s))"));
    handle_push_at(&mut h, &push(0x22, &[]), 1, 2, 4, id(9), &mut outs);
    assert_eq!(h.log[5].detail, "undecodable payload (0 byte(s))");
    assert_eq!((h.log.len(), outs.len()), (6, 1));
}

#[test]
fn the_clock_stamps_what_comes_in() {
    let (mut h, _) = pair();
    let now = std::time::SystemTime::now().duration_since(std::time::UNIX_EPOCH).unwrap();
    let payload = encode_envelope(msg::POST, &ROOM, &encode_post(&id(8), "hi"));
    let data = [&[4u8][..], &id(0x22)[..], &payload[..]].concat();
    let mut outs = Vec::new();
    assert!(handle_push(&mut h, &data, id(9), &mut outs));
    assert!(h.log[0].timestamp >= now.as_secs());
    assert!(room(&h).messages[0].ts_ms >= now.as_millis() as u64);
    let env = decode_envelope(&payload).unwrap();
    let o = owner(0xB0, 2, "bob", false);
    assert_eq!(handle_frame(&mut h, &env, id(0x22), Some(&o), id(9), &mut outs), "POST from bob ordered as seq 2");
}

#[test]
fn exhausted_numbers_are_noticed() {
    let (mut h, _) = pair();
    let push = |sender: u8, t: u8, body: &[u8]| {
        [&[4u8][..], &id(sender)[..], &encode_envelope(t, &ROOM, body)[..]].concat()
    };
    let post = encode_post(&id(8), "hi");
    assert!(has_seq_left(&h, &ROOM) && has_seq_left(&h, &id(1)));
    assert!(can_take_push(&h, &push(0x22, msg::POST, &post)) && can_take_push(&h, &[]));
    let mut r = h.rooms.remove(&ROOM).unwrap();
    r.next_seq = u64::MAX;
    h.rooms.insert(ROOM, r);
    assert!(!has_seq_left(&h, &ROOM));
    assert!(!can_take_push(&h, &push(0x22, msg::POST, &post)));
    assert!(can_take_push(&h, &push(0x33, msg::POST, &post)));
    assert!(can_take_push(&h, &push(0x99, msg::POST, &post)));
    assert!(can_take_push(&h, &push(0x22, msg::POST, &[])));
    assert!(can_take_push(&h, &push(0x22, msg::ACK, &post)));
}
