use pnet_chat::api::{attach_target, can_take_post, finish, is_approved, list_contacts};
use pnet_chat::api::{maintenance_frames, note_attach_sent, prepare_send, refresh_delay};
use pnet_chat::api::{retry_frames, room_create, room_member_op, room_post, room_post_at};
use pnet_chat::api::{rooms_by_name, startup_step, TokenStep};
use pnet_chat::bytes::Uuid;
use pnet_chat::codec::{decode_dev_text, decode_envelope, decode_msg, decode_open_room, decode_post};
use pnet_chat::messages::apply_message;
use pnet_chat::msg;
use pnet_chat::rooms::create_room;
use pnet_chat::state::{AppInfo, Destination, Inner, Outbound, Role, UaRef, UserDir};
use pnet_chat::text::hex;

const ROOM: Uuid = [0x77; 16];

fn id(b: u8) -> Uuid {
    [b; 16]
}

fn host() -> Inner {
    let mut n = Inner::new(Some(id(0xEE)));
    n.own_user_uuid = Some(id(0xA0));
    n.local_device = Some(id(1));
    n.local_app_id = Some(id(0x11));
    n.role = Role::UserAgent;
    for (u, d, a, alias) in [(0xA0u8, 1, 0x11, "ann"), (0xB0, 2, 0x22, "bob"), (0xC0, 3, 0x33, "carol")] {
        let sgs = vec![(id(d), 0, Some(id(a)))];
        n.directory.insert(id(u), UserDir { alias: alias.to_string(), own: u == 0xA0, sgs });
    }
    n.directory.insert(id(0xD0), UserDir { alias: "dan".to_string(), own: false, sgs: vec![] });
    n
}

fn hosting(members: &[Uuid]) -> Inner {
    let mut h = host();
    let mut outs = Vec::new();
    create_room(&mut h, ROOM, "den", 0, 0, members, None, &mut outs);
    h
}

/// A member's copy of a room hosted on device 9 by app 0x99.
fn joined() -> Inner {
    let mut n = hosting(&[]);
    let mut r = n.rooms.remove(&ROOM).unwrap();
    r.is_rh = false;
    r.rh_device_hex = hex(&id(9));
    r.rh_device = id(9);
    r.rh_app_id = id(0x99);
    n.rooms.insert(ROOM, r);
    n
}

fn guest(app: Option<Uuid>) -> Inner {
    let mut n = host();
    n.role = Role::DataGuest;
    n.ua = Some(UaRef {
        device_uuid_hex: hex(&id(8)), device_uuid: id(8), label: "hub".to_string(), sg_rank: 0,
        app_id_hex: app.map(|a| hex(&a)), app_id: app, is_self: false,
    });
    n
}

fn err(s: &str) -> Result<String, String> {
    Err(s.to_string())
}

fn ok(s: &str) -> Result<String, String> {
    Ok(s.to_string())
}

#[test]
fn saved_token_is_tried_five_times() {
    assert_eq!(startup_step(1, true), TokenStep::Valid);
    for attempt in 1..=4 {
        assert_eq!(startup_step(attempt, false), TokenStep::Again);
    }
    assert_eq!(startup_step(5, false), TokenStep::GiveUp);
    assert_eq!(startup_step(5, true), TokenStep::Valid);
}

#[test]
fn answers_need_a_token() {
    let r = finish(&Some(id(1)), ok("done"));
    assert_eq!((r.ok, r.error.as_deref()), (true, Some("done")));
    let r = finish(&None, ok("done"));
    assert_eq!((r.ok, r.error.as_deref()), (false, Some("not registered")));
    let r = finish(&None, err("bad"));
    assert_eq!((r.ok, r.error.as_deref()), (false, Some("bad")));
    let r = finish(&Some(id(1)), err("bad"));
    assert_eq!((r.ok, r.error.as_deref()), (false, Some("bad")));
}

#[test]
fn test_frames_are_prepared() {
    let mut n = host();
    n.destinations.push(Destination {
        label: "x".to_string(), user_uuid_hex: String::new(), device_uuid: id(2).to_vec(), grade: "SG".to_string(),
        sg_rank: 0, own_user: false, app_id_hex: String::new(), app_id: id(0x22),
    });
    let p = prepare_send(&n, 0, "hey").unwrap();
    assert_eq!(&p[..1], &[3]);
    assert_eq!((&p[1..17], &p[17..33], &p[33..49]), (&id(0xEE)[..], &id(2)[..], &id(0x22)[..]));
    let env = decode_envelope(&p[49..]).unwrap();
    assert_eq!((env.msg_type, env.room_id), (msg::DEV_TEXT, [0; 16]));
    assert_eq!(decode_dev_text(env.body).as_deref(), Some("hey"));
    assert_eq!(prepare_send(&n, 1, "hey"), Err("invalid destination index".to_string()));
    assert!(prepare_send(&n, 0, &"x".repeat(1004)).is_ok());
    assert_eq!(prepare_send(&n, 0, &"x".repeat(1005)), Err("message too long (1025 > 1024 bytes)".to_string()));
    n.token = None;
    assert_eq!(prepare_send(&n, 1, "hey"), Err("not registered".to_string()));
}

#[test]
fn contacts_leave_out_our_own_user() {
    let mut got: Vec<(String, String, bool)> =
        list_contacts(&host()).into_iter().map(|c| (c.alias, c.user_uuid_hex, c.ua_resolvable)).collect();
    got.sort();
    assert_eq!(got, vec![
        ("bob".to_string(), hex(&id(0xB0)), true),
        ("carol".to_string(), hex(&id(0xC0)), true),
        ("dan".to_string(), hex(&id(0xD0)), false),
    ]);
}

#[test]
fn rooms_are_listed_by_name() {
    let mut h = host();
    let mut outs = Vec::new();
    for (i, name) in ["zoo", "Ant", "ant", "", "émeu", "bee", "ant"].iter().enumerate() {
        create_room(&mut h, id(i as u8), name, 0, 0, &[], None, &mut outs);
    }
    let names: Vec<String> =
        rooms_by_name(&h).iter().map(|r| h.rooms.get(r).unwrap().name.clone()).collect();
    assert_eq!(names, vec!["", "Ant", "ant", "ant", "bee", "zoo", "émeu"]);
    assert!(rooms_by_name(&host()).is_empty());
}

#[test]
fn approval_and_refresh() {
    let mut n = host();
    assert!(!is_approved(&n));
    assert_eq!(refresh_delay(&n), 5);
    n.app_info = Some(AppInfo { id_hex: String::new(), alias: String::new(), approved: false });
    assert!(!is_approved(&n));
    assert_eq!(refresh_delay(&n), 30);
    n.app_info = Some(AppInfo { id_hex: String::new(), alias: String::new(), approved: true });
    assert!(is_approved(&n));
}

#[test]
fn local_rooms_are_hosted_or_delegated() {
    let hexes = vec![hex(&id(0xB0)), "junk".to_string(), hex(&id(0xC0))];
    let mut outs: Vec<Outbound> = Vec::new();
    let mut h = host();
    assert_eq!(room_create(&mut h, "den", &hexes, ROOM, &mut outs), ok("created room 77777777…"));
    assert_eq!(outs.len(), 2);
    assert_eq!(h.rooms.get(&ROOM).unwrap().members.len(), 2);
    h.own_user_uuid = None;
    assert_eq!(room_create(&mut h, "den", &hexes, ROOM, &mut outs), err("local identity not resolved yet"));
    let mut outs: Vec<Outbound> = Vec::new();
    let mut g = guest(Some(id(0x88)));
    assert_eq!(room_create(&mut g, "den", &hexes, ROOM, &mut outs), ok("OPEN_ROOM sent to our UA"));
    assert_eq!((outs[0].dest_device, outs[0].dest_app, outs[0].msg_type), (id(8), id(0x88), msg::OPEN_ROOM));
    let open = decode_open_room(&outs[0].body).unwrap();
    assert_eq!((open.name.as_str(), open.members), ("den", vec![id(0xB0), id(0xC0)]));
    assert!(g.rooms.get(&ROOM).is_none());
    let mut g = guest(None);
    assert_eq!(room_create(&mut g, "den", &hexes, ROOM, &mut outs), err("no resolvable UA to host the room"));
    g.ua = None;
    assert_eq!(room_create(&mut g, "den", &hexes, ROOM, &mut outs), err("no resolvable UA to host the room"));
    for role in [Role::SgStandby, Role::Unknown] {
        g.role = role;
        assert_eq!(room_create(&mut g, "den", &hexes, ROOM, &mut outs), err("this node cannot create a room (role not resolved)"));
    }
    assert_eq!(outs.len(), 1);
}

#[test]
fn hosts_change_membership_themselves() {
    let mut h = hosting(&[id(0xB0)]);
    let mut outs = Vec::new();
    let (room, carol) = (hex(&ROOM), hex(&id(0xC0)));
    assert_eq!(room_member_op(&mut h, "zz", None, msg::LEAVE, &mut outs), err("bad room id"));
    assert_eq!(room_member_op(&mut h, &room, Some("zz"), msg::ADD_MEMBER, &mut outs), err("bad user id"));
    assert_eq!(room_member_op(&mut h, &hex(&id(1)), Some(&carol), msg::ADD_MEMBER, &mut outs), err("unknown room"));
    assert_eq!(room_member_op(&mut h, &room, None, msg::LEAVE, &mut outs), err("host cannot LEAVE its own room"));
    assert_eq!(room_member_op(&mut h, &room, None, msg::POST, &mut outs), err("unsupported op"));
    assert!(outs.is_empty());
    assert_eq!(room_member_op(&mut h, &room, Some(&carol), msg::ADD_MEMBER, &mut outs), ok("added carol"));
    assert_eq!(outs.len(), 2);
    assert_eq!(room_member_op(&mut h, &room, Some(&carol), msg::REMOVE_MEMBER, &mut outs), ok("removed carol"));
    assert_eq!(h.rooms.get(&ROOM).unwrap().members.len(), 1);
}

#[test]
fn members_ask_the_host_to_change_membership() {
    let mut n = joined();
    let mut outs = Vec::new();
    let (room, carol) = (hex(&ROOM), hex(&id(0xC0)));
    for t in [msg::ADD_MEMBER, msg::REMOVE_MEMBER] {
        assert_eq!(room_member_op(&mut n, &room, Some(&carol), t, &mut outs), ok("forwarded to RH"));
        let o = outs.last().unwrap();
        assert_eq!((o.dest_device, o.dest_app, o.msg_type, o.room_id), (id(9), id(0x99), t, ROOM));
        assert_eq!(o.body, id(0xC0).to_vec());
    }
    assert_eq!(room_member_op(&mut n, &room, None, msg::POST, &mut outs), err("unsupported op"));
    assert!(n.rooms.get(&ROOM).is_some());
    assert_eq!(room_member_op(&mut n, &room, None, msg::LEAVE, &mut outs), ok("forwarded to RH"));
    assert!(outs[2].body.is_empty());
    assert!(n.rooms.get(&ROOM).is_none());
    assert_eq!(outs.len(), 3);
}

#[test]
fn posts_are_ordered_or_forwarded() {
    let mut h = hosting(&[id(0xB0)]);
    let mut outs = Vec::new();
    let room = hex(&ROOM);
    assert_eq!(room_post_at(&mut h, "zz", "hi", id(5), 9, &mut outs), err("bad room id"));
    assert_eq!(room_post_at(&mut h, &room, " \u{2003}\n", id(5), 9, &mut outs), err("empty message"));
    assert_eq!(room_post_at(&mut h, &hex(&id(1)), "hi", id(5), 9, &mut outs), err("unknown room"));
    assert_eq!(room_post_at(&mut h, &room, " hi ", id(5), 9, &mut outs), ok("posted as seq 1"));
    let m = decode_msg(&outs[0].body).unwrap();
    assert_eq!((m.seq, m.sender_user, m.ts_ms, m.client_msg_id, m.text.as_str()), (1, id(0xA0), 9, id(5), " hi "));
    h.own_user_uuid = None;
    assert_eq!(room_post(&mut h, &room, "again", id(5), &mut outs), ok("posted as seq 2"));
    assert_eq!(decode_msg(&outs[1].body).unwrap().sender_user, [0; 16]);
    assert!(decode_msg(&outs[1].body).unwrap().ts_ms > 1_600_000_000_000);
    let mut n = joined();
    let mut outs = Vec::new();
    assert_eq!(room_post_at(&mut n, &room, "hi", id(5), 9, &mut outs), ok("POST sent to RH"));
    assert_eq!((outs[0].dest_device, outs[0].dest_app, outs[0].msg_type), (id(9), id(0x99), msg::POST));
    assert_eq!(decode_post(&outs[0].body), Some((id(5), "hi".to_string())));
    assert!(n.rooms.get(&ROOM).unwrap().messages.is_empty());
    assert!(can_take_post(&n, &room, "hi") && can_take_post(&n, "zz", "hi"));
    let mut r = n.rooms.remove(&ROOM).unwrap();
    r.next_seq = u64::MAX;
    n.rooms.insert(ROOM, r);
    assert!(can_take_post(&n, &room, "hi"));
    let mut r = n.rooms.remove(&ROOM).unwrap();
    r.is_rh = true;
    n.rooms.insert(ROOM, r);
    assert!(!can_take_post(&n, &room, "hi"));
    assert!(can_take_post(&n, &room, " "));
}

#[test]
fn clients_announce_themselves() {
    let mut g = guest(Some(id(0x88)));
    let (token, o) = attach_target(&g).unwrap();
    assert_eq!(token, id(0xEE));
    assert_eq!((o.dest_device, o.dest_app, o.msg_type, o.room_id), (id(8), id(0x88), msg::CLIENT_ATTACH, [0; 16]));
    assert!(o.body.is_empty());
    g.attach.last_ack = Some(2);
    note_attach_sent(&mut g, 7);
    assert_eq!((g.attach.last_sent, g.attach.last_ack), (Some(7), Some(2)));
    assert!(attach_target(&guest(None)).is_none());
    assert!(attach_target(&host()).is_none());
    g.token = None;
    assert!(attach_target(&g).is_none());
}

#[test]
fn absent_members_are_invited_again() {
    let mut h = hosting(&[id(0xB0), id(0xC0), id(0xD0)]);
    let mut outs = Vec::new();
    maintenance_frames(&h, &mut outs);
    let devices: Vec<Uuid> = outs.iter().map(|o| o.dest_device).collect();
    assert_eq!(devices, vec![id(2), id(3)]);
    assert!(outs.iter().all(|o| o.msg_type == msg::INVITE && o.room_id == ROOM));
    let mut r = h.rooms.remove(&ROOM).unwrap();
    for m in r.members.iter_mut() {
        m.present = true;
    }
    h.rooms.insert(ROOM, r);
    let mut outs = Vec::new();
    maintenance_frames(&h, &mut outs);
    maintenance_frames(&joined(), &mut outs);
    assert!(outs.is_empty());
}

#[test]
fn unacknowledged_messages_are_sent_again() {
    let mut h = hosting(&[id(0xB0), id(0xC0), id(0xD0)]);
    let mut outs = Vec::new();
    for t in ["one", "two"] {
        room_post_at(&mut h, &hex(&ROOM), t, id(5), 9, &mut outs).unwrap();
    }
    let mut r = h.rooms.remove(&ROOM).unwrap();
    r.member_acks.insert(id(0xB0), 1);
    r.member_acks.insert(id(0xC0), 2);
    h.rooms.insert(ROOM, r);
    let mut outs = Vec::new();
    retry_frames(&h, &mut outs);
    assert_eq!(outs.len(), 1);
    assert_eq!((outs[0].dest_device, outs[0].dest_app, outs[0].msg_type), (id(2), id(0x22), msg::MSG));
    let m = decode_msg(&outs[0].body).unwrap();
    assert_eq!((m.seq, m.text.as_str(), m.sender_user, m.client_msg_id), (2, "two", id(0xA0), [0; 16]));
    let mut r = h.rooms.remove(&ROOM).unwrap();
    r.member_acks.insert(id(0xB0), 2);
    h.rooms.insert(ROOM, r);
    let mut outs = Vec::new();
    retry_frames(&h, &mut outs);
    assert!(outs.is_empty());
}

#[test]
fn applying_is_idempotent() {
    let mut n = joined();
    assert!(apply_message(&mut n, &ROOM, 5, id(0xB0), 1, "a".to_string()));
    assert!(!apply_message(&mut n, &ROOM, 5, id(0xC0), 2, "b".to_string()));
    assert!(apply_message(&mut n, &ROOM, 3, id(0xC0), 2, "b".to_string()));
    assert!(!apply_message(&mut n, &id(1), 3, id(0xC0), 2, "b".to_string()));
    let r = n.rooms.get(&ROOM).unwrap();
    assert_eq!(r.messages.iter().map(|m| m.seq).collect::<Vec<u64>>(), vec![3, 5]);
    assert_eq!((r.last_seq, r.messages[1].text.as_str()), (5, "a"));
    assert_eq!(r.messages[0].sender_user_hex, hex(&id(0xC0)));
}
