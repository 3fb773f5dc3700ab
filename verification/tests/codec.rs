use pnet_chat::bytes::{from_be, read_bytes, read_str, read_text, read_u16, read_u64, read_u8};
use pnet_chat::bytes::{push_str, push_text, to_be, u16_be, u64_be};
use pnet_chat::codec::{decode_ack, decode_dev_text, decode_envelope, decode_hello};
use pnet_chat::codec::{decode_history_req, decode_history_resp, decode_invite};
use pnet_chat::codec::{decode_member_update, decode_msg, decode_open_room, decode_post};
use pnet_chat::codec::{encode_ack, encode_dev_text, encode_envelope, encode_hello};
use pnet_chat::codec::{encode_history_req, encode_history_resp, encode_invite};
use pnet_chat::codec::{encode_member_update, encode_msg, encode_open_room, encode_post};
use pnet_chat::codec::{ENVELOPE_LEN, MAX_APP_PAYLOAD, PROTO_VERSION};
use pnet_chat::msg;
use pnet_chat::packet::{build_get_data, build_register, build_send, frame_packet};
use pnet_chat::state::{Member, Outbound};

fn id(b: u8) -> [u8; 16] {
    [b; 16]
}

fn member(b: u8, alias: &str) -> Member {
    Member { user_uuid_hex: String::new(), user_uuid: id(b), alias: alias.to_string(), present: true }
}

#[test]
fn integers_are_big_endian() {
    assert_eq!(u16_be(0x1234), [0x12, 0x34]);
    assert_eq!(u64_be(0x0102030405060708), [1, 2, 3, 4, 5, 6, 7, 8]);
    assert_eq!(to_be::<1>(300), [44]);
    assert_eq!(from_be(&[1, 0, 0]), 65536);
    assert_eq!(from_be(&[0xff; 16]), u128::MAX);
}

#[test]
fn readers_move_only_on_success() {
    let data = [0u8, 7, 1, 2];
    let mut pos = 0;
    assert_eq!(read_u16(&data, &mut pos), Some(7));
    assert_eq!(pos, 2);
    assert_eq!(read_u64(&data, &mut pos), None);
    assert_eq!(pos, 2);
    assert_eq!(read_u8(&data, &mut pos), Some(1));
    assert_eq!(read_bytes::<2>(&data, &mut pos), None);
    assert_eq!(pos, 3);
}

#[test]
fn strings_carry_their_length() {
    let mut b = Vec::new();
    push_str(&mut b, "héy");
    assert_eq!(b, vec![4, b'h', 0xc3, 0xa9, b'y']);
    let mut pos = 0;
    assert_eq!(read_str(&b, &mut pos).as_deref(), Some("héy"));
    assert_eq!(pos, 5);
    let mut t = Vec::new();
    push_text(&mut t, "ab");
    assert_eq!(t, vec![0, 2, b'a', b'b']);
    let mut pos = 0;
    assert_eq!(read_text(&t, &mut pos).as_deref(), Some("ab"));
    assert_eq!(pos, 4);
}

#[test]
fn length_byte_wraps_at_256() {
    let mut b = Vec::new();
    push_str(&mut b, &"x".repeat(257));
    assert_eq!(b[0], 1);
    assert_eq!(b.len(), 258);
}

#[test]
fn bad_strings_are_refused() {
    let mut pos = 0;
    assert_eq!(read_str(&[2, 0xc3, 0x28], &mut pos), None);
    assert_eq!(pos, 1);
    let mut pos = 0;
    assert_eq!(read_str(&[5, b'a'], &mut pos), None);
    assert_eq!(pos, 1);
    let mut pos = 0;
    assert_eq!(read_str(&[], &mut pos), None);
    assert_eq!(pos, 0);
    let mut pos = 0;
    assert_eq!(read_text(&[0, 1, 0xff], &mut pos), None);
    assert_eq!(pos, 2);
}

#[test]
fn envelope_layout() {
    let e = encode_envelope(msg::MSG, &id(9), &[1, 2, 3]);
    assert_eq!(ENVELOPE_LEN, 18);
    assert_eq!(MAX_APP_PAYLOAD, 1024);
    assert_eq!(e[0], PROTO_VERSION);
    assert_eq!(e[1], 0x0B);
    assert_eq!(&e[2..18], &id(9));
    assert_eq!(&e[18..], &[1, 2, 3]);
    let d = decode_envelope(&e).unwrap();
    assert_eq!((d.msg_type, d.room_id, d.body), (msg::MSG, id(9), &[1u8, 2, 3][..]));
}

#[test]
fn short_or_foreign_envelope_is_dropped() {
    let mut e = encode_envelope(msg::MSG, &id(9), &[]);
    assert!(decode_envelope(&e).is_some());
    assert!(decode_envelope(&e[..17]).is_none());
    e[0] = 2;
    assert!(decode_envelope(&e).is_none());
    assert!(decode_envelope(&[]).is_none());
}

#[test]
fn dev_text_body() {
    let b = encode_dev_text("hi");
    assert_eq!(b, vec![0, 2, b'h', b'i']);
    assert_eq!(decode_dev_text(&b).as_deref(), Some("hi"));
    assert_eq!(decode_dev_text(&[0, 3, b'h']), None);
    assert_eq!(decode_dev_text(&[0]), None);
    assert_eq!(decode_dev_text(&[0, 1, 0xff]), None);
}

#[test]
fn open_room_body() {
    let b = encode_open_room("r", 3, 4, &[id(1), id(2)]);
    assert_eq!(&b[..5], &[1, b'r', 3, 4, 2]);
    assert_eq!(b.len(), 5 + 32);
    let o = decode_open_room(&b).unwrap();
    assert_eq!((o.name.as_str(), o.retention, o.join_hist), ("r", 3, 4));
    assert_eq!(o.members, vec![id(1), id(2)]);
    assert!(decode_open_room(&b[..b.len() - 1]).is_none());
    assert!(decode_open_room(&b[..4]).is_none());
}

#[test]
fn invite_body() {
    let b = encode_invite("room", &id(1), &id(2), &id(3), 5, 6, &[member(7, "al"), member(8, "")]);
    assert_eq!(b.len(), 5 + 48 + 3 + 19 + 17);
    let i = decode_invite(&b).unwrap();
    assert_eq!(i.name, "room");
    assert_eq!((i.host_user, i.rh_device, i.rh_app), (id(1), id(2), id(3)));
    assert_eq!((i.retention, i.join_hist), (5, 6));
    assert_eq!(i.members, vec![(id(7), "al".to_string()), (id(8), String::new())]);
    assert!(decode_invite(&b[..b.len() - 1]).is_none());
    assert!(decode_invite(&b[..54]).is_none());
}

#[test]
fn hello_body() {
    let rooms = [(id(4), 9u64), (id(5), u64::MAX)];
    let b = encode_hello(&id(1), &id(2), &rooms);
    assert_eq!(&b[32..34], &[0, 2]);
    assert_eq!(b.len(), 34 + 48);
    let (d, a, r) = decode_hello(&b).unwrap();
    assert_eq!((d, a), (id(1), id(2)));
    assert_eq!(r, rooms.to_vec());
    assert!(decode_hello(&b[..b.len() - 1]).is_none());
    assert!(decode_hello(&b[..33]).is_none());
}

#[test]
fn member_update_body() {
    let b = encode_member_update(2, &id(3), "bob");
    assert_eq!(b.len(), 1 + 16 + 4);
    assert_eq!(decode_member_update(&b), Some((2, id(3), "bob".to_string())));
    assert_eq!(decode_member_update(&b[..20]), None);
    assert_eq!(decode_member_update(&[]), None);
}

#[test]
fn post_body() {
    let b = encode_post(&id(6), "yo");
    assert_eq!(&b[16..], &[0, 2, b'y', b'o', 0]);
    assert_eq!(decode_post(&b), Some((id(6), "yo".to_string())));
    assert_eq!(decode_post(&b[..20]), Some((id(6), "yo".to_string())));
    assert_eq!(decode_post(&b[..19]), None);
}

#[test]
fn msg_body() {
    let b = encode_msg(258, &id(1), 5, &id(2), "t");
    assert_eq!(&b[..8], &[0, 0, 0, 0, 0, 0, 1, 2]);
    assert_eq!(b.len(), 8 + 16 + 8 + 16 + 3 + 1);
    let m = decode_msg(&b).unwrap();
    assert_eq!((m.seq, m.sender_user, m.ts_ms, m.client_msg_id), (258, id(1), 5, id(2)));
    assert_eq!(m.text, "t");
    assert!(decode_msg(&b[..50]).is_none());
    assert!(decode_msg(&b[..40]).is_none());
}

#[test]
fn ack_and_history_request_bodies() {
    assert_eq!(encode_ack(1), vec![0, 0, 0, 0, 0, 0, 0, 1]);
    assert_eq!(decode_ack(&encode_ack(77)), Some(77));
    assert_eq!(decode_ack(&[0; 7]), None);
    assert_eq!(encode_history_req(1, 2), vec![0, 0, 0, 0, 0, 0, 0, 1, 0, 2]);
    assert_eq!(decode_history_req(&encode_history_req(9, 3)), Some((9, 3)));
    assert_eq!(decode_history_req(&[0; 9]), None);
}

#[test]
fn history_response_body() {
    let entries = vec![vec![1u8, 2], vec![], vec![3]];
    let b = encode_history_resp(1, 2, true, &entries);
    assert_eq!(b[16], 1);
    assert_eq!(&b[17..], &[0, 3, 0, 2, 1, 2, 0, 0, 0, 1, 3]);
    assert_eq!(decode_history_resp(&b), Some((1, 2, true, entries)));
    assert_eq!(decode_history_resp(&b[..b.len() - 1]), None);
    assert_eq!(decode_history_resp(&b[..18]), None);
    let mut odd = encode_history_resp(0, 0, false, &[]);
    assert_eq!(decode_history_resp(&odd), Some((0, 0, false, vec![])));
    odd[16] = 9;
    assert_eq!(decode_history_resp(&odd), Some((0, 0, true, vec![])));
}

#[test]
fn every_body_decodes_with_a_tail() {
    let tail = [0xAAu8; 3];
    let with = |b: Vec<u8>| [&b[..], &tail[..]].concat();
    assert_eq!(decode_post(&with(encode_post(&id(1), "a"))), Some((id(1), "a".to_string())));
    assert_eq!(decode_ack(&with(encode_ack(5))), Some(5));
    assert_eq!(decode_dev_text(&with(encode_dev_text("q"))).as_deref(), Some("q"));
    assert_eq!(decode_history_req(&with(encode_history_req(4, 1))), Some((4, 1)));
}

#[test]
fn daemon_packets() {
    let r = build_register(8890);
    let mut want = vec![0u8, 9];
    want.extend_from_slice(b"pnet-chat");
    want.extend_from_slice(&[0x22, 0xBA, 21]);
    want.extend_from_slice(b"application/pnet-chat");
    assert_eq!(r, want);
    assert_eq!(build_get_data(&id(3)), [&[2u8][..], &id(3)[..]].concat());
    let s = build_send(&id(1), &id(2), &id(3), &[7, 8]);
    assert_eq!(s, [&[3u8][..], &id(1)[..], &id(2)[..], &id(3)[..], &[7, 8][..]].concat());
}

#[test]
fn frames_travel_through_the_daemon() {
    let o = Outbound {
        dest_device: id(2), dest_app: id(3), msg_type: msg::ACK, room_id: id(4), body: encode_ack(6),
    };
    let p = frame_packet(&id(1), &o);
    assert_eq!(p[0], 3);
    let env = decode_envelope(&p[49..]).unwrap();
    assert_eq!((env.msg_type, env.room_id), (msg::ACK, id(4)));
    assert_eq!(decode_ack(env.body), Some(6));
}

#[test]
fn message_names() {
    assert_eq!(msg::name(0x01), "OPEN_ROOM");
    assert_eq!(msg::name(0x02), "ROOM_CREATED");
    assert_eq!(msg::name(0x03), "INVITE");
    assert_eq!(msg::name(0x04), "HELLO");
    assert_eq!(msg::name(0x05), "UNKNOWN");
    assert_eq!(msg::name(0x06), "ADD_MEMBER");
    assert_eq!(msg::name(0x07), "REMOVE_MEMBER");
    assert_eq!(msg::name(0x08), "LEAVE");
    assert_eq!(msg::name(0x09), "MEMBER_UPDATE");
    assert_eq!(msg::name(0x0A), "POST");
    assert_eq!(msg::name(0x0B), "MSG");
    assert_eq!(msg::name(0x0C), "ACK");
    assert_eq!(msg::name(0x0D), "HISTORY_REQ");
    assert_eq!(msg::name(0x0E), "HISTORY_RESP");
    assert_eq!(msg::name(0x0F), "HOST_MOVED");
    assert_eq!(msg::name(0x10), "CLIENT_ATTACH");
    assert_eq!(msg::name(0x11), "CLIENT_ATTACH_ACK");
    assert_eq!(msg::name(0x20), "MEDIA_JOIN");
    assert_eq!(msg::name(0x21), "MEDIA_LEAVE");
    assert_eq!(msg::name(0x22), "MEDIA_FRAME");
    assert_eq!(msg::name(0x30), "BLOB_OFFER");
    assert_eq!(msg::name(0x31), "BLOB_CHUNK");
    assert_eq!(msg::name(0x32), "BLOB_ACK");
    assert_eq!(msg::name(0x33), "BLOB_NACK");
    assert_eq!(msg::name(0xF0), "DEV_TEXT");
    for t in 0..=255u8 {
        assert_eq!(msg::known(t), msg::name(t) != "UNKNOWN");
    }
}
