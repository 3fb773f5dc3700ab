use pnet_chat::snapshot::{accept_fetch, parse_get_data, parse_register_reply, token_from_bytes};
use pnet_chat::state::{Inner, Role, UserDir};
use pnet_chat::text::hex;

fn id(b: u8) -> [u8; 16] {
    [b; 16]
}

fn put(b: &mut Vec<u8>, s: &str) {
    b.push(s.len() as u8);
    b.extend_from_slice(s.as_bytes());
}

/// Device, alias, grade, rank, apps.
type Dev<'a> = (u8, &'a str, u8, u8, &'a [(u8, &'a str)]);

fn device(b: &mut Vec<u8>, d: &Dev, own: bool) {
    b.extend_from_slice(&id(d.0));
    put(b, d.1);
    b.push(d.2);
    b.push(d.3);
    b.push(1);
    put(b, "host.example");
    b.push(d.4.len() as u8);
    for (aid, alias) in d.4 {
        b.extend_from_slice(&id(*aid));
        put(b, alias);
        if own {
            b.extend_from_slice(&[127, 0, 0, 1, 0, 80, 1]);
        }
    }
}

/// A reply for app `app` on device `local` of user 0xE0.
fn reply(app: u8, local: u8, own: &[Dev], contacts: &[(&str, u8, &[Dev])]) -> Vec<u8> {
    let mut b = vec![0u8];
    b.extend_from_slice(&id(app));
    put(&mut b, "pnet-chat");
    b.extend_from_slice(&[127, 0, 0, 1, 0x22, 0xBA]);
    b.push(1);
    b.extend_from_slice(&id(0xEE));
    b.extend_from_slice(&id(local));
    put(&mut b, "me");
    b.extend_from_slice(&id(0xE0));
    b.push(own.len() as u8);
    for d in own {
        device(&mut b, d, true);
    }
    b.push(contacts.len() as u8);
    for (alias, user, devs) in contacts {
        put(&mut b, alias);
        b.extend_from_slice(&id(*user));
        b.push(devs.len() as u8);
        for d in devs.iter() {
            device(&mut b, d, false);
        }
    }
    b
}

const CHAT: &str = "pnet-chat";

fn parsed(r: &[u8]) -> Inner {
    let mut n = Inner::new(Some(id(0xEE)));
    parse_get_data(r, &mut n);
    n
}

#[test]
fn full_reply_is_taken_over() {
    let own: &[Dev] = &[(1, "desk", 1, 2, &[(0x11, "mail"), (0x12, CHAT), (0x13, CHAT)]), (2, "phone", 0, 9, &[(0x21, CHAT)])];
    let theirs: &[Dev] = &[(3, "srv", 1, 0, &[(0x31, CHAT)]), (4, "tab", 2, 0, &[])];
    let n = parsed(&reply(0x12, 1, own, &[("bob", 0xB0, theirs)]));
    let info = n.app_info.as_ref().unwrap();
    assert_eq!((info.id_hex.as_str(), info.alias.as_str(), info.approved), (hex(&id(0x12)).as_str(), CHAT, true));
    assert_eq!(n.own_user_uuid, Some(id(0xE0)));
    assert_eq!((n.local_device, n.local_app_id), (Some(id(1)), Some(id(0x12))));
    let labels: Vec<&str> = n.destinations.iter().map(|d| d.label.as_str()).collect();
    assert_eq!(labels, vec!["desk / mail", "desk / pnet-chat", "phone / pnet-chat", "bob / srv / pnet-chat"]);
    assert_eq!(n.destinations[1].app_id, id(0x13));
    assert_eq!(n.destinations[0].grade, "SG");
    assert_eq!(n.destinations[2].grade, "DG");
    assert_eq!((n.destinations[2].sg_rank, n.destinations[2].own_user), (9, true));
    assert_eq!(n.destinations[3].device_uuid, id(3).to_vec());
    assert_eq!(n.destinations[3].user_uuid_hex, hex(&id(0xB0)));
    assert!(!n.destinations[3].own_user);
    let o = n.app_owners.get(&id(0x31)).unwrap();
    assert_eq!((o.user_uuid, o.device_uuid, o.own_user), (id(0xB0), id(3), false));
    assert_eq!(o.label, "bob / srv / pnet-chat");
    assert!(n.app_owners.get(&id(0x12)).unwrap().own_user);
    let me = n.directory.get(&id(0xE0)).unwrap();
    assert_eq!((me.alias.as_str(), me.own), ("me", true));
    assert_eq!(me.sgs, vec![(id(1), 2, Some(id(0x12)))]);
    let bob = n.directory.get(&id(0xB0)).unwrap();
    assert_eq!(bob.sgs, vec![(id(3), 0, Some(id(0x31)))]);
    assert_eq!(bob.resolve_ua(), Some((id(3), id(0x31))));
    assert_eq!(n.role, Role::UserAgent);
    let ua = n.ua.as_ref().unwrap();
    assert!(ua.is_self);
    assert_eq!((ua.device_uuid, ua.app_id, ua.sg_rank, ua.label.as_str()), (id(1), Some(id(0x12)), 2, "desk"));
    assert_eq!(ua.app_id_hex.as_deref(), Some(hex(&id(0x12)).as_str()));
    assert_eq!(ua.device_uuid_hex, hex(&id(1)));
}

#[test]
fn roles_follow_rank() {
    let own: &[Dev] = &[(1, "a", 1, 2, &[]), (2, "b", 1, 1, &[(0x22, CHAT)]), (3, "c", 0, 0, &[(0x33, CHAT)])];
    let n = parsed(&reply(0x11, 1, own, &[]));
    assert_eq!(n.role, Role::SgStandby);
    let ua = n.ua.as_ref().unwrap();
    assert_eq!((ua.device_uuid, ua.app_id, ua.is_self, ua.sg_rank), (id(2), Some(id(0x22)), false, 1));
    let n = parsed(&reply(0x33, 3, own, &[]));
    assert_eq!(n.role, Role::DataGuest);
    assert_eq!(n.ua.as_ref().unwrap().device_uuid, id(2));
    let n = parsed(&reply(0x22, 2, own, &[]));
    assert_eq!(n.role, Role::UserAgent);
    let n = parsed(&reply(0x99, 9, own, &[]));
    assert_eq!(n.role, Role::Unknown);
    assert!(n.ua.is_none());
}

#[test]
fn user_without_sg_has_no_agent() {
    let n = parsed(&reply(0x33, 3, &[(3, "c", 0, 0, &[(0x33, CHAT)])], &[]));
    assert_eq!(n.role, Role::DataGuest);
    assert!(n.ua.is_none());
}

#[test]
fn unsynced_agent_has_no_app() {
    let own: &[Dev] = &[(1, "a", 1, 0, &[(0x10, "mail")]), (3, "c", 0, 0, &[(0x33, CHAT)])];
    let n = parsed(&reply(0x33, 3, own, &[]));
    let ua = n.ua.as_ref().unwrap();
    assert_eq!((ua.app_id, ua.app_id_hex.clone()), (None, None));
}

#[test]
fn equal_ranks_break_on_identifier() {
    let a: &[Dev] = &[(5, "a", 1, 1, &[(0x55, CHAT)]), (4, "b", 1, 1, &[(0x44, CHAT)])];
    let b: &[Dev] = &[(4, "b", 1, 1, &[(0x44, CHAT)]), (5, "a", 1, 1, &[(0x55, CHAT)])];
    for order in [a, b] {
        assert_eq!(parsed(&reply(0x44, 4, order, &[])).role, Role::UserAgent);
        assert_eq!(parsed(&reply(0x55, 5, order, &[])).role, Role::SgStandby);
        let d = parsed(&reply(0x44, 4, order, &[]));
        assert_eq!(d.directory.get(&id(0xE0)).unwrap().resolve_ua(), Some((id(4), id(0x44))));
    }
}

#[test]
fn agent_needs_the_app() {
    let dir = UserDir { alias: String::new(), own: false, sgs: vec![(id(1), 0, None), (id(2), 7, Some(id(9)))] };
    assert_eq!(dir.resolve_ua(), Some((id(2), id(9))));
    let none = UserDir { alias: String::new(), own: false, sgs: vec![(id(1), 0, None)] };
    assert_eq!(none.resolve_ua(), None);
}

#[test]
fn broken_header_changes_nothing() {
    let r = reply(0x12, 1, &[(1, "d", 1, 0, &[])], &[]);
    for cut in [0, 1, 10, 17, 26, 40, 65] {
        let n = parsed(&r[..cut]);
        assert!(n.app_info.is_none(), "cut {cut}");
    }
}

#[test]
fn broken_rest_keeps_only_the_header() {
    let own: &[Dev] = &[(1, "d", 1, 0, &[(0x12, CHAT)])];
    let r = reply(0x12, 1, own, &[("bob", 0xB0, &[(3, "s", 1, 0, &[(0x31, CHAT)])])]);
    for cut in 66..r.len() {
        let n = parsed(&r[..cut]);
        assert!(n.app_info.is_some(), "cut {cut}");
        assert_eq!(n.role, Role::Unknown);
        assert!(n.destinations.is_empty() && n.own_user_uuid.is_none());
        assert!(n.directory.get(&id(0xE0)).is_none());
    }
    assert_eq!(parsed(&r).role, Role::UserAgent);
}

#[test]
fn fetch_counts_once_the_app_is_known() {
    let r = reply(0x12, 1, &[(1, "d", 1, 0, &[])], &[]);
    let mut n = Inner::new(None);
    assert!(!accept_fetch(&mut n, &[], 5));
    assert!(!accept_fetch(&mut n, &[1, 2, 3], 5));
    assert!(accept_fetch(&mut n, &[0], 6));
    assert_eq!(n.last_fetch_ok, None);
    assert!(accept_fetch(&mut n, &r, 7));
    assert_eq!(n.last_fetch_ok, Some(7));
    assert!(accept_fetch(&mut n, &[0], 8));
    assert_eq!(n.last_fetch_ok, Some(8));
    assert_eq!(n.role, Role::UserAgent);
}

#[test]
fn registration_replies() {
    let mut r = vec![0u8];
    r.extend_from_slice(&id(7));
    assert_eq!(parse_register_reply(&r), Some(id(7)));
    r.push(9);
    assert_eq!(parse_register_reply(&r), Some(id(7)));
    assert_eq!(parse_register_reply(&r[..16]), None);
    r[0] = 1;
    assert_eq!(parse_register_reply(&r), None);
    assert_eq!(parse_register_reply(&[]), None);
}

#[test]
fn saved_tokens() {
    assert_eq!(token_from_bytes(&id(4)), Some(id(4)));
    assert_eq!(token_from_bytes(&[1; 15]), None);
    assert_eq!(token_from_bytes(&[1; 17]), None);
}
