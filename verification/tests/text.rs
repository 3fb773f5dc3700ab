use pnet_chat::clock::{gen_uuid, millis_of, mint_uuid, now_ms, now_secs, reading_of, secs_of};
use pnet_chat::clock::MAX_NANOS;
use pnet_chat::text::{blank, bool_text, decimal, hex, hex_to_uuid, join2, join3, join5, join7};
use pnet_chat::text::{precedes, short_hex, unknown_user_text, uuid_from_hex};
use pnet_chat::uuid::{is_uuid, uuid_eq, uuid_key, UuidMap};

fn id(b: u8) -> [u8; 16] {
    [b; 16]
}

#[test]
fn hex_is_lowercase() {
    assert_eq!(hex(&[0x00, 0xAB, 0x0F, 0xff]), "00ab0fff");
    assert_eq!(hex(&[]), "");
    assert_eq!(short_hex(&id(0xC3)), "c3c3c3c3");
    assert_eq!(unknown_user_text(&id(1)), "user#01010101");
}

#[test]
fn hex_parses_back() {
    for b in 0..=255u8 {
        let mut u = id(b);
        u[3] = b.wrapping_add(7);
        assert_eq!(hex_to_uuid(&hex(&u)), Some(u));
        assert_eq!(uuid_from_hex(&hex(&u)), u);
    }
}

#[test]
fn hex_parsing_takes_lowercase_digits_only() {
    let base = "00112233445566778899aabbccddeeff";
    assert!(hex_to_uuid(base).is_some());
    assert_eq!(hex_to_uuid(&base.to_uppercase()), None);
    assert_eq!(hex_to_uuid(&format!("{}F", &base[..31])), None);
    assert_eq!(hex_to_uuid(&"+0".repeat(16)), None);
    assert_eq!(hex_to_uuid(&base[..31]), None);
    assert_eq!(hex_to_uuid(&format!("{base}0")), None);
    assert_eq!(hex_to_uuid(&format!("0g{}", &base[2..])), None);
    assert_eq!(hex_to_uuid(&format!("-1{}", &base[2..])), None);
    assert_eq!(hex_to_uuid(&format!("++{}", &base[2..])), None);
    assert_eq!(hex_to_uuid(&format!("1+{}", &base[2..])), None);
    assert_eq!(hex_to_uuid(&format!("+f{}", &base[2..])), None);
    assert_eq!(hex_to_uuid(&"é".repeat(16)), None);
    assert_eq!(uuid_from_hex("nonsense"), id(0));
}

#[test]
fn decimals() {
    assert_eq!(decimal(0), "0");
    assert_eq!(decimal(9), "9");
    assert_eq!(decimal(10), "10");
    assert_eq!(decimal(1024), "1024");
    assert_eq!(decimal(u64::MAX), "18446744073709551615");
    assert_eq!(bool_text(true), "true");
    assert_eq!(bool_text(false), "false");
}

#[test]
fn joins() {
    assert_eq!(join2("a", "b"), "ab");
    assert_eq!(join3("a", "→", "c"), "a→c");
    assert_eq!(join5("a", "b", "c", "d", "e"), "abcde");
    assert_eq!(join7("1", "2", "3", "4", "5", "6", "7"), "1234567");
}

#[test]
fn blankness_is_white_space() {
    assert!(blank(""));
    assert!(blank(" \t\n\u{3000}"));
    assert!(!blank(" x "));
    let mut n: u32 = 0;
    while n <= 0x10FFFF {
        if let Some(c) = char::from_u32(n) {
            assert_eq!(blank(&c.to_string()), c.is_whitespace(), "U+{:04X}", n);
        }
        n += 1;
    }
}

#[test]
fn strings_order_by_bytes() {
    let words = ["", "a", "ab", "b", "Z", "é", "e", "zz", "\u{10FFFF}", "\u{FFFF}"];
    for a in words {
        for b in words {
            assert_eq!(precedes(a, b), a <= b, "{a:?} {b:?}");
        }
    }
}

#[test]
fn identifiers_order_like_bytes() {
    let mut a = id(5);
    let mut b = id(5);
    a[9] = 1;
    b[9] = 2;
    assert!(uuid_key(&a) < uuid_key(&b));
    a[0] = 6;
    assert!(uuid_key(&a) > uuid_key(&b));
    assert!(uuid_eq(&a, &a) && !uuid_eq(&a, &b));
    assert!(is_uuid(&Some(a), &a) && !is_uuid(&None, &a) && !is_uuid(&Some(b), &a));
}

#[test]
fn identifier_maps() {
    let mut m: UuidMap<u64> = UuidMap::new();
    assert!(m.get(&id(1)).is_none());
    m.insert(id(1), 10);
    m.insert(id(2), 20);
    m.insert(id(1), 11);
    assert_eq!(m.get(&id(1)), Some(&11));
    let mut ks = m.keys();
    ks.sort();
    assert_eq!(ks, vec![id(1), id(2)]);
    assert_eq!(m.remove(&id(1)), Some(11));
    assert_eq!(m.remove(&id(1)), None);
    assert_eq!(m.keys(), vec![id(2)]);
}

#[test]
fn clock_readings() {
    assert_eq!(reading_of(Some(7)), 7);
    assert_eq!(reading_of(None), 0);
    assert_eq!(secs_of(1_999_999_999), 1);
    assert_eq!(millis_of(1_999_999_999), 1999);
    assert_eq!(secs_of(MAX_NANOS), u64::MAX);
    assert_eq!(MAX_NANOS, std::time::Duration::MAX.as_nanos());
    assert_eq!(millis_of(MAX_NANOS), std::time::Duration::MAX.as_millis() as u64);
    let epoch = std::time::UNIX_EPOCH;
    let before = std::time::SystemTime::now().duration_since(epoch).unwrap();
    let s = now_secs();
    let m = now_ms();
    let after = std::time::SystemTime::now().duration_since(epoch).unwrap();
    assert!(before.as_secs() <= s && s <= after.as_secs());
    assert!(before.as_millis() as u64 <= m && m <= after.as_millis() as u64);
}

#[test]
fn minted_identifiers() {
    assert_eq!(mint_uuid(Some(id(7)), 1, 2), id(7));
    let u = mint_uuid(None, 0x0102, 0x0304);
    assert_eq!(u, [0, 0, 0, 0, 0, 0, 1, 2, 0, 0, 0, 0, 0, 0, 3, 4]);
    assert_ne!(mint_uuid(None, 5, 1), mint_uuid(None, 6, 2));
    let mut counter = 41;
    assert_eq!(gen_uuid(Some(id(9)), &mut counter), id(9));
    assert_eq!(counter, 41);
    let a = gen_uuid(None, &mut counter);
    let b = gen_uuid(None, &mut counter);
    assert_eq!(counter, 43);
    assert_eq!(&a[8..], &41u64.to_be_bytes());
    assert_eq!(&b[8..], &42u64.to_be_bytes());
    let mut last = u64::MAX;
    gen_uuid(None, &mut last);
    assert_eq!(last, 0);
}
