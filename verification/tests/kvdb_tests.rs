use merlion_kernel::kvdb::{disk_filename, system_db, users_db, KvDb};

#[test]
fn set_get_delete() {
    let mut db = KvDb::new("test");
    assert_eq!(db.name(), "test");
    assert_eq!(db.get("a"), None);
    db.set("b", b"2");
    db.set("a", b"1");
    db.set("c", b"3");
    assert_eq!(db.get("a"), Some(&b"1"[..]));
    assert_eq!(db.get("b"), Some(&b"2"[..]));
    db.set("b", b"two");
    assert_eq!(db.get("b"), Some(&b"two"[..]));
    assert_eq!(db.keys(), vec!["a", "b", "c"]);
    assert!(db.delete("b"));
    assert!(!db.delete("b"));
    assert_eq!(db.get("b"), None);
    assert_eq!(db.keys(), vec!["a", "c"]);
}

#[test]
fn keys_sorted_by_bytes() {
    let mut db = KvDb::new("t");
    for k in ["zeta", "alpha", "Beta", "é", "a", "ab"] {
        db.set(k, k.as_bytes());
    }
    assert_eq!(db.keys(), vec!["Beta", "a", "ab", "alpha", "zeta", "é"]);
}

#[test]
fn scan_by_prefix() {
    let mut db = KvDb::new("t");
    db.set("user.alice", b"1");
    db.set("user.bob", b"2");
    db.set("users", b"3");
    db.set("system.host", b"4");
    let s = db.scan("user.");
    assert_eq!(s, vec![("user.alice", &b"1"[..]), ("user.bob", &b"2"[..])]);
    assert_eq!(db.scan("user").len(), 3);
    assert!(db.scan("zzz").is_empty());
    assert_eq!(db.scan("").len(), 4);
}

#[test]
fn stats_count_bytes() {
    let mut db = KvDb::new("t");
    db.set("ab", b"123");
    db.set("c", b"");
    assert_eq!(db.stats(), (2, 6));
}

#[test]
fn serialize_layout() {
    let mut db = KvDb::new("t");
    db.set("k", b"vv");
    let img = db.serialize();
    assert_eq!(img, vec![b'K', b'V', b'D', b'B', 1, 1, 0, 0, 0, 1, 0, 2, 0, 0, 0, b'k', b'v', b'v']);
}

#[test]
fn image_round_trip() {
    let mut db = KvDb::new("t");
    db.set("hostname", b"merlion");
    db.set("timezone", b"Asia/Singapore");
    db.set("flag", &[0, 255, 7]);
    let img = db.serialize();
    let back = KvDb::deserialize(&img).unwrap();
    assert_eq!(back.name(), "");
    assert_eq!(back.keys(), db.keys());
    assert_eq!(back.get("flag"), Some(&[0u8, 255, 7][..]));
    let named = KvDb::load_from_disk("sys", Some(&img)).unwrap();
    assert_eq!(named.name(), "sys");
    assert!(KvDb::load_from_disk("sys", None).is_none());
}

#[test]
fn deserialize_rejects_bad_images() {
    assert!(KvDb::deserialize(b"KVDB").is_none());
    assert!(KvDb::deserialize(b"XXXX\x01\0\0\0\0").is_none());
    assert!(KvDb::deserialize(b"KVDB\x02\0\0\0\0").is_none());
    assert!(KvDb::deserialize(b"KVDB\x01\x01\0\0\0").is_none());
    assert!(KvDb::deserialize(b"KVDB\x01\x01\0\0\0\x05\0\0\0\0\0ab").is_none());
    assert!(KvDb::deserialize(b"KVDB\x01\x01\0\0\0\x01\0\0\0\0\0\xff").is_none());
    let empty = KvDb::deserialize(b"KVDB\x01\0\0\0\0").unwrap();
    assert!(empty.keys().is_empty());
}

#[test]
fn deserialize_rejects_unsorted_or_repeated_keys() {
    assert!(KvDb::deserialize(b"KVDB\x01\x02\0\0\0\x01\0\0\0\0\0b\x01\0\0\0\0\0a").is_none());
    assert!(KvDb::deserialize(b"KVDB\x01\x02\0\0\0\x01\0\0\0\0\0a\x01\0\0\0\0\0a").is_none());
    let ok = KvDb::deserialize(b"KVDB\x01\x02\0\0\0\x01\0\x01\0\0\0ax\x01\0\0\0\0\0b").unwrap();
    assert_eq!(ok.keys(), vec!["a", "b"]);
    assert_eq!(ok.get("a"), Some(&b"x"[..]));
    assert!(KvDb::load_from_disk("t", Some(&b"KVDB\x01\x02\0\0\0\x01\0\0\0\0\0b\x01\0\0\0\0\0a"[..])).is_none());
    let fallback = system_db(Some(&b"KVDB\x01\x02\0\0\0\x01\0\0\0\0\0b\x01\0\0\0\0\0a"[..]));
    assert!(fallback.keys().is_empty());
}

#[test]
fn builtin_databases() {
    assert_eq!(disk_filename("system"), "kvdb_system");
    let fresh = system_db(None);
    assert_eq!(fresh.name(), "system");
    assert!(fresh.keys().is_empty());
    let mut u = KvDb::new("x");
    u.set("alice", b"/home/alice");
    let img = u.serialize();
    let users = users_db(Some(&img));
    assert_eq!(users.name(), "users");
    assert_eq!(users.get("alice"), Some(&b"/home/alice"[..]));
    assert!(users_db(Some(b"garbage")).keys().is_empty());
}
