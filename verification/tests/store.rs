use std::time::Duration;

use my_redis::command::Command;
use my_redis::store::{Db, Entry};

const SECOND: u64 = 1_000_000_000;

fn put(db: &mut Db, key: &str, value: &str, expires_at: Option<u128>) {
    db.insert(
        key.to_string(),
        Entry {
            value: value.to_string(),
            expires_at,
        },
    );
}

fn value_of(db: &Db, key: &str) -> Option<String> {
    db.get(&key.to_string()).map(|e| e.value.clone())
}

#[test]
fn save_and_load_basic() {
    let mut db = Db::new();
    put(&mut db, "name", "ray", None);
    put(&mut db, "age", "25", None);

    let saved = db.snapshot(0);
    let loaded = Db::restore(saved, 0);
    assert_eq!(value_of(&loaded, "name").unwrap(), "ray");
    assert_eq!(value_of(&loaded, "age").unwrap(), "25");
}

#[test]
fn save_skips_expired_entries() {
    let now = 20 * SECOND as u128;
    let mut db = Db::new();
    put(&mut db, "alive", "yes", None);
    put(&mut db, "dead", "no", Some(now - 10 * SECOND as u128));

    let saved = db.snapshot(now as u64);
    let loaded = Db::restore(saved, 0);
    assert_eq!(value_of(&loaded, "alive").unwrap(), "yes");
    assert!(loaded.get(&"dead".to_string()).is_none());
}

#[test]
fn save_preserves_ttl() {
    let mut db = Db::new();
    put(&mut db, "key", "val", Some(60 * SECOND as u128 + 7));

    let saved = db.snapshot(7);
    assert_eq!(saved, vec![("key".to_string(), "val".to_string(), Some(60 * SECOND as u128))]);
    // loaded later, the entry keeps the time it had left
    let loaded = Db::restore(saved, 100);
    let entry = loaded.get(&"key".to_string()).unwrap();
    assert_eq!(entry.value, "val");
    assert_eq!(entry.expires_at, Some(100 + 60 * SECOND as u128));
    assert!(!entry.is_expired(100));
}

#[test]
fn save_empty_store() {
    let db = Db::new();
    let saved = db.snapshot(0);
    let loaded = Db::restore(saved, 0);
    assert_eq!(loaded.len(), 0);
}

// --- further cases ---

#[test]
fn entry_expiry_boundary() {
    let entry = Entry {
        value: "v".to_string(),
        expires_at: Some(10),
    };
    assert!(!entry.is_expired(10));
    assert!(entry.is_expired(11));
    let forever = Entry {
        value: "v".to_string(),
        expires_at: None,
    };
    assert!(!forever.is_expired(u64::MAX));
}

#[test]
fn insert_replaces_and_remove_takes() {
    let mut db = Db::new();
    put(&mut db, "k", "1", None);
    put(&mut db, "k", "2", None);
    assert_eq!(db.len(), 1);
    assert_eq!(value_of(&db, "k").unwrap(), "2");
    db.remove(&"k".to_string());
    assert!(db.get(&"k".to_string()).is_none());
    db.remove(&"k".to_string());
    assert_eq!(db.len(), 0);
}

#[test]
fn removed_and_reinserted_keys_are_saved_once() {
    let mut db = Db::new();
    for round in 0..3 {
        put(&mut db, "k", &round.to_string(), None);
        db.remove(&"k".to_string());
        put(&mut db, "k", &round.to_string(), None);
    }
    put(&mut db, "gone", "x", Some(1));
    db.remove(&"gone".to_string());
    let saved = db.snapshot(0);
    assert_eq!(saved, vec![("k".to_string(), "2".to_string(), None)]);
    db.purge_expired(0);
    assert_eq!(db.snapshot(0), saved);
}

#[test]
fn restore_caps_deadlines_at_the_clock_limit() {
    let saved = vec![("k".to_string(), "v".to_string(), Some(u128::MAX))];
    let db = Db::restore(saved, 5);
    let entry = db.get(&"k".to_string()).unwrap();
    assert_eq!(entry.expires_at, Some(u128::MAX));
    assert!(!entry.is_expired(u64::MAX));
}

#[test]
fn restore_keeps_the_later_duplicate() {
    let saved = vec![
        ("k".to_string(), "old".to_string(), None),
        ("k".to_string(), "new".to_string(), Some(5)),
    ];
    let db = Db::restore(saved, 10);
    assert_eq!(db.len(), 1);
    let entry = db.get(&"k".to_string()).unwrap();
    assert_eq!(entry.value, "new");
    assert_eq!(entry.expires_at, Some(15));
}

#[test]
fn snapshot_then_restore_through_commands() {
    let mut db = Db::new();
    Command::SetKey {
        key: "t".to_string(),
        value: "x".to_string(),
        expiry: Some(Duration::from_secs(3)),
    }
    .execute(&mut db, SECOND);
    let saved = db.snapshot(2 * SECOND);
    assert_eq!(saved[0].2, Some(2 * SECOND as u128));
    let mut loaded = Db::restore(saved, 50 * SECOND);
    let at = Command::Get { key: "t".to_string() }.execute(&mut loaded, 52 * SECOND);
    assert!(matches!(at, my_redis::frame::Frame::Bulk(s) if s == "x"));
    let after = Command::Get { key: "t".to_string() }.execute(&mut loaded, 52 * SECOND + 1);
    assert!(matches!(after, my_redis::frame::Frame::Null));
}
