use music_index::clock::{expired, now, Timestamp, SESSION_TTL_SECONDS};
use music_index::sessions::SessionTable;

fn shifted(t: Timestamp, seconds: i64) -> Timestamp {
    Timestamp { seconds: t.seconds + seconds, nanos: t.nanos }
}

#[test]
fn session_survives_until_ttl_then_evicted() {
    let mut table = SessionTable::new();
    let token = table.create().unwrap();
    assert!(table.is_valid(&token));
    let created = table.created_at(&token).unwrap();
    let ttl = SESSION_TTL_SECONDS;
    let removed = table.evict_expired(shifted(created, ttl as i64 - 1), ttl);
    assert!(removed.is_empty());
    assert!(table.is_valid(&token));
    let removed = table.evict_expired(shifted(created, ttl as i64 + 1), ttl);
    assert_eq!(removed, vec![token.clone()]);
    assert!(!table.is_valid(&token));
}

#[test]
fn created_session_has_current_time_and_fresh_token() {
    let mut table = SessionTable::new();
    let first = table.create().unwrap();
    let second = table.create().unwrap();
    assert_ne!(first, second);
    assert_eq!(first.len(), 36);
    let stamp = table.created_at(&first).unwrap();
    assert!(stamp.seconds > 1_600_000_000);
    assert!(stamp.nanos < 1_000_000_000);
}

#[test]
fn unknown_token_is_invalid() {
    let mut table = SessionTable::new();
    assert!(!table.is_valid("nope"));
    table.insert("abc".to_string(), Timestamp { seconds: 10, nanos: 0 });
    assert!(table.is_valid("abc"));
    assert!(!table.is_valid("ab"));
    assert!(!table.is_valid("abcd"));
    assert_eq!(table.created_at("nope"), None);
}

#[test]
fn insert_same_token_replaces_time() {
    let mut table = SessionTable::new();
    table.insert("t".to_string(), Timestamp { seconds: 1, nanos: 0 });
    table.insert("t".to_string(), Timestamp { seconds: 5, nanos: 7 });
    assert_eq!(table.created_at("t"), Some(Timestamp { seconds: 5, nanos: 7 }));
    let gone = table.evict_expired(Timestamp { seconds: 100, nanos: 0 }, 0);
    assert_eq!(gone, vec!["t".to_string()]);
}

#[test]
fn eviction_keeps_young_and_removes_old() {
    let mut table = SessionTable::new();
    table.insert("old".to_string(), Timestamp { seconds: 0, nanos: 0 });
    table.insert("young".to_string(), Timestamp { seconds: 90, nanos: 0 });
    table.insert("edge".to_string(), Timestamp { seconds: 40, nanos: 0 });
    let gone = table.evict_expired(Timestamp { seconds: 100, nanos: 0 }, 60);
    assert_eq!(gone, vec!["old".to_string()]);
    assert!(table.is_valid("young"));
    assert!(table.is_valid("edge"));
    assert!(!table.is_valid("old"));
}

#[test]
fn snapshot_removal_spares_sessions_created_later() {
    let mut table = SessionTable::new();
    table.insert("old".to_string(), Timestamp { seconds: 0, nanos: 0 });
    let gone = table.expired_tokens(Timestamp { seconds: 1000, nanos: 0 }, 10);
    table.insert("later".to_string(), Timestamp { seconds: 0, nanos: 0 });
    table.remove_tokens(&gone);
    assert!(!table.is_valid("old"));
    assert!(table.is_valid("later"));
}

#[test]
fn expiry_is_strict_at_nanosecond_precision() {
    let created = Timestamp { seconds: 100, nanos: 500 };
    assert!(!expired(created, Timestamp { seconds: 160, nanos: 500 }, 60));
    assert!(expired(created, Timestamp { seconds: 160, nanos: 501 }, 60));
    assert!(!expired(created, Timestamp { seconds: 50, nanos: 0 }, 0));
    assert!(expired(
        Timestamp { seconds: i64::MIN, nanos: 0 },
        Timestamp { seconds: i64::MAX, nanos: 999_999_999 },
        u64::MAX
    ));
    assert_eq!(SESSION_TTL_SECONDS, 604_800);
}

#[test]
fn token_from_random_bytes_is_hyphenated_v4() {
    let mut table = SessionTable::new();
    let at = Timestamp { seconds: 42, nanos: 0 };
    let token = table.create_from([0u8; 16], at);
    assert_eq!(token, "00000000-0000-4000-8000-000000000000");
    let other = table.create_from([0xffu8; 16], at);
    assert_eq!(other, "ffffffff-ffff-4fff-bfff-ffffffffffff");
    assert_eq!(table.created_at(&token), Some(at));
    assert!(table.is_valid(&other));
}

#[test]
fn clock_reads_current_time() {
    let t = now().unwrap();
    assert!(t.seconds > 1_600_000_000);
    assert!(t.nanos < 1_000_000_000);
}
