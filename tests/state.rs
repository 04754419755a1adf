use my_redis::db::State;
use my_redis::server::{Backoff, BACKOFF_CEILING, CHANNEL_CAPACITY, MAX_CONNECTIONS};

#[test]
fn set_without_expiry_then_get() {
    let mut db: State<()> = State::new();
    assert!(!db.set("k".to_string(), b"v1".to_vec(), None, 0));
    db.set("other".to_string(), b"x".to_vec(), Some(5), 0);
    assert_eq!(db.get("k"), Some(b"v1".to_vec()));
    assert_eq!(db.purge_expired_keys(1_000_000), None);
    assert_eq!(db.get("k"), Some(b"v1".to_vec()));
    assert_eq!(db.get("other"), None);
    db.set("k".to_string(), b"v2".to_vec(), None, 0);
    assert_eq!(db.get("k"), Some(b"v2".to_vec()));
}

#[test]
fn notify_only_for_earlier_deadline() {
    let mut db: State<()> = State::new();
    assert!(db.set("a".to_string(), b"1".to_vec(), Some(100), 0));
    assert!(!db.set("b".to_string(), b"2".to_vec(), Some(200), 0));
    assert!(db.set("c".to_string(), b"3".to_vec(), Some(50), 0));
    assert!(!db.set("d".to_string(), b"4".to_vec(), Some(50), 0));
    assert_eq!(db.next_expiration(), Some(50));
}

#[test]
fn overwrite_drops_old_deadline() {
    let mut db: State<()> = State::new();
    db.set("k".to_string(), b"old".to_vec(), Some(10), 0);
    db.set("k".to_string(), b"new".to_vec(), None, 0);
    assert_eq!(db.next_expiration(), None);
    assert_eq!(db.purge_expired_keys(100), None);
    assert_eq!(db.get("k"), Some(b"new".to_vec()));
}

#[test]
fn purge_returns_next_deadline() {
    let mut db: State<()> = State::new();
    db.set("a".to_string(), b"1".to_vec(), Some(10), 0);
    db.set("b".to_string(), b"2".to_vec(), Some(20), 0);
    db.set("c".to_string(), b"3".to_vec(), Some(30), 0);
    assert_eq!(db.purge_expired_keys(20), Some(30));
    assert_eq!(db.get("a"), None);
    assert_eq!(db.get("b"), None);
    assert_eq!(db.get("c"), Some(b"3".to_vec()));
}

#[test]
fn deadline_saturates() {
    let mut db: State<()> = State::new();
    db.set("k".to_string(), b"v".to_vec(), Some(u64::MAX), 5);
    assert_eq!(db.next_expiration(), Some(u64::MAX));
}

#[test]
fn shutdown_stops_purging() {
    let mut db: State<()> = State::new();
    db.set("k".to_string(), b"v".to_vec(), Some(1), 0);
    assert!(!db.is_shutdown());
    db.shutdown_purge_task();
    assert!(db.is_shutdown());
    assert_eq!(db.purge_expired_keys(100), None);
    assert_eq!(db.get("k"), Some(b"v".to_vec()));
}

#[test]
fn channels_registry() {
    let mut db: State<u32> = State::new();
    assert!(db.channel("room").is_none());
    db.add_channel("room".to_string(), 7);
    assert_eq!(db.channel("room"), Some(&7));
    assert!(db.channel("other").is_none());
}

#[test]
fn backoff_schedule() {
    let mut b = Backoff::new();
    let mut delays = Vec::new();
    while let Some(d) = b.next_delay() {
        delays.push(d);
    }
    assert_eq!(delays, vec![1, 2, 4, 8, 16, 32, 64]);
    assert_eq!(b.next_delay(), None);
    assert_eq!(BACKOFF_CEILING, 64);
    assert_eq!(MAX_CONNECTIONS, 250);
    assert_eq!(CHANNEL_CAPACITY, 1024);
}
