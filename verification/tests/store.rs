//! Tests for the key-value store: visibility of writes, time-to-live
//! expiration across purge cycles, the expiration index, the wake
//! decision, and the diagnostic listing.

use redis_from_scratch_rust::db::{PurgeOutcome, State};

#[test]
fn set_then_get_returns_the_value() {
    let mut s = State::new();
    let _ = s.set(b"key".to_vec(), b"value".to_vec(), None, 0);
    assert_eq!(s.get(b"key"), Some(b"value".to_vec()));
}

#[test]
fn get_of_an_absent_key_is_none() {
    let s = State::new();
    assert_eq!(s.get(b"missing"), None);
}

#[test]
fn overwriting_a_key_replaces_its_value() {
    let mut s = State::new();
    let _ = s.set(b"k".to_vec(), b"one".to_vec(), None, 0);
    let _ = s.set(b"k".to_vec(), b"two".to_vec(), None, 0);
    assert_eq!(s.get(b"k"), Some(b"two".to_vec()));
}

#[test]
fn value_visible_before_expiry_and_gone_after_a_purge_past_it() {
    let mut s = State::new();
    let _ = s.set(b"k".to_vec(), b"v".to_vec(), Some(50), 0);
    // visible immediately, and still visible after an early purge cycle
    assert_eq!(s.get(b"k"), Some(b"v".to_vec()));
    let r = s.purge_expired_keys(10);
    assert_eq!(r, PurgeOutcome::NextExpiry(50));
    assert_eq!(s.get(b"k"), Some(b"v".to_vec()));
    // a value past its expiry is still visible until the next purge:
    // the staleness window is by design
    assert_eq!(s.get(b"k"), Some(b"v".to_vec()));
    // once a purge cycle runs at or past the expiry, the value is gone
    let r = s.purge_expired_keys(60);
    assert_eq!(r, PurgeOutcome::Idle);
    assert_eq!(s.get(b"k"), None);
}

#[test]
fn purge_removes_only_due_entries() {
    let mut s = State::new();
    let _ = s.set(b"a".to_vec(), b"1".to_vec(), Some(10), 0);
    let _ = s.set(b"b".to_vec(), b"2".to_vec(), Some(100), 0);
    let _ = s.set(b"c".to_vec(), b"3".to_vec(), None, 0);
    let r = s.purge_expired_keys(50);
    assert_eq!(r, PurgeOutcome::NextExpiry(100));
    assert_eq!(s.get(b"a"), None);
    assert_eq!(s.get(b"b"), Some(b"2".to_vec()));
    assert_eq!(s.get(b"c"), Some(b"3".to_vec()));
}

#[test]
fn repeated_set_keeps_one_index_pair_per_key() {
    let mut s = State::new();
    let _ = s.set(b"k".to_vec(), b"v1".to_vec(), Some(100), 0);
    let _ = s.set(b"k".to_vec(), b"v2".to_vec(), Some(200), 0);
    // were a stale (100, "k") pair left behind, the next expiration
    // would still read 100
    assert_eq!(s.next_expiration(), Some(200));
    // and a purge between the two instants would wrongly drop the key
    let r = s.purge_expired_keys(150);
    assert_eq!(r, PurgeOutcome::NextExpiry(200));
    assert_eq!(s.get(b"k"), Some(b"v2".to_vec()));
    // dropping the expiry removes the pair entirely
    let _ = s.set(b"k".to_vec(), b"v3".to_vec(), None, 0);
    assert_eq!(s.next_expiration(), None);
}

#[test]
fn disjoint_keys_are_all_visible_afterward() {
    let mut s = State::new();
    for i in 0..20u8 {
        let _ = s.set(vec![b'k', i], vec![b'v', i], None, 0);
    }
    for i in 0..20u8 {
        assert_eq!(s.get(&[b'k', i]), Some(vec![b'v', i]));
    }
}

#[test]
fn wake_decision_follows_the_earliest_pending_expiry() {
    let mut s = State::new();
    // nothing pending: a new expiry must wake the reclaimer
    assert!(s.set(b"a".to_vec(), b"1".to_vec(), Some(100), 0));
    // a later expiry must not wake it
    assert!(!s.set(b"b".to_vec(), b"2".to_vec(), Some(200), 0));
    // a strictly earlier expiry must wake it
    assert!(s.set(b"c".to_vec(), b"3".to_vec(), Some(50), 0));
    // an equal expiry is not strictly earlier
    assert!(!s.set(b"d".to_vec(), b"4".to_vec(), Some(50), 0));
    // no expiry never wakes it
    assert!(!s.set(b"e".to_vec(), b"5".to_vec(), None, 0));
}

#[test]
fn next_expiration_is_the_earliest_pending_instant() {
    let mut s = State::new();
    let _ = s.set(b"a".to_vec(), b"1".to_vec(), Some(100), 0);
    let _ = s.set(b"b".to_vec(), b"2".to_vec(), Some(200), 0);
    let _ = s.set(b"c".to_vec(), b"3".to_vec(), Some(50), 0);
    assert_eq!(s.next_expiration(), Some(50));
}

#[test]
fn purge_on_empty_store_reports_idle() {
    let mut s = State::new();
    assert_eq!(s.purge_expired_keys(0), PurgeOutcome::Idle);
}

#[test]
fn shutdown_stops_the_purge_cycle_without_touching_entries() {
    let mut s = State::new();
    let _ = s.set(b"k".to_vec(), b"v".to_vec(), Some(1), 0);
    s.begin_shutdown();
    assert!(s.is_shutdown());
    // the reclaimer's next cycle observes the flag and exits; even a
    // due entry is left alone
    assert_eq!(s.purge_expired_keys(1000), PurgeOutcome::Shutdown);
    assert_eq!(s.get(b"k"), Some(b"v".to_vec()));
}

#[test]
fn fresh_store_is_not_shut_down() {
    let s = State::new();
    assert!(!s.is_shutdown());
    assert_eq!(s.next_expiration(), None);
}

#[test]
fn list_caps_at_ten_by_default_and_at_the_given_limit() {
    let mut s = State::new();
    for i in 0..12u8 {
        let _ = s.set(vec![b'k', b'0' + i % 10], vec![b'v', i], None, 0);
    }
    // 12 writes over 10 distinct keys: 10 entries stay
    assert_eq!(s.list(None).len(), 10);
    assert_eq!(s.list(Some(3)).len(), 3);
    assert_eq!(s.list(Some(100)).len(), 10);
    assert_eq!(s.list(Some(0)).len(), 0);
}

#[test]
fn list_formats_entries_as_key_colon_value() {
    let mut s = State::new();
    let _ = s.set(b"name".to_vec(), b"value".to_vec(), None, 0);
    let lines = s.list(None);
    assert_eq!(lines, vec![b"name: value".to_vec()]);
}
