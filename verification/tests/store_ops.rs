use respkv::store::{Store, StoreError, Value};

fn k(s: &[u8]) -> Vec<u8> {
    s.to_vec()
}

#[test]
fn set_then_get_returns_value() {
    let mut s = Store::new();
    s.set(k(b"key"), k(b"value"), None, 1000);
    assert_eq!(s.get(b"key", 1000), Some(k(b"value")));
    assert_eq!(s.get(b"never-set", 1000), None);
}

#[test]
fn zero_expiry_is_gone_after_any_positive_time() {
    let mut s = Store::new();
    s.set(k(b"key"), k(b"v"), Some(0), 1000);
    assert_eq!(s.get(b"key", 1000), Some(k(b"v")));
    assert_eq!(s.get(b"key", 1001), None);
    assert!(!s.exists_key(b"key", 1001));
}

#[test]
fn del_counts_only_present_keys() {
    let mut s = Store::new();
    s.set(k(b"a"), k(b"1"), None, 0);
    let deleted = s.del(&[k(b"a"), k(b"missing")], 0);
    assert_eq!(deleted, 1);
    assert_eq!(s.get(b"a", 0), None);
}

#[test]
fn del_ignores_expired_entries() {
    let mut s = Store::new();
    s.set(k(b"a"), k(b"1"), Some(0), 1000);
    assert_eq!(s.del(&[k(b"a")], 2000), 0);
    assert_eq!(s.get(b"a", 2000), None);
}

#[test]
fn del_duplicate_key_counts_once() {
    let mut s = Store::new();
    s.set(k(b"a"), k(b"1"), None, 0);
    assert_eq!(s.del(&[k(b"a"), k(b"a")], 0), 1);
}

#[test]
fn incr_four_times_then_decr() {
    let mut s = Store::new();
    assert_eq!(s.incr(b"c", 0), Ok(1));
    assert_eq!(s.incr(b"c", 0), Ok(2));
    assert_eq!(s.incr(b"c", 0), Ok(3));
    assert_eq!(s.incr(b"c", 0), Ok(4));
    assert_eq!(s.decr(b"c", 0), Ok(3));
    assert_eq!(s.get(b"c", 0), Some(k(b"3")));
}

#[test]
fn incr_on_text_fails_and_preserves_value() {
    let mut s = Store::new();
    s.set(k(b"key"), k(b"abc"), None, 0);
    assert_eq!(s.incr(b"key", 0), Err(StoreError::NotAnInteger));
    assert_eq!(s.get(b"key", 0), Some(k(b"abc")));
    assert_eq!(
        StoreError::NotAnInteger.message(),
        b"ERR value is not an integer or out of range".to_vec()
    );
}

#[test]
fn incr_preserves_remaining_ttl() {
    let mut s = Store::new();
    // deadline at 1000 + 100000 = 101000
    s.set(k(b"key"), k(b"5"), Some(100000), 1000);
    assert_eq!(s.incr(b"key", 2000), Ok(6));
    // still there right at the deadline set by the first write...
    assert_eq!(s.get(b"key", 101000), Some(k(b"6")));
    // ...and gone just past it: the window was neither cleared nor extended.
    assert_eq!(s.get(b"key", 101001), None);
}

#[test]
fn incr_on_expired_entry_restarts_at_one() {
    let mut s = Store::new();
    s.set(k(b"key"), k(b"10"), Some(0), 1000);
    assert_eq!(s.incr(b"key", 2000), Ok(1));
    assert_eq!(s.get(b"key", 2000), Some(k(b"1")));
}

#[test]
fn incr_wraps_at_the_top() {
    let mut s = Store::new();
    s.set(k(b"key"), k(b"9223372036854775807"), None, 0);
    assert_eq!(s.incr(b"key", 0), Ok(i64::MIN));
    let mut s2 = Store::new();
    s2.set(k(b"key"), k(b"-9223372036854775808"), None, 0);
    assert_eq!(s2.decr(b"key", 0), Ok(i64::MAX));
}

#[test]
fn decr_fresh_key_starts_at_minus_one() {
    let mut s = Store::new();
    assert_eq!(s.decr(b"c", 0), Ok(-1));
    assert_eq!(s.get(b"c", 0), Some(k(b"-1")));
}

#[test]
fn overwrite_replaces_value_and_expiry() {
    let mut s = Store::new();
    s.set(k(b"key"), k(b"old"), Some(0), 1000);
    s.set(k(b"key"), k(b"new"), None, 1000);
    assert_eq!(s.get(b"key", 99999), Some(k(b"new")));
}

#[test]
fn hundred_increments_count_them_all() {
    let mut s = Store::new();
    for i in 1..=100i64 {
        assert_eq!(s.incr(b"hits", 0), Ok(i));
    }
    assert_eq!(s.get(b"hits", 0), Some(k(b"100")));
}

#[test]
fn value_helpers() {
    let v = Value::new(k(b"12"), Some(50), 1000);
    assert_eq!(v.expiry, Some(1050));
    assert!(!v.is_expired(1050));
    assert!(v.is_expired(1051));
    assert_eq!(v.parse_int(), Some(12));
    assert_eq!(v.remaining_duration(1010), Some(40));
    assert_eq!(v.remaining_duration(2000), None);
    let plain = Value::new(k(b"x"), None, 0);
    assert_eq!(plain.expiry, None);
    assert!(!plain.is_expired(u64::MAX));
    assert_eq!(plain.parse_int(), None);
}
