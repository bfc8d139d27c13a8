use redis_clone::store::Store;

#[test]
fn set_then_get_returns_value() {
    //create a fresh store instance
    let mut store = Store::new();

    //Store a key value pair
    store.set("name".to_string(), "shady".to_string());

    //Read the value back
    let value = store.get("name", 0);

    //The stored value should be retuirned
    assert_eq!(value.unwrap(), "shady".to_string());
}

#[test]
fn get_missing_key_returns_none() {
    // Create a fresh empty store.
    let mut store = Store::new();

    // Missing keys should return None.
    let value = store.get("missing", 0);

    assert_eq!(value, None);
}

#[test]
fn del_existing_key_returns_true() {
    // Create a fresh store.
    let mut store = Store::new();

    // Insert a key first.
    store.set("name".to_string(), "shady".to_string());

    // Delete should return true because the key existed.
    let deleted = store.del("name", 0);

    assert_eq!(deleted, true);
    assert_eq!(store.get("name", 0), None);
}

#[test]
fn del_missing_key_returns_false() {
    // Create a fresh empty store.
    let mut store = Store::new();

    // Delete should return false because the key did not exist.
    let deleted = store.del("missing", 0);

    assert_eq!(deleted, false);
}

#[test]
fn exists_returns_true_for_existing_key() {
    // Create a fresh store.
    let mut store = Store::new();

    // Insert a key.
    store.set("name".to_string(), "shady".to_string());

    // The key should exist.
    assert_eq!(store.key_exists("name", 0), true);
}

#[test]
fn incr_missing_key_starts_at_one() {
    // Create a fresh store.
    let mut store = Store::new();

    // Redis treats a missing key as 0, then increments to 1.
    let value = store.incr("count", 0);

    assert_eq!(value, Ok(1));
    assert_eq!(store.get("count", 0), Some("1".to_string()));
}

#[test]
fn decr_missing_key_starts_at_negative_one() {
    // Create a fresh store.
    let mut store = Store::new();

    // Redis treats a missing key as 0, then decrements to -1.
    let value = store.decr("count", 0);

    assert_eq!(value, Ok(-1));
    assert_eq!(store.get("count", 0), Some("-1".to_string()));
}

#[test]
fn incr_non_integer_returns_error() {
    // Create a fresh store.
    let mut store = Store::new();

    // Store a non-integer value.
    store.set("name".to_string(), "shady".to_string());

    // INCR should fail because "shady" is not an integer.
    let result = store.incr("name", 0);

    assert_eq!(
        result,
        Err("value is not an integer or out of range".to_string())
    );
}

#[test]
fn del_many_returns_removed_count() {
    // Create a fresh store.
    let mut store = Store::new();

    // Insert two keys.
    store.set("a".to_string(), "1".to_string());
    store.set("b".to_string(), "2".to_string());

    let keys = vec!["a".to_string(), "b".to_string(), "c".to_string()];

    // Only a and b exist, so removed count should be 2.
    let removed = store.del_many(&keys, 0);

    assert_eq!(removed, 2);
}

#[test]
fn exists_many_returns_existing_count() {
    // Create a fresh store.
    let mut store = Store::new();

    // Insert two keys.
    store.set("a".to_string(), "1".to_string());
    store.set("b".to_string(), "2".to_string());

    let keys = vec!["a".to_string(), "b".to_string(), "c".to_string()];

    // Only a and b exist, so count should be 2.
    let count = store.exists_many(&keys, 0);

    assert_eq!(count, 2);
}

#[test]
fn incr_overflow_returns_error() {
    // Create a fresh store.
    let mut store = Store::new();

    // Store the maximum i64 value.
    store.set("count".to_string(), i64::MAX.to_string());

    // Incrementing i64::MAX would overflow.
    let result = store.incr("count", 0);

    assert_eq!(
        result,
        Err("increment or decrement would overflow".to_string())
    );
}

#[test]
fn decr_overflow_returns_error() {
    // Create a fresh store.
    let mut store = Store::new();

    // Store the minimum i64 value.
    store.set("count".to_string(), i64::MIN.to_string());

    // Decrementing i64::MIN would overflow.
    let result = store.decr("count", 0);

    assert_eq!(
        result,
        Err("increment or decrement would overflow".to_string())
    );
}

#[test]
fn incr_twice_then_decr_reads_back() {
    let mut store = Store::new();
    assert_eq!(store.incr("count", 0), Ok(1));
    assert_eq!(store.incr("count", 0), Ok(2));
    assert_eq!(store.get("count", 0), Some("2".to_string()));
    assert_eq!(store.decr("count", 0), Ok(1));
    assert_eq!(store.get("count", 0), Some("1".to_string()));
}

#[test]
fn incr_accepts_what_str_parse_accepts() {
    let mut store = Store::new();
    store.set("a".to_string(), "+007".to_string());
    assert_eq!(store.incr("a", 0), Ok(8));
    assert_eq!(store.get("a", 0), Some("8".to_string()));
    store.set("b".to_string(), "-0".to_string());
    assert_eq!(store.decr("b", 0), Ok(-1));
    store.set("c".to_string(), " 1".to_string());
    assert_eq!(
        store.incr("c", 0),
        Err("value is not an integer or out of range".to_string())
    );
    store.set("d".to_string(), "9223372036854775808".to_string());
    assert_eq!(
        store.incr("d", 0),
        Err("value is not an integer or out of range".to_string())
    );
}

#[test]
fn expire_and_ttl() {
    let mut store = Store::new();
    assert_eq!(store.ttl("session", 0), -2);
    assert_eq!(store.expire("session", 3, 0), false);
    store.set("session".to_string(), "abc".to_string());
    assert_eq!(store.ttl("session", 0), -1);
    assert_eq!(store.expire("session", 3, 10_000), true);
    assert_eq!(store.ttl("session", 10_000), 3);
    assert_eq!(store.ttl("session", 10_001), 2);
    assert_eq!(store.get("session", 12_999), Some("abc".to_string()));
    assert_eq!(store.key_exists("session", 13_000), false);
    assert_eq!(store.get("session", 0), None);
    assert_eq!(store.del("session", 0), false);
}

#[test]
fn expired_key_counts_as_missing_everywhere() {
    let mut store = Store::new();
    store.set("k".to_string(), "41".to_string());
    assert!(store.expire("k", 1, 0));
    assert_eq!(store.exists_many(&vec!["k".to_string()], 1000), 0);
    store.set("k".to_string(), "41".to_string());
    assert!(store.expire("k", 1, 0));
    assert_eq!(store.incr("k", 1000), Ok(1));
    assert_eq!(store.ttl("k", 1000), -1);
}

#[test]
fn incr_keeps_expiry() {
    let mut store = Store::new();
    store.set("k".to_string(), "5".to_string());
    assert!(store.expire("k", 10, 0));
    assert_eq!(store.incr("k", 0), Ok(6));
    assert_eq!(store.ttl("k", 0), 10);
}

#[test]
fn set_clears_expiry() {
    let mut store = Store::new();
    store.set("k".to_string(), "v".to_string());
    assert!(store.expire("k", 10, 0));
    store.set("k".to_string(), "w".to_string());
    assert_eq!(store.ttl("k", 0), -1);
}

#[test]
fn huge_expire_saturates() {
    let mut store = Store::new();
    store.set("k".to_string(), "v".to_string());
    assert!(store.expire("k", u64::MAX, 5));
    assert_eq!(store.ttl("k", 5), ((u64::MAX - 5) / 1000) as i64);
}

#[test]
fn del_many_counts_distinct_live_keys_and_removes_expired_ones() {
    let mut store = Store::new();
    store.set("a".to_string(), "1".to_string());
    store.set("b".to_string(), "2".to_string());
    store.set("c".to_string(), "3".to_string());
    assert!(store.expire("b", 1, 0));
    let keys = vec!["a".to_string(), "a".to_string(), "b".to_string()];
    assert_eq!(store.del_many(&keys, 1000), 1);
    assert_eq!(store.get("a", 1000), None);
    assert_eq!(store.ttl("b", 0), -2);
    assert_eq!(store.get("c", 1000), Some("3".to_string()));
}

#[test]
fn del_of_an_expired_key_finds_nothing() {
    let mut store = Store::new();
    store.set("k".to_string(), "v".to_string());
    assert!(store.expire("k", 1, 0));
    assert_eq!(store.del("k", 999), true);
    store.set("k".to_string(), "v".to_string());
    assert!(store.expire("k", 1, 0));
    assert_eq!(store.del("k", 1000), false);
    assert_eq!(store.key_exists("k", 0), false);
}
