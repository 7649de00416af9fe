use storage_engine::storage_engine::cache::TwoQcache;

fn get_true_val(_key: u32) -> Result<u32, ()> {
    return Ok(1);
}

fn get_failing_val(_key: u32) -> Result<u32, ()> {
    Err(())
}

#[test]
fn cache_test_basics() {
    let capacity = 20;
    let mut cache: TwoQcache<u32, u32> = TwoQcache::new(capacity);

    for i in 0..(capacity as u32 / 4) {
        cache.access(i, get_true_val).unwrap();
        assert!(cache.new_contains_key(i));
        assert!(cache.cold_is_empty());
    }
    //Hot should be full
    cache.access(99, get_true_val);
    //Now key 0 is in cold
    assert!(cache.cold_contains_key(0));
    cache.access(0, get_true_val);
    //Now key 0 should be in hot
    assert!(cache.hot_contains_key(0));
    assert!(!cache.cold_contains_key(0));
}

#[test]
fn cache_hit_does_not_fetch() {
    let mut cache: TwoQcache<u32, u32> = TwoQcache::new(20);
    assert_eq!(cache.access(7, |k| Ok(k * 3)).copied(), Some(21));
    // a new key is answered from `new`, without calling the fetcher
    assert_eq!(cache.access(7, get_failing_val).copied(), Some(21));
}

#[test]
fn cache_failed_fetch_answers_nothing() {
    let mut cache: TwoQcache<u32, u32> = TwoQcache::new(20);
    assert_eq!(cache.access(3, get_failing_val), None);
    assert!(!cache.new_contains_key(3));
}

#[test]
fn cache_hot_key_keeps_its_value() {
    let mut cache: TwoQcache<u32, u32> = TwoQcache::new(8);
    cache.access(1, |_| Ok(10));
    cache.access(2, |_| Ok(20));
    cache.access(3, |_| Ok(30));
    // `new` holds two keys at most; key 1 went cold
    assert!(cache.cold_contains_key(1));
    assert_eq!(cache.access(1, |_| Ok(11)).copied(), Some(11));
    assert!(cache.hot_contains_key(1));
    assert_eq!(cache.access(1, get_failing_val).copied(), Some(11));
}

#[test]
fn cache_capacity_one_keeps_every_evicted_key_cold() {
    let mut cache: TwoQcache<u32, u32> = TwoQcache::new(1);
    for k in 1..=4 {
        cache.access(k, get_true_val);
    }
    // with half the capacity rounding to zero, `cold` is never trimmed
    assert!(cache.cold_contains_key(1));
    assert!(cache.cold_contains_key(2));
    assert!(cache.cold_contains_key(3));
    assert!(cache.new_contains_key(4));
}
