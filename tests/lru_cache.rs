use redis_proxy::lru_cache::{Cache, LRUCache, NANOS_PER_SEC};

fn key(s: &str) -> String {
    String::from(s)
}

#[test]
fn test_allocation() {
    LRUCache::new(10, NANOS_PER_SEC);
}

#[test]
fn test_empty_get() {
    let mut cache = LRUCache::new(10, NANOS_PER_SEC);
    let key = String::from("foo");
    assert_eq!(cache.get(&key), None);
}

#[test]
fn test_put_and_get() {
    let mut cache = LRUCache::new(10, NANOS_PER_SEC);
    let key = String::from("foo");
    let expected_value = String::from("bar");
    cache.put(&key, expected_value.clone());
    assert_eq!(cache.get(&key), Some(expected_value));
}

#[test]
fn test_lru_eviction() {
    let mut cache = LRUCache::new(1, NANOS_PER_SEC);
    let key = String::from("foo");
    let expected_value = String::from("bar");
    cache.put(&key, expected_value.clone());
    assert_eq!(cache.get(&key), Some(expected_value));

    let key2 = String::from("baz");
    let expected_value2 = String::from("bazoink!");
    cache.put(&key2, expected_value2.clone());
    assert_eq!(cache.get(&key2), Some(expected_value2));
    assert_eq!(cache.get(&key), None);
}

#[test]
fn test_lru_ordering() {
    let mut cache = LRUCache::new(10, NANOS_PER_SEC);
    let key = String::from("foo");
    let expected_value = String::from("bar");
    cache.put(&key, expected_value.clone());

    let key2 = String::from("baz");
    let expected_value2 = String::from("bazoink!");
    cache.put(&key2, expected_value2.clone());
    // Expected order of keys : new [key2, key] old
    assert_eq!(cache.keys_ordered_by_use()[0], key2);
    assert_eq!(cache.keys_ordered_by_use()[1], key);

    cache.get(&key);
    // Expected order of keys : new [key, key2] old
    assert_eq!(cache.keys_ordered_by_use()[0], key);
    assert_eq!(cache.keys_ordered_by_use()[1], key2);
}

#[test]
fn test_timeout() {
    let timeout_duration = NANOS_PER_SEC;
    let mut cache = LRUCache::new(10, timeout_duration);
    let key = String::from("foo");
    let expected_value = String::from("bar");
    cache.put_at(&key, expected_value.clone(), 0);
    assert_eq!(cache.get_at(&key, 0), Some(expected_value));
    assert_eq!(cache.get_at(&key, timeout_duration + 1), None);
}

#[test]
fn fill_to_capacity_keeps_every_key() {
    let mut cache = LRUCache::new(3, NANOS_PER_SEC);
    cache.put_at(&key("a"), key("1"), 0);
    cache.put_at(&key("b"), key("2"), 0);
    cache.put_at(&key("c"), key("3"), 0);
    assert_eq!(cache.len(), 3);
    assert_eq!(cache.get_at(&key("a"), 10), Some(key("1")));
    assert_eq!(cache.get_at(&key("b"), 10), Some(key("2")));
    assert_eq!(cache.get_at(&key("c"), 10), Some(key("3")));
}

#[test]
fn one_past_capacity_evicts_least_recently_used() {
    let mut cache = LRUCache::new(3, NANOS_PER_SEC);
    cache.put_at(&key("a"), key("1"), 0);
    cache.put_at(&key("b"), key("2"), 0);
    cache.put_at(&key("c"), key("3"), 0);
    // "a" is used again, so "b" is now the least recently used.
    assert_eq!(cache.get_at(&key("a"), 1), Some(key("1")));
    cache.put_at(&key("d"), key("4"), 2);
    assert_eq!(cache.len(), 3);
    assert_eq!(cache.keys_ordered_by_use(), vec![key("d"), key("a"), key("c")]);
    assert_eq!(cache.get_at(&key("b"), 3), None);
    assert_eq!(cache.get_at(&key("a"), 3), Some(key("1")));
    assert_eq!(cache.get_at(&key("c"), 3), Some(key("3")));
    assert_eq!(cache.get_at(&key("d"), 3), Some(key("4")));
}

#[test]
fn get_moves_key_to_front() {
    let mut cache = LRUCache::new(10, NANOS_PER_SEC);
    cache.put_at(&key("a"), key("1"), 0);
    cache.put_at(&key("b"), key("2"), 1);
    assert_eq!(cache.keys_ordered_by_use(), vec![key("b"), key("a")]);
    assert_eq!(cache.get_at(&key("a"), 2), Some(key("1")));
    assert_eq!(cache.keys_ordered_by_use(), vec![key("a"), key("b")]);
}

#[test]
fn expired_entry_is_removed_and_can_be_put_again() {
    let mut cache = LRUCache::new(2, 100);
    cache.put_at(&key("k"), key("v"), 1000);
    assert_eq!(cache.get_at(&key("k"), 1100), Some(key("v")));
    assert_eq!(cache.get_at(&key("k"), 1101), None);
    assert_eq!(cache.len(), 0);
    assert!(cache.keys_ordered_by_use().is_empty());
    cache.put_at(&key("k"), key("v2"), 1200);
    assert_eq!(cache.get_at(&key("k"), 1250), Some(key("v2")));
}

#[test]
fn expired_entry_frees_its_place() {
    let mut cache = LRUCache::new(2, 100);
    cache.put_at(&key("old"), key("x"), 0);
    cache.put_at(&key("live"), key("y"), 150);
    assert_eq!(cache.get_at(&key("old"), 200), None);
    cache.put_at(&key("new"), key("z"), 200);
    assert_eq!(cache.keys_ordered_by_use(), vec![key("new"), key("live")]);
}

#[test]
fn clock_reading_before_put_time_is_not_expired() {
    let mut cache = LRUCache::new(2, 100);
    cache.put_at(&key("k"), key("v"), 5000);
    assert_eq!(cache.get_at(&key("k"), 10), Some(key("v")));
}

#[test]
fn double_write_keeps_first_value() {
    let mut cache = LRUCache::new(4, NANOS_PER_SEC);
    cache.put_at(&key("k"), key("v1"), 0);
    cache.put_at(&key("k"), key("v2"), 5);
    assert_eq!(cache.len(), 1);
    assert_eq!(cache.get_at(&key("k"), 10), Some(key("v1")));
}

#[test]
fn double_write_through_trait_keeps_first_value() {
    let mut cache = LRUCache::new(4, 60 * NANOS_PER_SEC);
    cache.put(&key("k"), key("v1"));
    cache.put(&key("k"), key("v2"));
    assert_eq!(cache.get(&key("k")), Some(key("v1")));
}

#[test]
fn helpers_on_entries() {
    let mut cache = LRUCache::new(3, 100);
    cache.put_at(&key("a"), key("1"), 0);
    cache.put_at(&key("b"), key("2"), 0);
    cache.put_at(&key("c"), key("3"), 0);
    cache.mark_key_used(&key("a"));
    assert_eq!(cache.keys_ordered_by_use(), vec![key("a"), key("c"), key("b")]);
    cache.remove_oldest_element();
    assert_eq!(cache.keys_ordered_by_use(), vec![key("a"), key("c")]);
    cache.remove_expired_element(&key("c"));
    assert_eq!(cache.keys_ordered_by_use(), vec![key("a")]);
    cache.remove_expired_element(&key("missing"));
    cache.mark_key_used(&key("missing"));
    assert_eq!(cache.keys_ordered_by_use(), vec![key("a")]);
}

#[test]
fn cache_clock_advances() {
    let cache = LRUCache::new(1, 1);
    let first = cache.now();
    let second = cache.now();
    assert!(second >= first);
}

#[test]
fn fill_with_lookups_in_between_keeps_every_key() {
    let mut cache = LRUCache::new(3, 100);
    cache.put_at(&key("a"), key("1"), 0);
    assert_eq!(cache.get_at(&key("a"), 10), Some(key("1")));
    cache.put_at(&key("b"), key("2"), 20);
    assert_eq!(cache.get_at(&key("c"), 25), None);
    assert_eq!(cache.get_at(&key("a"), 30), Some(key("1")));
    cache.put_at(&key("c"), key("3"), 40);
    assert_eq!(cache.get_at(&key("b"), 50), Some(key("2")));
    assert_eq!(cache.get_at(&key("c"), 60), Some(key("3")));
    assert_eq!(cache.get_at(&key("a"), 70), Some(key("1")));
    assert_eq!(cache.len(), 3);
}

#[test]
fn zero_capacity_cache_stores_nothing() {
    let mut cache = LRUCache::new(0, NANOS_PER_SEC);
    assert_eq!(cache.len(), 0);
    cache.put_at(&key("k"), key("v"), 0);
    assert_eq!(cache.len(), 0);
    assert_eq!(cache.get_at(&key("k"), 0), None);
    cache.put(&key("k"), key("v"));
    assert_eq!(cache.get(&key("k")), None);
}
