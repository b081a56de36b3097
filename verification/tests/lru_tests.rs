use lru_cache::LruCache;

/// Test 1: Basic put and get operations
#[test]
fn test_basic_put_and_get() {
    let mut cache: LruCache<String> = LruCache::new(3);

    cache.put(1, "one".to_string());
    cache.put(2, "two".to_string());
    cache.put(3, "three".to_string());

    assert_eq!(cache.get(&1), Some("one".to_string()));
    assert_eq!(cache.get(&2), Some("two".to_string()));
    assert_eq!(cache.get(&3), Some("three".to_string()));
}

/// Test 2: Get returns None for non-existent key
#[test]
fn test_get_missing_key_returns_none() {
    let mut cache: LruCache<i32> = LruCache::new(2);

    cache.put(1, 100);

    assert_eq!(cache.get(&1), Some(100));
    assert_eq!(cache.get(&999), None); // Key doesn't exist
    assert_eq!(cache.get(&0), None); // Never inserted
}

/// Test 3: LRU eviction when capacity is exceeded
#[test]
fn test_eviction_when_capacity_exceeded() {
    let mut cache: LruCache<&str> = LruCache::new(2);

    cache.put(1, "one");
    cache.put(2, "two");
    // Cache is now full: [2] <-> [1] (head to tail)

    cache.put(3, "three");
    // Key 1 should be evicted (LRU): [3] <-> [2]

    assert_eq!(cache.get(&1), None); // Evicted
    assert_eq!(cache.get(&2), Some("two")); // Still present
    assert_eq!(cache.get(&3), Some("three")); // Just added
}

/// Test 4: Updating existing key moves it to head (most recently used)
#[test]
fn test_update_existing_key() {
    let mut cache: LruCache<&str> = LruCache::new(2);

    cache.put(1, "one");
    cache.put(2, "two");
    // Order: [2] <-> [1] (head to tail)

    // Update key 1 - should move to head and update value
    cache.put(1, "ONE_UPDATED");
    // Order: [1] <-> [2] (head to tail)

    // Now add key 3 - should evict key 2 (now LRU)
    cache.put(3, "three");

    assert_eq!(cache.get(&1), Some("ONE_UPDATED")); // Updated and present
    assert_eq!(cache.get(&2), None); // Evicted
    assert_eq!(cache.get(&3), Some("three")); // Just added
}

/// Test 5: Get operation moves accessed item to head (affects eviction order)
#[test]
fn test_get_updates_recency() {
    let mut cache: LruCache<&str> = LruCache::new(3);

    cache.put(1, "one");
    cache.put(2, "two");
    cache.put(3, "three");
    // Order: [3] <-> [2] <-> [1] (head to tail, 1 is LRU)

    // Access key 1 - moves it to head
    let _ = cache.get(&1);
    // Order: [1] <-> [3] <-> [2] (head to tail, 2 is now LRU)

    // Add key 4 - should evict key 2 (LRU)
    cache.put(4, "four");

    assert_eq!(cache.get(&1), Some("one")); // Accessed, still present
    assert_eq!(cache.get(&2), None); // Evicted (was LRU after get(1))
    assert_eq!(cache.get(&3), Some("three")); // Still present
    assert_eq!(cache.get(&4), Some("four")); // Just added
}

/// A lookup on a freshly constructed cache finds nothing.
#[test]
fn test_get_on_empty_cache() {
    let mut cache: LruCache<String> = LruCache::new(5);

    assert_eq!(cache.get(&42), None);
}

/// With capacity 1, inserting a second key evicts the first but never the
/// entry just inserted.
#[test]
fn test_capacity_one() {
    let mut cache: LruCache<&str> = LruCache::new(1);

    cache.put(1, "one");
    assert_eq!(cache.get(&1), Some("one"));

    cache.put(2, "two");
    assert_eq!(cache.get(&1), None); // Evicted
    assert_eq!(cache.get(&2), Some("two")); // The new entry survives
}

/// A second get of the same key leaves the recency order unchanged: the
/// eviction that follows picks the same victim as after a single get.
#[test]
fn test_get_twice_keeps_order() {
    let mut cache: LruCache<&str> = LruCache::new(3);

    cache.put(1, "one");
    cache.put(2, "two");
    cache.put(3, "three");
    // Order: [3] <-> [2] <-> [1]

    assert_eq!(cache.get(&2), Some("two"));
    assert_eq!(cache.get(&2), Some("two"));
    // Order both times: [2] <-> [3] <-> [1], so 1 is still the LRU

    cache.put(4, "four");

    assert_eq!(cache.get(&1), None); // Evicted
    assert_eq!(cache.get(&2), Some("two"));
    assert_eq!(cache.get(&3), Some("three"));
    assert_eq!(cache.get(&4), Some("four"));
}

/// Updating a stored key never grows the cache and never evicts: after
/// any number of updates every other entry is still there.
#[test]
fn test_update_never_evicts() {
    let mut cache: LruCache<i32> = LruCache::new(2);

    cache.put(1, 1);
    cache.put(2, 2);

    cache.put(1, 3);
    cache.put(1, 4);
    cache.put(1, 5);

    assert_eq!(cache.get(&2), Some(2)); // Never evicted by the updates
    assert_eq!(cache.get(&1), Some(5)); // Holds the last value written
}

/// Updating the entry already at the head leaves the order as it was.
#[test]
fn test_update_at_head() {
    let mut cache: LruCache<&str> = LruCache::new(2);

    cache.put(1, "one");
    cache.put(2, "two");
    // Order: [2] <-> [1]

    cache.put(2, "TWO");
    // Still: [2] <-> [1]

    cache.put(3, "three");
    // Evicts 1: [3] <-> [2]

    assert_eq!(cache.get(&1), None);
    assert_eq!(cache.get(&2), Some("TWO"));
    assert_eq!(cache.get(&3), Some("three"));
}
