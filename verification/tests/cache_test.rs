use leshy::cache::DnsCache;

// Query type codes used by the tests.
const QTYPE_A: u16 = 1;
const QTYPE_AAAA: u16 = 28;

fn response_bytes(tag: u8) -> Vec<u8> {
    vec![tag, 0, 1, 2, 3]
}

#[test]
fn test_disabled_cache() {
    let mut cache = DnsCache::new(0);
    assert!(!cache.is_enabled());
    cache.insert("example.com", QTYPE_A, response_bytes(1), 60_000, 0);
    assert!(cache.lookup("example.com", QTYPE_A, 0).is_none());
}

#[test]
fn test_insert_and_lookup() {
    let mut cache = DnsCache::new(100);
    let msg = response_bytes(7);

    cache.insert("example.com.", QTYPE_A, msg.clone(), 60_000, 0);

    let cached = cache.lookup("example.com.", QTYPE_A, 1_000);
    assert!(cached.is_some());
    assert_eq!(cached.unwrap(), msg);
}

#[test]
fn test_case_insensitive() {
    let mut cache = DnsCache::new(100);
    let msg = response_bytes(9);

    cache.insert("Example.COM.", QTYPE_A, msg, 60_000, 0);
    assert!(cache.lookup("example.com.", QTYPE_A, 1_000).is_some());
}

#[test]
fn test_expired_entry_removed() {
    let mut cache = DnsCache::new(100);
    let msg = response_bytes(3);

    cache.insert("example.com.", QTYPE_A, msg, 1, 0);

    // five milliseconds later the entry has expired
    assert!(cache.lookup("example.com.", QTYPE_A, 5).is_none());
}

#[test]
fn test_different_qtypes() {
    let mut cache = DnsCache::new(100);
    let msg = response_bytes(4);

    cache.insert("example.com.", QTYPE_A, msg, 60_000, 0);
    assert!(cache.lookup("example.com.", QTYPE_A, 1_000).is_some());
    assert!(cache.lookup("example.com.", QTYPE_AAAA, 1_000).is_none());
}

#[test]
fn test_clear() {
    let mut cache = DnsCache::new(100);
    let msg = response_bytes(5);

    cache.insert("example.com.", QTYPE_A, msg, 60_000, 0);
    cache.clear();
    assert!(cache.lookup("example.com.", QTYPE_A, 0).is_none());
}

#[test]
fn test_capacity_sweep() {
    let mut cache = DnsCache::new(2);

    // Insert with very short TTL so they expire
    cache.insert("a.com.", QTYPE_A, response_bytes(1), 1, 0);
    cache.insert("b.com.", QTYPE_A, response_bytes(2), 1, 0);

    // Five milliseconds later, this should trigger a sweep of the expired
    // entries and succeed
    cache.insert("c.com.", QTYPE_A, response_bytes(3), 60_000, 5);
    assert!(cache.lookup("c.com.", QTYPE_A, 6).is_some());
}

#[test]
fn full_cache_drops_new_insert() {
    let mut cache = DnsCache::new(2);
    cache.insert("a.com.", QTYPE_A, response_bytes(1), 60_000, 0);
    cache.insert("b.com.", QTYPE_A, response_bytes(2), 60_000, 0);

    // both live entries survive; the newcomer is dropped
    cache.insert("c.com.", QTYPE_A, response_bytes(3), 60_000, 1);
    assert!(cache.lookup("c.com.", QTYPE_A, 2).is_none());
    assert!(cache.lookup("a.com.", QTYPE_A, 2).is_some());
    assert!(cache.lookup("b.com.", QTYPE_A, 2).is_some());
}

#[test]
fn upsert_refreshes_existing_entry() {
    let mut cache = DnsCache::new(1);
    cache.insert("a.com.", QTYPE_A, response_bytes(1), 1_000, 0);
    // at capacity, but the key exists: the entry is refreshed in place
    cache.insert("a.com.", QTYPE_A, response_bytes(2), 1_000, 500);
    let got = cache.lookup("a.com.", QTYPE_A, 1_200);
    assert_eq!(got.unwrap(), response_bytes(2));
}
