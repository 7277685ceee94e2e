use dns_server::cache::lru_cache::LruDnsCache;
use dns_server::cache::{CacheKey, CachedDnsRecord};
use dns_server::protocol::DnsPacket;

#[test]
fn test_cache_basic_operations() {
    let mut cache = LruDnsCache::new(100);
    let key = CacheKey::new("example.com".to_string(), 1);
    let packet = DnsPacket::new();
    let record = CachedDnsRecord::new(packet, 300);

    // Initially miss
    assert_eq!(cache.get(&key), None);
    assert_eq!(cache.miss_count(), 1);

    // Store and retrieve
    cache.set(key.clone(), record.clone());
    assert_eq!(cache.size(), 1);

    let retrieved = cache.get(&key);
    assert!(retrieved.is_some());
    assert_eq!(cache.hit_count(), 1);
}

#[test]
fn test_cache_expiration() {
    let mut cache = LruDnsCache::new(100);
    let key = CacheKey::new("example.com".to_string(), 1);
    let packet = DnsPacket::new();
    let record = CachedDnsRecord::new(packet, 0); // Immediate expiration

    cache.set(key.clone(), record);

    // Should be expired immediately
    assert_eq!(cache.get(&key), None);
}

#[test]
fn test_cache_lru_eviction() {
    let mut cache = LruDnsCache::new(2);
    let packet = DnsPacket::new();

    // Fill the cache
    for i in 0..3 {
        let key = CacheKey::new(format!("example{}.com", i), 1);
        let record = CachedDnsRecord::new(packet.clone(), 300);
        cache.set(key, record);
    }

    // Cache should have evicted the oldest entry
    assert_eq!(cache.size(), 2);
}

#[test]
fn test_cleanup_removes_expired() {
    let mut cache = LruDnsCache::new(100);
    let packet = DnsPacket::new();

    // Add 5 expired entries (TTL=0) and 5 valid entries (TTL=3600)
    for i in 0..5 {
        let key = CacheKey::new(format!("expired{}.com", i), 1);
        let record = CachedDnsRecord::new(packet.clone(), 0);
        cache.set(key, record);
    }

    for i in 0..5 {
        let key = CacheKey::new(format!("valid{}.com", i), 1);
        let record = CachedDnsRecord::new(packet.clone(), 3600);
        cache.set(key, record);
    }

    assert_eq!(cache.size(), 10);

    // Run cleanup
    let removed = cache.cleanup();
    assert_eq!(removed, 5);
    assert_eq!(cache.size(), 5);
}

#[test]
fn test_cleanup_keeps_valid() {
    let mut cache = LruDnsCache::new(100);
    let key = CacheKey::new("example.com".to_string(), 1);
    let packet = DnsPacket::new();
    let record = CachedDnsRecord::new(packet, 3600);

    cache.set(key.clone(), record);
    assert_eq!(cache.size(), 1);

    // Cleanup should not remove valid entries
    let removed = cache.cleanup();
    assert_eq!(removed, 0);
    assert_eq!(cache.size(), 1);

    // Entry should still be retrievable
    assert!(cache.get(&key).is_some());
}

#[test]
fn test_cleanup_empty_cache() {
    let mut cache = LruDnsCache::new(100);

    // Should not panic on empty cache
    let removed = cache.cleanup();
    assert_eq!(removed, 0);
    assert_eq!(cache.size(), 0);
}

// ===== Further cases, at fixed times =====

fn record_at(ttl: u32, now: u64) -> CachedDnsRecord {
    CachedDnsRecord::new_at(DnsPacket::new(), ttl, now)
}

#[test]
fn get_at_hit_and_expiry() {
    let mut cache = LruDnsCache::new(10);
    let key = CacheKey::new("a.com".to_string(), 1);
    let r = record_at(60, 1000);
    cache.set(key.clone(), r);
    assert_eq!(cache.get_at(&key, 1059), Some(r));
    assert_eq!(cache.get_at(&key, 1060), None);
    assert_eq!(cache.hit_count(), 1);
    assert_eq!(cache.miss_count(), 1);
    // an expired record stays until cleaned up
    assert_eq!(cache.size(), 1);
    assert_eq!(cache.cleanup_at(1060), 1);
    assert_eq!(cache.size(), 0);
}

#[test]
fn keys_differ_by_query_type() {
    let mut cache = LruDnsCache::new(10);
    let a = CacheKey::new("a.com".to_string(), 1);
    let mx = CacheKey::new("a.com".to_string(), 15);
    cache.set(a.clone(), record_at(60, 0));
    assert_eq!(cache.get_at(&mx, 0), None);
    assert!(cache.get_at(&a, 0).is_some());
}

#[test]
fn eviction_removes_least_recently_used() {
    let mut cache = LruDnsCache::new(2);
    let k1 = CacheKey::new("one".to_string(), 1);
    let k2 = CacheKey::new("two".to_string(), 1);
    let k3 = CacheKey::new("three".to_string(), 1);
    cache.set(k1.clone(), record_at(100, 0));
    cache.set(k2.clone(), record_at(100, 0));
    // using k1 makes k2 the least recently used
    assert!(cache.get_at(&k1, 1).is_some());
    cache.set(k3.clone(), record_at(100, 0));
    assert_eq!(cache.size(), 2);
    assert!(cache.get_at(&k2, 1).is_none());
    assert!(cache.get_at(&k1, 1).is_some());
    assert!(cache.get_at(&k3, 1).is_some());
}

#[test]
fn set_replaces_record_under_same_key() {
    let mut cache = LruDnsCache::new(2);
    let k = CacheKey::new("same".to_string(), 1);
    cache.set(k.clone(), record_at(10, 0));
    cache.set(k.clone(), record_at(20, 5));
    assert_eq!(cache.size(), 1);
    assert_eq!(cache.get_at(&k, 6), Some(record_at(20, 5)));
}

#[test]
fn zero_capacity_turns_caching_off() {
    let mut cache = LruDnsCache::new(0);
    let k = CacheKey::new("d.com".to_string(), 1);
    for i in 0..5u64 {
        cache.set(CacheKey::new(format!("d{}", i), 1), record_at(100, i));
    }
    cache.set(k.clone(), record_at(100, 0));
    assert_eq!(cache.size(), 0);
    assert_eq!(cache.get_at(&k, 1), None);
    assert_eq!(cache.get(&k), None);
    assert_eq!(cache.hit_count(), 0);
    assert_eq!(cache.miss_count(), 2);
    assert_eq!(cache.cleanup_at(1000), 0);
}

#[test]
fn size_after_distinct_keys_is_least_of_count_and_capacity() {
    for capacity in 1..6usize {
        let mut cache = LruDnsCache::new(capacity);
        for n in 1..10usize {
            cache.set(CacheKey::new(format!("k{}", n), 1), record_at(100, 0));
            assert_eq!(cache.size(), n.min(capacity));
        }
        // storing under a key the cache has keeps the size
        cache.set(CacheKey::new("k9".to_string(), 1), record_at(100, 0));
        assert_eq!(cache.size(), capacity.min(9));
    }
}

#[test]
fn clear_empties_and_keeps_counts() {
    let mut cache = LruDnsCache::new(5);
    let k = CacheKey::new("x".to_string(), 1);
    cache.set(k.clone(), record_at(10, 0));
    assert!(cache.get_at(&k, 0).is_some());
    cache.clear();
    assert_eq!(cache.size(), 0);
    assert_eq!(cache.hit_count(), 1);
    assert!(cache.get_at(&k, 0).is_none());
    assert_eq!(cache.miss_count(), 1);
}

#[test]
fn record_expiry_boundary() {
    let r = record_at(30, 100);
    assert!(!r.is_expired_at(129));
    assert!(r.is_expired_at(130));
    let r = record_at(u32::MAX, u64::MAX - 1);
    assert!(!r.is_expired_at(u64::MAX));
}

#[test]
fn lookup_finds_exactly_the_fresh_stored_record() {
    let mut cache = LruDnsCache::new(4);
    let a = CacheKey::new("a.com".to_string(), 1);
    let b = CacheKey::new("b.com".to_string(), 1);
    let ra = record_at(10, 100);
    cache.set(a.clone(), ra);
    cache.set(b.clone(), record_at(5, 100));
    assert_eq!(cache.get_at(&a, 105), Some(ra));
    // b's record has expired: the lookup misses but the entry stays
    assert_eq!(cache.get_at(&b, 105), None);
    assert_eq!(cache.size(), 2);
    assert_eq!(cache.hit_count(), 1);
    assert_eq!(cache.miss_count(), 1);
}
