use blacklist::snapshot::cache_to_hashmap;
use cached::{Cached, SizedCache};

#[test]
fn snapshot_pairs_keys_with_values() {
    let mut cache: SizedCache<u64, u64> = SizedCache::with_size(5);
    cache.cache_set(1, 10);
    cache.cache_set(2, 20);
    let m = cache_to_hashmap(&cache);
    assert_eq!(m.len(), 2);
    assert_eq!(m.get(&1), Some(&10));
    assert_eq!(m.get(&2), Some(&20));
}

#[test]
fn snapshot_of_empty_cache_is_empty() {
    let cache: SizedCache<u64, u64> = SizedCache::with_size(3);
    let m = cache_to_hashmap(&cache);
    assert!(m.is_empty());
}

#[test]
fn snapshot_after_eviction_holds_surviving_keys() {
    let mut cache: SizedCache<u64, u64> = SizedCache::with_size(2);
    cache.cache_set(1, 10);
    cache.cache_set(2, 20);
    cache.cache_set(3, 30);
    let m = cache_to_hashmap(&cache);
    assert_eq!(m.len(), 2);
    assert_eq!(m.get(&1), None);
    assert_eq!(m.get(&2), Some(&20));
    assert_eq!(m.get(&3), Some(&30));
}

#[test]
fn snapshot_sees_updated_value() {
    let mut cache: SizedCache<u64, u64> = SizedCache::with_size(4);
    cache.cache_set(7, 1);
    cache.cache_set(7, 2);
    let m = cache_to_hashmap(&cache);
    assert_eq!(m.len(), 1);
    assert_eq!(m.get(&7), Some(&2));
}

#[test]
fn snapshot_does_not_disturb_the_cache() {
    let mut cache: SizedCache<u64, u64> = SizedCache::with_size(4);
    cache.cache_set(1, 10);
    cache.cache_set(2, 20);
    let first = cache_to_hashmap(&cache);
    let second = cache_to_hashmap(&cache);
    assert_eq!(first, second);
    assert_eq!(cache.cache_size(), 2);
}
