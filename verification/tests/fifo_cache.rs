use proximity::approximate_cache::ApproximateCache;
use proximity::approximate_cache::DefaultApproximateCache;
use proximity::fifo_cache::FifoCache;
use proximity::lru_cache::LRUCache;

fn tol() -> u32 {
    1e-8f32.to_bits()
}

#[test]
fn test_fifo_cache_basic_operations() {
    let mut cache: FifoCache<i16, i16> = FifoCache::new(2);
    cache.insert(1, 1, tol()); // Cache is {1=1}
    cache.insert(2, 2, tol()); // Cache is {1=1, 2=2}
    assert_eq!(cache.find(&1), Some(1)); // Returns 1, Cache is {1=1, 2=2}
    cache.insert(3, 3, tol()); // Evicts key 1, Cache is {2=2, 3=3}
    assert_eq!(cache.find(&1), None); // Key 1 not found
    assert_eq!(cache.find(&2), Some(2)); // Returns 2
    assert_eq!(cache.find(&3), Some(3)); // Returns 3
}

#[test]
fn test_fifo_cache_eviction_order() {
    let mut cache: FifoCache<i16, i16> = FifoCache::new(3);
    cache.insert(1, 1, tol()); // Cache is {1=1}
    cache.insert(2, 2, tol()); // Cache is {1=1, 2=2}
    cache.insert(3, 3, tol()); // Cache is {1=1, 2=2, 3=3}
    cache.insert(4, 4, tol()); // Evicts key 1, Cache is {2=2, 3=3, 4=4}
    assert_eq!(cache.find(&1), None); // Key 1 not found
    assert_eq!(cache.find(&2), Some(2)); // Returns 2
    assert_eq!(cache.find(&3), Some(3)); // Returns 3
    assert_eq!(cache.find(&4), Some(4)); // Returns 4
}

#[test]
fn test_fifo_cache_overwrite() {
    let mut cache: FifoCache<i16, i16> = FifoCache::new(2);
    cache.insert(1, 1, tol()); // Cache is {1=1}
    cache.insert(2, 2, tol()); // Cache is {1=1, 2=2}
    cache.insert(1, 10, tol()); // Overwrites key 1, Cache is {2=2, 1=10}
    assert_eq!(cache.find(&1), Some(10)); // Returns 10
    cache.insert(3, 3, tol()); // Evicts key 2, Cache is {1=10, 3=3}
    assert_eq!(cache.find(&2), None); // Key 2 not found
    assert_eq!(cache.find(&3), Some(3)); // Returns 3
}

#[test]
fn test_fifo_cache_capacity_one() {
    let mut cache: FifoCache<i16, i16> = FifoCache::new(1);
    cache.insert(1, 1, tol()); // Cache is {1=1}
    assert_eq!(cache.find(&1), Some(1)); // Returns 1
    cache.insert(2, 2, tol()); // Evicts key 1, Cache is {2=2}
    assert_eq!(cache.find(&1), None); // Key 1 not found
    assert_eq!(cache.find(&2), Some(2)); // Returns 2
}

#[test]
fn fifo_find_is_idempotent() {
    let mut cache: FifoCache<i16, i16> = FifoCache::new(3);
    cache.insert(5, 50, 2.0f32.to_bits());
    cache.insert(7, 70, 2.0f32.to_bits());
    let first = cache.find(&6);
    let second = cache.find(&6);
    assert_eq!(first, second);
    assert_eq!(first, Some(50)); // ties go to the older entry
}

#[test]
fn fifo_len_counts_inserts_up_to_capacity() {
    let mut cache: FifoCache<i16, i16> = FifoCache::new(2);
    assert!(cache.is_empty());
    cache.insert(1, 1, tol());
    assert_eq!(cache.len(), 1);
    cache.insert(2, 2, tol());
    assert_eq!(cache.len(), 2);
    cache.insert(3, 3, tol());
    assert_eq!(cache.len(), 2); // eviction fired, size never decreases
}

#[test]
fn fifo_nearest_match_wins() {
    let wide = 10.0f32.to_bits();
    let mut cache: FifoCache<i16, i16> = FifoCache::new(3);
    cache.insert(10, 1, wide);
    cache.insert(14, 2, wide);
    cache.insert(100, 3, wide);
    // 13 is within tolerance of both 10 and 14; 14 is strictly closer
    assert_eq!(cache.find(&13), Some(2));
}

#[test]
fn fifo_infinite_tolerance_admits_all() {
    // a non-finite tolerance must not abort the scan
    let mut cache: FifoCache<i16, i16> = FifoCache::new(2);
    cache.insert(1, 1, f32::INFINITY.to_bits());
    assert_eq!(cache.find(&1), Some(1));
    assert_eq!(cache.find(&2), Some(1)); // any finite distance is below +inf
}

#[test]
fn batch_find_answers_each_query() {
    let wide = 2.0f32.to_bits();
    let mut cache: FifoCache<i16, i16> = FifoCache::new(3);
    cache.insert(10, 1, wide);
    cache.insert(20, 2, wide);
    let queries: Vec<i16> = vec![10, 11, 15, 20, 21];
    let answers = cache.batch_find(&queries);
    assert_eq!(answers, vec![Some(1), Some(1), None, Some(2), Some(2)]);
    assert_eq!(cache.len(), 2);
}

#[test]
fn from_capacity_builds_an_empty_cache() {
    let mut f: FifoCache<i16, i16> = FifoCache::from_capacity(2);
    let mut l: LRUCache<i16, i16> = LRUCache::from_capacity(2);
    assert!(f.is_empty());
    assert!(l.is_empty());
    f.insert(1, 1, tol());
    l.insert(1, 1, tol());
    assert_eq!(f.find(&1), Some(1));
    assert_eq!(l.find(&1), Some(1));
}
