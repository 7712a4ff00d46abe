use proximity::fifo_cache::FifoCache;
use proximity::lru_cache::LRUCache;
use proximity::lsh_cache::LshCache;

fn tol() -> u32 {
    1e-8f32.to_bits()
}

fn sig(bits: [bool; 4]) -> Vec<bool> {
    bits.to_vec()
}

#[test]
fn empty_cache_finds_nothing() {
    let mut cache: LshCache<i16, i32, FifoCache<i16, i32>> = LshCache::new(4, 2);
    assert!(cache.is_empty());
    assert_eq!(cache.find(&sig([true, false, true, false]), &1), None);
}

#[test]
fn insert_then_find_in_same_bucket() {
    let mut cache: LshCache<i16, i32, FifoCache<i16, i32>> = LshCache::new(4, 2);
    let s = sig([true, false, true, false]);
    cache.insert(&s, 1, 11, tol());
    assert_eq!(cache.find(&s, &1), Some(11));
    assert_eq!(cache.len(), 1);
}

#[test]
fn different_signature_misses() {
    let mut cache: LshCache<i16, i32, FifoCache<i16, i32>> = LshCache::new(4, 2);
    cache.insert(&sig([true, true, true, true]), 1, 11, tol());
    // same key, other bucket: the dispatcher never looks outside the bucket
    assert_eq!(cache.find(&sig([false, true, true, true]), &1), None);
}

#[test]
fn multiple_values_in_bucket_fifo() {
    let wide = 100.0f32.to_bits();
    let mut cache: LshCache<i16, i32, FifoCache<i16, i32>> = LshCache::new(4, 2);
    let s = sig([false, false, true, true]);
    cache.insert(&s, 10, 1, wide);
    cache.insert(&s, 20, 2, wide);
    cache.insert(&s, 30, 3, wide); // bucket is full: evicts key 10, the oldest
    assert_eq!(cache.find(&s, &10), Some(2)); // 20 is the nearest remaining
    assert_eq!(cache.find(&s, &30), Some(3));
    assert_eq!(cache.len(), 2);
}

#[test]
fn lru_bucket_find_updates_recency() {
    let wide = 1.5f32.to_bits();
    let mut cache: LshCache<i16, i32, LRUCache<i16, i32>> = LshCache::new(4, 2);
    let s = sig([true, true, false, false]);
    cache.insert(&s, 10, 1, wide);
    cache.insert(&s, 20, 2, wide);
    assert_eq!(cache.find(&s, &10), Some(1)); // promotes key 10
    cache.insert(&s, 30, 3, wide); // evicts key 20, the least recently used
    assert_eq!(cache.find(&s, &20), None);
    assert_eq!(cache.find(&s, &10), Some(1));
    assert_eq!(cache.find(&s, &30), Some(3));
}

#[test]
fn len_sums_bucket_sizes() {
    let mut cache: LshCache<i16, i32, FifoCache<i16, i32>> = LshCache::new(4, 2);
    let s1 = sig([true, false, false, false]);
    let s2 = sig([false, true, false, false]);
    let s3 = sig([false, false, true, false]);
    cache.insert(&s1, 1, 1, tol());
    cache.insert(&s1, 2, 2, tol());
    cache.insert(&s2, 3, 3, tol());
    cache.insert(&s3, 4, 4, tol());
    assert_eq!(cache.len(), 4);
    cache.insert(&s1, 5, 5, tol()); // bucket for s1 is full: eviction, no growth
    assert_eq!(cache.len(), 4);
    assert!(!cache.is_empty());
}

#[test]
fn insert_never_decreases_size() {
    let mut cache: LshCache<i16, i32, FifoCache<i16, i32>> = LshCache::new(4, 3);
    let sigs = [
        sig([true, false, false, false]),
        sig([false, true, false, false]),
        sig([true, true, false, false]),
    ];
    let mut prev: usize = 0;
    for i in 0..30i16 {
        let s = &sigs[(i % 3) as usize];
        cache.insert(s, i, i as i32, tol());
        let now = cache.len();
        assert!(now == prev || now == prev + 1);
        assert!(now >= prev);
        prev = now;
    }
    // three buckets of capacity three can hold at most nine lines
    assert!(cache.len() <= 9);
}
