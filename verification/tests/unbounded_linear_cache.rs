use proximity::unbounded_linear_cache::UnboundedLinearCache;

fn tol() -> u32 {
    1e-8f32.to_bits()
}

#[test]
fn identity_always_matches() {
    let mut ulc: UnboundedLinearCache<i16, u8> = UnboundedLinearCache::new(tol());
    ulc.insert(42, 7);
    for k in 0..100i16 {
        ulc.insert(k, 0);
    }
    assert_eq!(ulc.find(&42), Some(7)); // the exact entry inserted first wins
}

#[test]
fn start_always_matches_exactly() {
    let mut ulc: UnboundedLinearCache<i16, u8> = UnboundedLinearCache::new(tol());
    ulc.insert(-3, 9);
    ulc.insert(100, 1);
    ulc.insert(101, 2);
    assert_eq!(ulc.len(), 3);
    assert_eq!(ulc.find(&-3), Some(9));
}

#[test]
fn middle_always_matches() {
    let mut ulc: UnboundedLinearCache<i16, u8> = UnboundedLinearCache::new(tol());
    ulc.insert(1, 1);
    ulc.insert(2, 2);
    ulc.insert(50, 3);
    ulc.insert(60, 4);
    assert_eq!(ulc.len(), 4);
    assert!(ulc.find(&50).is_some());
}

#[test]
fn miss_when_nothing_is_close() {
    let mut ulc: UnboundedLinearCache<i16, u8> = UnboundedLinearCache::with_initial_capacity(tol(), 16);
    assert!(ulc.is_empty());
    ulc.insert(1, 1);
    assert_eq!(ulc.find(&2), None);
}

#[test]
fn first_match_wins_not_nearest() {
    // the unbounded cache returns the first key within tolerance, scanning in
    // insertion order, even when a later key is closer
    let wide = 10.0f32.to_bits();
    let mut ulc: UnboundedLinearCache<i16, u8> = UnboundedLinearCache::new(wide);
    ulc.insert(10, 1);
    ulc.insert(13, 2);
    assert_eq!(ulc.find(&13), Some(1));
}
