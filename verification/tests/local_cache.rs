use lumindd::{LocalCache, NodeId};

#[test]
fn basic_insert_lookup() {
    let mut cache = LocalCache::new();
    let a = NodeId::one();
    let b = NodeId::zero();

    cache.insert(1, a, b, NodeId::zero(), a);
    assert_eq!(cache.lookup(1, a, b, NodeId::zero()), Some(a));
    assert_eq!(cache.lookup(1, b, a, NodeId::zero()), None);
}

#[test]
fn lookup_miss() {
    let mut cache = LocalCache::new();
    assert_eq!(cache.lookup(0, NodeId::one(), NodeId::zero(), NodeId::zero()), None);
}

#[test]
fn overwrite() {
    let mut cache = LocalCache::new();
    let a = NodeId::one();
    let b = NodeId::zero();

    cache.insert(0, a, a, NodeId::zero(), b);
    assert_eq!(cache.lookup(0, a, a, NodeId::zero()), Some(b));

    cache.insert(0, a, a, NodeId::zero(), a);
    assert_eq!(cache.lookup(0, a, a, NodeId::zero()), Some(a));

    assert_eq!(cache.len(), 1);
}

#[test]
fn with_capacity() {
    let cache = LocalCache::with_capacity(128);
    assert_eq!(cache.len(), 0);
    assert!(cache.is_empty());
}

#[test]
fn different_ops_same_operands() {
    let mut cache = LocalCache::new();
    let a = NodeId::one();
    let b = NodeId::zero();

    cache.insert(0, a, b, NodeId::zero(), a);
    cache.insert(1, a, b, NodeId::zero(), b);

    assert_eq!(cache.lookup(0, a, b, NodeId::zero()), Some(a));
    assert_eq!(cache.lookup(1, a, b, NodeId::zero()), Some(b));
    assert_eq!(cache.len(), 2);
}

#[test]
fn default_trait() {
    let cache = LocalCache::default();
    assert!(cache.is_empty());
}

#[test]
fn local_cache_clear_resets() {
    let mut cache = LocalCache::new();
    cache.insert(0, NodeId::one(), NodeId::zero(), NodeId::zero(), NodeId::one());
    cache.insert(1, NodeId::one(), NodeId::zero(), NodeId::zero(), NodeId::zero());
    assert_eq!(cache.len(), 2);
    cache.clear();
    assert_eq!(cache.len(), 0);
    assert!(cache.is_empty());
    assert_eq!(cache.total_lookups(), 0);
    assert_eq!(cache.total_hits(), 0);
}

#[test]
fn local_cache_statistics() {
    let mut cache = LocalCache::new();
    let a = NodeId::one();
    let b = NodeId::zero();
    cache.insert(0, a, b, NodeId::zero(), a);
    cache.lookup(0, a, b, NodeId::zero());
    cache.lookup(0, b, a, NodeId::zero());
    assert_eq!(cache.total_lookups(), 2);
    assert_eq!(cache.total_hits(), 1);
}

#[test]
fn local_cache_distinguishes_polarity_and_index() {
    let mut cache = LocalCache::new();
    let x = NodeId::from_raw(7, false);
    let nx = NodeId::from_raw(7, true);
    let y = NodeId::from_raw(8, false);
    cache.insert(3, x, y, y, x);
    assert_eq!(cache.lookup(3, nx, y, y), None);
    assert_eq!(cache.lookup(3, x, y, y), Some(x));
    assert_eq!(cache.lookup(3, x, y, x), None);
    assert_eq!(cache.lookup(4, x, y, y), None);
}

/// The hit rate as the application layer computes it.
fn hit_rate(cache: &LocalCache) -> f64 {
    if cache.total_lookups() == 0 {
        0.0
    } else {
        cache.total_hits() as f64 / cache.total_lookups() as f64
    }
}

#[test]
fn clear_resets() {
    let mut cache = LocalCache::new();
    cache.insert(0, NodeId::one(), NodeId::zero(), NodeId::zero(), NodeId::one());
    cache.insert(1, NodeId::one(), NodeId::zero(), NodeId::zero(), NodeId::zero());
    assert_eq!(cache.len(), 2);

    cache.clear();
    assert_eq!(cache.len(), 0);
    assert!(cache.is_empty());
    assert_eq!(hit_rate(&cache), 0.0);
}

#[test]
fn hit_rate_tracking() {
    let mut cache = LocalCache::new();
    let a = NodeId::one();
    let b = NodeId::zero();

    cache.insert(0, a, b, NodeId::zero(), a);

    // 1 hit
    cache.lookup(0, a, b, NodeId::zero());
    // 1 miss
    cache.lookup(0, b, a, NodeId::zero());

    assert_eq!(cache.total_lookups(), 2);
    assert_eq!(cache.total_hits(), 1);
    assert!((hit_rate(&cache) - 0.5).abs() < f64::EPSILON);
}

#[test]
fn empty_hit_rate() {
    let cache = LocalCache::new();
    assert_eq!(hit_rate(&cache), 0.0);
}
