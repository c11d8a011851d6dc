//! The cache that forgets what was not used for longest.

use goat_db::utils::shared_lru::{SharedLruCache, SharedLruMetricsOptions, SharedLruOptions};

#[test]
fn shared_lru_basic_insert_get() {
    let mut cache = SharedLruCache::new(
        SharedLruOptions::default()
            .with_max_entries(2)
            .with_shards(1),
    );
    cache.insert("a", 10);
    cache.insert("b", 20);

    assert_eq!(cache.get(&"a"), Some(10));
    assert_eq!(cache.get(&"b"), Some(20));
    assert_eq!(cache.get(&"c"), None);
}

#[test]
fn shared_lru_evicts_lru_entry() {
    let mut cache = SharedLruCache::new(
        SharedLruOptions::default()
            .with_max_entries(2)
            .with_shards(1),
    );
    cache.insert("a", 10);
    cache.insert("b", 20);
    cache.get(&"a");
    cache.insert("c", 30);

    assert_eq!(cache.get(&"a"), Some(10));
    assert_eq!(cache.get(&"b"), None);
    assert_eq!(cache.get(&"c"), Some(30));
}

#[test]
fn shared_lru_respects_charge_limit() {
    let options = SharedLruOptions::default()
        .with_max_entries(10)
        .with_max_charge(3)
        .with_shards(1)
        .with_weigher(|_k: &&str, v: &usize| *v);
    let mut cache = SharedLruCache::new(options);
    cache.insert("a", 1);
    cache.insert("b", 1);
    cache.insert("c", 1);
    cache.insert("d", 1);

    assert_eq!(cache.len(), 3);
    assert_eq!(cache.charge(), 3);
}

#[test]
fn shared_lru_metrics_toggle() {
    let metrics = SharedLruMetricsOptions {
        hits: true,
        misses: false,
        inserts: true,
        updates: true,
        evictions: true,
        removals: true,
    };
    let options = SharedLruOptions::default()
        .with_max_entries(1)
        .with_shards(1)
        .with_metrics(metrics);
    let mut cache = SharedLruCache::new(options);
    cache.insert("a", 1);
    cache.get(&"a");
    cache.get(&"missing");
    cache.insert("b", 2);
    cache.remove(&"b");

    let stats = cache.metrics();
    assert_eq!(stats.hits, 1);
    assert_eq!(stats.misses, 0);
    assert_eq!(stats.inserts, 2);
    assert_eq!(stats.evictions, 1);
    assert_eq!(stats.removals, 1);
}
