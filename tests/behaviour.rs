use multicache::{MultiCache, MultiCacheItem};
use std::sync::Arc;

#[test]
fn reput_replaces_and_keeps_one_charge() {
    let mut cache = MultiCache::new(200);

    cache.put(1, "a", 100);
    cache.put(1, "b", 100);
    cache.put(1, "c", 100);

    assert_eq!(cache.get(&1), Some(Arc::new("c")));
    assert_eq!(cache.total_bytes(), 100);
}

#[test]
fn reput_moves_key_to_most_recent() {
    let mut cache = MultiCache::new(200);

    cache.put(0, 0, 100);
    cache.put(1, 1, 100);
    cache.put(0, 5, 100);
    cache.put(2, 2, 100);

    assert_eq!(cache.get(&1), None);
    assert_eq!(cache.get(&0), Some(Arc::new(5)));
    assert_eq!(cache.get(&2), Some(Arc::new(2)));
}

#[test]
fn remove_is_idempotent_and_reclaims_bytes() {
    let mut cache = MultiCache::new(200);

    cache.put(0, 0, 100);
    cache.put(1, 1, 30);
    assert_eq!(cache.total_bytes(), 130);

    assert_eq!(cache.remove(&0), Some(Arc::new(0)));
    assert_eq!(cache.total_bytes(), 30);
    assert_eq!(cache.remove(&0), None);
    assert_eq!(cache.total_bytes(), 30);
    assert_eq!(cache.get(&0), None);
    assert_eq!(cache.remove(&7), None);
}

#[test]
fn alias_resolves_then_dangles_after_eviction() {
    let mut cache = MultiCache::new(200);

    cache.put(0, 0, 100);
    cache.alias(0, 1);
    assert_eq!(cache.get(&1), Some(Arc::new(0)));
    assert_eq!(cache.contains_key(&1), true);

    cache.put(2, 2, 100);
    cache.put(3, 3, 100);

    assert_eq!(cache.get(&0), None);
    assert_eq!(cache.get(&1), None);
    assert_eq!(cache.contains_key(&1), false);
}

#[test]
fn alias_get_refreshes_canonical_entry() {
    let mut cache = MultiCache::new(200);

    cache.put(0, 0, 100);
    cache.put(1, 1, 100);
    cache.alias(0, 9);
    assert_eq!(cache.get(&9), Some(Arc::new(0)));
    cache.put(2, 2, 100);

    assert_eq!(cache.get(&0), Some(Arc::new(0)));
    assert_eq!(cache.get(&1), None);
}

#[test]
fn alias_chain_is_followed() {
    let mut cache = MultiCache::new(200);

    cache.put(0, 10, 100);
    cache.alias(0, 1);
    cache.alias(1, 2);

    assert_eq!(cache.get(&2), Some(Arc::new(10)));
    assert_eq!(cache.contains_key(&2), true);
}

#[test]
fn alias_made_before_entry_resolves_later() {
    let mut cache = MultiCache::new(200);

    cache.alias(4, 5);
    assert_eq!(cache.get(&5), None);

    cache.put(4, 44, 10);
    assert_eq!(cache.get(&5), Some(Arc::new(44)));
}

#[test]
fn alias_cycle_resolves_to_nothing() {
    let mut cache: MultiCache<i32> = MultiCache::new(200);

    cache.alias(1, 2);
    cache.alias(2, 1);

    assert_eq!(cache.get(&1), None);
    assert_eq!(cache.get(&2), None);
    assert_eq!(cache.contains_key(&1), false);
}

#[test]
fn alias_onto_itself_is_ignored() {
    let mut cache = MultiCache::new(200);

    cache.alias(3, 3);
    assert_eq!(cache.get(&3), None);
    cache.put(3, 30, 10);
    assert_eq!(cache.get(&3), Some(Arc::new(30)));
}

#[test]
fn direct_key_shadows_alias() {
    let mut cache = MultiCache::new(200);

    cache.put(0, 0, 50);
    cache.put(1, 1, 50);
    cache.alias(0, 1);

    assert_eq!(cache.get(&1), Some(Arc::new(1)));
}

#[test]
fn oversized_singleton_is_kept_then_evicted() {
    let mut cache = MultiCache::new(50);

    cache.put(0, 0, 100);
    assert_eq!(cache.get(&0), Some(Arc::new(0)));
    assert_eq!(cache.total_bytes(), 100);

    cache.put(1, 1, 10);
    assert_eq!(cache.get(&0), None);
    assert_eq!(cache.get(&1), Some(Arc::new(1)));
    assert_eq!(cache.total_bytes(), 10);
}

#[test]
fn zero_budget_keeps_only_last_entry() {
    let mut cache = MultiCache::new(0);

    cache.put(0, 0, 1);
    cache.put(1, 1, 1);

    assert_eq!(cache.get(&0), None);
    assert_eq!(cache.get(&1), Some(Arc::new(1)));
    assert_eq!(cache.total_bytes(), 1);
}

#[test]
fn zero_sized_entries_are_never_evicted_by_size() {
    let mut cache = MultiCache::new(0);

    cache.put(0, 0, 0);
    cache.put(1, 1, 0);

    assert_eq!(cache.get(&0), Some(Arc::new(0)));
    assert_eq!(cache.get(&1), Some(Arc::new(1)));
    assert_eq!(cache.total_bytes(), 0);
}

#[test]
fn eviction_takes_several_oldest_entries() {
    let mut cache = MultiCache::new(100);

    cache.put(0, 0, 30);
    cache.put(1, 1, 30);
    cache.put(2, 2, 30);
    cache.put(3, 3, 70);

    assert_eq!(cache.contains_key(&0), false);
    assert_eq!(cache.contains_key(&1), false);
    assert_eq!(cache.contains_key(&2), true);
    assert_eq!(cache.contains_key(&3), true);
    assert_eq!(cache.total_bytes(), 100);
}

#[test]
fn total_bytes_tracks_sum_of_indexed_sizes() {
    let mut cache = MultiCache::new(100);
    let ops: [(u64, usize); 8] = [(0, 40), (1, 25), (2, 50), (1, 10), (3, 5), (0, 60), (4, 120), (2, 3)];
    let mut last_size: [usize; 5] = [0; 5];

    for (i, (k, b)) in ops.iter().enumerate() {
        cache.put(*k, i, *b);
        last_size[*k as usize] = *b;
        if i % 3 == 2 {
            cache.remove(&3);
        }
        let mut sum = 0usize;
        for key in 0u64..5 {
            if cache.contains_key(&key) {
                sum += last_size[key as usize];
            }
        }
        assert_eq!(cache.total_bytes(), sum);
        assert!(cache.total_bytes() <= 100 || sum == *b);
    }
}

#[test]
fn item_keeps_value_and_size() {
    let item = MultiCacheItem::new(Arc::new(7), 12);
    assert_eq!(item.val, Arc::new(7));
    assert_eq!(item.bytes, 12);
}
