use lib::project5::lru::LRUCache;

#[test]
fn lru_doc_example_evicts_the_least_recently_used() {
    let mut cache: LRUCache<u32, &str, 2> = LRUCache::new();
    cache.put(1, "a");
    cache.put(2, "b");
    assert_eq!(cache.get(1).map(|v| *v), Some("a"));
    cache.put(3, "c");
    assert!(cache.get(2).is_none());
    assert_eq!(cache.get(1).map(|v| *v), Some("a"));
    assert_eq!(cache.get(3).map(|v| *v), Some("c"));
}

#[test]
fn lru_put_replaces_and_refreshes() {
    let mut cache: LRUCache<u32, u32, 2> = LRUCache::new();
    cache.put(1, 10);
    cache.put(2, 20);
    cache.put(1, 11);
    cache.put(3, 30);
    assert!(cache.get(2).is_none());
    assert_eq!(cache.get(1).map(|v| *v), Some(11));
    assert_eq!(cache.get(3).map(|v| *v), Some(30));
}

#[test]
fn lru_get_gives_a_writable_value() {
    let mut cache: LRUCache<u32, u32, 4> = LRUCache::new();
    cache.put(7, 1);
    if let Some(v) = cache.get(7) {
        *v = 99;
    }
    assert_eq!(cache.get(7).map(|v| *v), Some(99));
    assert!(cache.get(8).is_none());
}

#[test]
fn lru_capacity_one_keeps_the_last_key() {
    let mut cache: LRUCache<u32, u32, 1> = LRUCache::new();
    for k in 0..10 {
        cache.put(k, k * 2);
    }
    for k in 0..9 {
        assert!(cache.get(k).is_none());
    }
    assert_eq!(cache.get(9).map(|v| *v), Some(18));
}

#[test]
fn lru_remove_returns_the_value() {
    let mut cache: LRUCache<u32, u32, 3> = LRUCache::new();
    cache.put(1, 10);
    cache.put(2, 20);
    cache.put(3, 30);
    assert_eq!(cache.remove(&2), Some(20));
    assert_eq!(cache.remove(&2), None);
    cache.put(4, 40);
    assert_eq!(cache.get(1).map(|v| *v), Some(10));
    assert_eq!(cache.get(3).map(|v| *v), Some(30));
    assert_eq!(cache.get(4).map(|v| *v), Some(40));
}

#[test]
fn lru_remove_of_head_and_tail() {
    let mut cache: LRUCache<u32, u32, 3> = LRUCache::new();
    cache.put(1, 10);
    cache.put(2, 20);
    cache.put(3, 30);
    assert_eq!(cache.remove(&1), Some(10));
    assert_eq!(cache.remove(&3), Some(30));
    cache.put(5, 50);
    cache.put(6, 60);
    cache.put(7, 70);
    assert!(cache.get(2).is_none());
    assert_eq!(cache.get(5).map(|v| *v), Some(50));
}

#[test]
fn lru_get_or_insert_with_inserts_once() {
    let mut cache: LRUCache<u32, u32, 2> = LRUCache::new();
    let v: Result<&mut u32, ()> = cache.get_or_insert_with(1, || Ok(100));
    assert_eq!(v.map(|v| *v), Ok(100));
    let v: Result<&mut u32, ()> = cache.get_or_insert_with(1, || Ok(200));
    assert_eq!(v.map(|v| *v), Ok(100));
    let v: Result<&mut u32, &str> = cache.get_or_insert_with(2, || Err("no"));
    assert_eq!(v.map(|v| *v), Err("no"));
    assert!(cache.get(2).is_none());
}

#[test]
fn lru_retain_keeps_what_the_predicate_accepts() {
    let mut cache: LRUCache<u32, u32, 8> = LRUCache::new();
    for k in 0..6 {
        cache.put(k, k * 10);
    }
    cache.retain(|k, v| (k % 2 == 0, v));
    for k in 0..6 {
        if k % 2 == 0 {
            assert_eq!(cache.get(k).map(|v| *v), Some(k * 10));
        } else {
            assert!(cache.get(k).is_none());
        }
    }
}

#[test]
fn lru_retain_updates_the_values_it_keeps() {
    let mut cache: LRUCache<u32, u32, 8> = LRUCache::new();
    for k in 0..6 {
        cache.put(k, k);
    }
    cache.retain(|k, v| (*k < 3, v + 100));
    for k in 0..6 {
        if k < 3 {
            assert_eq!(cache.get(k).map(|v| *v), Some(k + 100));
        } else {
            assert!(cache.get(k).is_none());
        }
    }
}

#[test]
fn lru_iter_mut_rewrites_every_value() {
    let mut cache: LRUCache<u32, u32, 8> = LRUCache::new();
    for k in 0..4 {
        cache.put(k, k);
    }
    cache.iter_mut(|k, v| v + k + 1);
    for k in 0..4 {
        assert_eq!(cache.get(k).map(|v| *v), Some(2 * k + 1));
    }
}
