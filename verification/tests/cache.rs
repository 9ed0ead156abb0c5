use wasm_dispatch::program::cache::LruCache;
use wasm_dispatch::program::session::cache::ModuleCache;
use wasm_dispatch::program::Error;

#[test]
fn test_basic_eviction() {
    let mut cache = LruCache::new(2);

    cache.put("k1".to_string(), vec![1; 5]);
    cache.put("k2".to_string(), vec![2; 10]);

    cache.put("k3".to_string(), vec![3; 2]);

    assert!(cache.get("k1").is_some());
    assert!(cache.get("k2").is_none());
    assert!(cache.get("k3").is_some());
}

#[test]
fn test_update_existing_key() {
    let mut cache = LruCache::new(2);

    cache.put("k1".to_string(), vec![1]);
    assert_eq!(cache.get("k1"), Some(&[1][..]));

    cache.put("k1".to_string(), vec![1, 2, 3]);
    assert_eq!(cache.get("k1"), Some(&[1, 2, 3][..]));
}

#[test]
fn test_access_count_affects_eviction() {
    let mut cache = LruCache::new(2);

    cache.put("k1".to_string(), vec![1; 5]);
    cache.put("k2".to_string(), vec![2; 10]);

    cache.get("k2");
    cache.get("k2");

    cache.put("k3".to_string(), vec![3; 2]);

    assert!(cache.get("k1").is_none());
    assert!(cache.get("k2").is_some());
    assert!(cache.get("k3").is_some());
}

#[test]
fn cache_test_basic_eviction() {
    let mut cache = ModuleCache::new(15);

    cache.put("k1", 5).unwrap();
    cache.put_slice("k1", 0, &[1; 5]).unwrap();

    cache.put("k2", 10).unwrap();
    cache.put_slice("k2", 0, &[2; 10]).unwrap();

    cache.put("k3", 2).unwrap();
    cache.put_slice("k3", 0, &[3; 2]).unwrap();

    assert!(cache.get("k1").is_some());
    assert!(cache.get("k2").is_none());
    assert!(cache.get("k3").is_some());
}

#[test]
fn cache_test_update_existing_key() {
    let mut cache = ModuleCache::new(10);

    cache.put("k1", 1).unwrap();
    cache.put_slice("k1", 0, &[1]).unwrap();
    assert_eq!(cache.get("k1"), Some(&[1][..]));

    cache.put("k1", 3).unwrap();
    cache.put_slice("k1", 0, &[1, 2, 3]).unwrap();
    assert_eq!(cache.get("k1"), Some(&[1, 2, 3][..]));
}

#[test]
fn cache_test_access_count_affects_eviction() {
    let mut cache = ModuleCache::new(15);

    cache.put("k1", 5).unwrap();
    cache.put_slice("k1", 0, &[1; 5]).unwrap();

    cache.put("k2", 10).unwrap();
    cache.put_slice("k2", 0, &[2; 10]).unwrap();

    cache.get("k2");
    cache.get("k2");

    cache.put("k3", 2).unwrap();
    cache.put_slice("k3", 0, &[3; 2]).unwrap();

    assert!(cache.get("k1").is_none());
    assert!(cache.get("k2").is_some());
    assert!(cache.get("k3").is_some());
}

#[test]
fn a_new_slot_is_zero_filled_and_of_the_declared_size() {
    let mut cache = ModuleCache::new(32);
    assert_eq!(cache.put("m", 8), Ok(8));
    assert_eq!(cache.get("m"), Some(&[0u8; 8][..]));
    assert!(cache.contains_key("m"));
    assert!(!cache.contains_key("n"));
    assert_eq!(cache.keys(), vec!["m".to_string()]);
}

#[test]
fn a_slot_larger_than_the_capacity_fails_after_evicting_everything() {
    let mut cache = ModuleCache::new(15);
    cache.put("k1", 5).unwrap();
    cache.put("k2", 10).unwrap();
    assert_eq!(cache.put("big", 16), Err(Error::CacheFull(0, 15)));
    assert!(!cache.contains_key("k1"));
    assert!(!cache.contains_key("k2"));
    assert!(!cache.contains_key("big"));
    assert_eq!(cache.capacity(), 15);
}

#[test]
fn eviction_stops_as_soon_as_the_new_slot_fits() {
    let mut cache = ModuleCache::new(15);
    cache.put("a", 5).unwrap();
    cache.put("b", 5).unwrap();
    cache.put("c", 5).unwrap();
    cache.get("b");
    cache.get("c");
    cache.get("c");
    assert_eq!(cache.put("d", 5), Ok(5));
    assert_eq!(cache.keys(), vec!["b".to_string(), "c".to_string(), "d".to_string()]);
}

#[test]
fn among_slots_of_equal_worth_the_earliest_is_evicted() {
    let mut cache = ModuleCache::new(10);
    cache.put("first", 5).unwrap();
    cache.put("second", 5).unwrap();
    cache.put("third", 5).unwrap();
    assert_eq!(cache.keys(), vec!["second".to_string(), "third".to_string()]);
}

#[test]
fn writing_outside_a_slot_fails_and_changes_nothing() {
    let mut cache = ModuleCache::new(10);
    cache.put("m", 4).unwrap();
    assert_eq!(cache.put_slice("m", 2, &[9, 9, 9]), Err(Error::CacheFull(4, 10)));
    assert_eq!(cache.put_slice("m", usize::MAX, &[9]), Err(Error::CacheFull(4, 10)));
    assert_eq!(
        cache.put_slice("absent", 0, &[1]),
        Err(Error::CacheEntryNotFound("absent".to_string()))
    );
    assert_eq!(cache.put_slice("m", 1, &[7, 8]), Ok(2));
    assert_eq!(cache.get("m"), Some(&[0, 7, 8, 0][..]));
}

#[test]
fn the_slots_never_take_more_than_the_capacity() {
    let mut cache = ModuleCache::new(20);
    let sizes = [7usize, 9, 3, 20, 1, 12, 21, 0, 5, 8, 8, 8];
    for (round, size) in sizes.iter().enumerate() {
        let name = format!("m{}", round % 5);
        let fitted = cache.put(&name, *size).is_ok();
        assert_eq!(fitted, *size <= 20);
        if round % 3 == 0 {
            cache.get("m0");
        }
        let mut total = 0;
        for key in cache.keys() {
            total += cache.get(&key).unwrap().len();
        }
        assert!(total <= 20, "{} bytes after round {}", total, round);
    }
}

#[test]
fn removing_a_slot_frees_its_bytes() {
    let mut cache = ModuleCache::new(10);
    cache.put("a", 6).unwrap();
    cache.remove("a");
    cache.remove("a");
    assert!(!cache.contains_key("a"));
    assert_eq!(cache.put("b", 10), Ok(10));
}

#[test]
fn lru_cache_remove_and_capacity_zero() {
    let mut cache = LruCache::new(0);
    cache.put("a".to_string(), vec![1]);
    assert_eq!(cache.get("a"), Some(&[1][..]));
    cache.put("b".to_string(), vec![2]);
    assert!(cache.get("a").is_none());
    cache.remove("b");
    assert!(cache.get("b").is_none());
}
