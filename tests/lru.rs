use structures::lru::LruCache;

#[test]
fn lru_new() {
    let cache = LruCache::<(), ()>::with_capacity(2);
    assert_eq!(cache.is_empty(), true);
    assert_eq!(cache.len(), 0);
}

#[test]
fn insert() {
    let mut cache = LruCache::with_capacity(2);
    assert_eq!(cache.contains(&"k".to_string()), false);
    assert_eq!(cache.peek(&"k".to_string()), None);
    assert_eq!(cache.insert("k".to_string(), "v".to_string()), None);
    assert_eq!(cache.contains(&"k".to_string()), true);
    assert_eq!(cache.peek(&"k".to_string()), Some(&"v".to_string()));
}

#[test]
fn insert_override() {
    let mut cache = LruCache::with_capacity(2);
    assert_eq!(cache.insert(1, 11), None);
    assert_eq!(cache.insert(1, 12), Some(11));
    assert_eq!(cache.len(), 1);
    assert_eq!(cache.peek(&1), Some(&12));
}

#[test]
fn insert_bounded() {
    let mut cache = LruCache::with_capacity(2);
    cache.insert(1, 11);
    cache.insert(2, 22);
    cache.insert(3, 33);
    assert_eq!(cache.len(), 2);
    assert_eq!(cache.peek(&1), None);
    assert_eq!(cache.peek(&2), Some(&22));
    assert_eq!(cache.peek(&3), Some(&33));
}

#[test]
fn insert_refresh() {
    let mut cache = LruCache::with_capacity(2);
    cache.insert(1, 11);
    cache.insert(2, 22);
    cache.insert(1, 11);
    cache.insert(3, 33);
    assert_eq!(cache.len(), 2);
    assert_eq!(cache.peek(&1), Some(&11));
    assert_eq!(cache.peek(&2), None);
    assert_eq!(cache.peek(&3), Some(&33));
}

#[test]
fn get_refresh() {
    let mut cache = LruCache::with_capacity(2);
    cache.insert(1, 11);
    cache.insert(2, 22);
    assert_eq!(cache.get(&1), Some(&11));
    cache.insert(3, 33);
    assert_eq!(cache.len(), 2);
    assert_eq!(cache.peek(&1), Some(&11));
    assert_eq!(cache.peek(&2), None);
    assert_eq!(cache.peek(&3), Some(&33));
}

#[test]
fn remove() {
    let mut cache = LruCache::with_capacity(2);
    assert_eq!(cache.remove(&1), None);
    assert_eq!(cache.len(), 0);
    assert_eq!(cache.insert(1, 11), None);
    assert_eq!(cache.len(), 1);
    assert_eq!(cache.remove(&1), Some(11));
    assert_eq!(cache.len(), 0);
    assert_eq!(cache.remove(&1), None);
    assert_eq!(cache.len(), 0);
}

#[test]
fn filling_past_capacity_evicts_the_first_key() {
    let mut cache = LruCache::with_capacity(3);
    for k in 0..4u64 {
        assert_eq!(cache.insert(k, k * 10), None);
        assert!(cache.len() <= cache.capacity());
    }
    assert_eq!(cache.len(), 3);
    assert!(!cache.contains(&0));
    assert!(cache.contains(&1));
    assert!(cache.contains(&2));
    assert!(cache.contains(&3));
}

#[test]
fn peek_and_contains_do_not_touch() {
    let mut touched = LruCache::with_capacity(2);
    let mut plain = LruCache::with_capacity(2);
    for cache in [&mut touched, &mut plain] {
        cache.insert(1, 11);
        cache.insert(2, 22);
    }
    assert_eq!(touched.peek(&1), Some(&11));
    assert!(touched.contains(&1));
    touched.insert(3, 33);
    plain.insert(3, 33);
    for cache in [&touched, &plain] {
        assert_eq!(cache.peek(&1), None);
        assert_eq!(cache.peek(&2), Some(&22));
        assert_eq!(cache.peek(&3), Some(&33));
    }
}

#[test]
fn removing_an_absent_key_keeps_the_size() {
    let mut cache = LruCache::with_capacity(2);
    cache.insert(1, 11);
    assert_eq!(cache.remove(&2), None);
    assert_eq!(cache.len(), 1);
    assert_eq!(cache.peek(&1), Some(&11));
}

#[test]
fn capacity_zero_keeps_nothing() {
    let mut cache = LruCache::with_capacity(0);
    assert_eq!(cache.insert(1, 11), None);
    assert_eq!(cache.len(), 0);
    assert!(cache.is_empty());
    assert_eq!(cache.peek(&1), None);
    assert_eq!(cache.insert(1, 12), None);
    assert_eq!(cache.get(&1), None);
}

#[test]
fn get_mut_changes_the_value_and_touches() {
    let mut cache = LruCache::with_capacity(2);
    cache.insert(1, 11);
    cache.insert(2, 22);
    if let Some(v) = cache.get_mut(&1) {
        *v = 111;
    }
    assert_eq!(cache.get_mut(&9), None);
    cache.insert(3, 33);
    assert_eq!(cache.peek(&1), Some(&111));
    assert_eq!(cache.peek(&2), None);
}

#[test]
fn removed_key_frees_room() {
    let mut cache = LruCache::with_capacity(2);
    cache.insert(1, 11);
    cache.insert(2, 22);
    assert_eq!(cache.remove(&1), Some(11));
    cache.insert(3, 33);
    assert_eq!(cache.len(), 2);
    assert_eq!(cache.peek(&2), Some(&22));
    assert_eq!(cache.peek(&3), Some(&33));
}
