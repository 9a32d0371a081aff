use structures::cache::lru::LRU;
use structures::cache::Cache;

#[test]
fn set_get() {
    let mut cache = LRU::new(2);
    assert_eq!(cache.set("k".to_string(), "v".to_string()), None);
    assert_eq!(cache.get(&"k".to_string()), Some(&"v".to_string()));
    assert_eq!(cache.get_without_refresh(&"k".to_string()), Some(&"v".to_string()));
}

#[test]
fn set_override() {
    let mut cache = LRU::new(2);
    assert_eq!(cache.set(1, 11), None);
    assert_eq!(cache.set(1, 12), Some(11));
    assert_eq!(cache.len(), 1);
    assert_eq!(cache.get(&1), Some(&12));
    assert_eq!(cache.get_without_refresh(&1), Some(&12));
}

#[test]
fn set_bounded() {
    let mut cache = LRU::new(2);
    cache.set(1, 11);
    cache.set(2, 22);
    cache.set(3, 33);
    assert_eq!(cache.len(), 2);
    assert_eq!(cache.get_without_refresh(&1), None);
    assert_eq!(cache.get_without_refresh(&2), Some(&22));
    assert_eq!(cache.get_without_refresh(&3), Some(&33));
}

#[test]
fn set_refresh() {
    let mut cache = LRU::new(2);
    cache.set(1, 11);
    cache.set(2, 22);
    cache.set(1, 11);
    cache.set(3, 33);
    assert_eq!(cache.len(), 2);
    assert_eq!(cache.get_without_refresh(&1), Some(&11));
    assert_eq!(cache.get_without_refresh(&2), None);
    assert_eq!(cache.get_without_refresh(&3), Some(&33));
}

#[test]
fn lru_get_refresh() {
    let mut cache = LRU::new(2);
    cache.set(1, 11);
    cache.set(2, 22);
    cache.get(&1);
    cache.set(3, 33);
    assert_eq!(cache.len(), 2);
    assert_eq!(cache.get_without_refresh(&1), Some(&11));
    assert_eq!(cache.get_without_refresh(&2), None);
    assert_eq!(cache.get_without_refresh(&3), Some(&33));
}

#[test]
fn lru_len() {
    let mut cache = LRU::new(2);
    assert_eq!(cache.is_empty(), true);
    assert_eq!(cache.is_full(), false);
    assert_eq!(cache.len(), 0);
    cache.set(1, 11);
    assert_eq!(cache.is_empty(), false);
    assert_eq!(cache.is_full(), false);
    assert_eq!(cache.len(), 1);
    cache.set(2, 22);
    assert_eq!(cache.is_empty(), false);
    assert_eq!(cache.is_full(), true);
    assert_eq!(cache.len(), 2);
    cache.set(3, 33);
    assert_eq!(cache.is_empty(), false);
    assert_eq!(cache.is_full(), true);
    assert_eq!(cache.len(), 2);
}

#[test]
fn lru_get_mut_then_set_keeps_the_touched_key() {
    let mut cache = LRU::new(2);
    cache.set(1, 11);
    cache.set(2, 22);
    if let Some(v) = cache.get_mut(&1) {
        *v += 1;
    }
    cache.set(3, 33);
    assert_eq!(cache.get_without_refresh(&1), Some(&12));
    assert_eq!(cache.get_without_refresh(&2), None);
}
