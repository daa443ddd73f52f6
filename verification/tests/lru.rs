use lepiter::lru::{cache_limit, LruCache};

fn filled(limit: usize, keys: &[&str]) -> LruCache<usize> {
    let mut cache = LruCache::new(limit);
    for (i, key) in keys.iter().enumerate() {
        cache.insert(key.to_string(), i);
    }
    cache
}

#[test]
fn the_value_used_longest_ago_is_forgotten() {
    let cache = filled(2, &["a", "b", "c"]);
    assert_eq!(cache.len(), 2);
    assert!(!cache.contains_key("a"));
    assert_eq!(cache.peek("b"), Some(&1));
    assert_eq!(cache.peek("c"), Some(&2));
}

#[test]
fn touching_is_a_use_and_peeking_is_none() {
    let mut cache = filled(2, &["a", "b"]);
    assert_eq!(cache.peek("a"), Some(&0));
    assert!(cache.touch("a"));
    assert!(!cache.touch("z"));
    cache.insert("c".to_string(), 7);
    assert!(cache.contains_key("a") && !cache.contains_key("b"));
}

#[test]
fn a_key_that_is_there_gets_its_new_value() {
    let mut cache = filled(2, &["a", "b"]);
    cache.insert("a".to_string(), 9);
    assert_eq!((cache.len(), cache.peek("a")), (2, Some(&9)));
    cache.insert("c".to_string(), 7);
    assert!(cache.contains_key("a") && !cache.contains_key("b"));
}

#[test]
fn there_is_always_room_for_one() {
    let cache = filled(0, &["a", "b"]);
    assert_eq!((cache.len(), cache.peek("b")), (1, Some(&1)));
}

#[test]
fn settings_limit_a_cache() {
    assert_eq!(cache_limit(None, 128), 128);
    assert_eq!(cache_limit(Some("3"), 128), 3);
    assert_eq!(cache_limit(Some("0"), 128), 128);
    assert_eq!(cache_limit(Some("many"), 128), 128);
}
