use cs_learning::hash_map::{simple_hash, SimpleHashMap};

#[test]
fn test_insert_and_get() {
    let mut map = SimpleHashMap::new();
    map.insert("apple", 100);
    map.insert("banana", 200);

    assert_eq!(map.get(&"apple"), Some(&100));
    assert_eq!(map.get(&"banana"), Some(&200));
    assert_eq!(map.get(&"cherry"), None);
}

#[test]
fn test_update_value() {
    let mut map = SimpleHashMap::new();
    map.insert("key", 1);
    map.insert("key", 2);

    assert_eq!(map.get(&"key"), Some(&2));
    assert_eq!(map.len(), 1);
}

#[test]
fn test_remove() {
    let mut map = SimpleHashMap::new();
    map.insert("one", 1);
    map.insert("two", 2);

    assert_eq!(map.remove(&"one"), Some(1));
    assert_eq!(map.remove(&"one"), None);
    assert_eq!(map.get(&"one"), None);
    assert_eq!(map.get(&"two"), Some(&2));
    assert_eq!(map.len(), 1);
}

#[test]
fn test_contains_key() {
    let mut map = SimpleHashMap::new();
    map.insert("present", 5);

    assert!(map.contains_key(&"present"));
    assert!(!map.contains_key(&"absent"));
}

#[test]
fn test_growth_keeps_entries() {
    let mut map = SimpleHashMap::with_capacity(2);
    let keys = [
        "alpha", "beta", "gamma", "delta", "epsilon", "zeta", "eta", "theta", "iota", "kappa",
        "lambda", "mu", "nu", "xi", "omicron", "pi",
    ];
    for (i, key) in keys.iter().enumerate() {
        map.insert(key, i);
    }
    assert_eq!(map.len(), keys.len());
    for (i, key) in keys.iter().enumerate() {
        assert_eq!(map.get(key), Some(&i));
    }
}

#[test]
fn test_simple_hash_value() {
    // 'a' * 31^0 + 'b' * 31^1 + 'c' * 31^2 = 97 + 3038 + 95139
    assert_eq!(simple_hash("abc"), 98274);
    assert_eq!(simple_hash(""), 0);
    assert_eq!(simple_hash("A"), 65);
}
