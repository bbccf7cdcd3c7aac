use linked_collections::hashmap::HashMap;

#[test]
fn put_get() {
    let mut map: HashMap<i32, i32> = HashMap::new();
    map.put(1, 1);
    assert_eq!(map.len(), 1);
    map.put(2, 3);
    assert_eq!(map.len(), 2);
    map.put(4, 5);
    assert_eq!(map.len(), 3);
    assert_eq!(*map.get(&1).unwrap(), 1);
    assert_eq!(*map.get(&2).unwrap(), 3);
    assert_eq!(*map.get(&4).unwrap(), 5);
}

#[test]
fn rewrite_value() {
    let mut map: HashMap<i32, i32> = HashMap::new();
    map.put(1, 1);
    map.put(2, 3);
    map.put(4, 5);
    assert_eq!(map.len(), 3);
    assert_eq!(*map.get(&1).unwrap(), 1);
    assert_eq!(*map.get(&2).unwrap(), 3);
    assert_eq!(*map.get(&4).unwrap(), 5);
    map.put(1, 2);
    assert_eq!(map.len(), 3);
    assert_eq!(*map.get(&1).unwrap(), 2);
    assert_eq!(*map.get(&2).unwrap(), 3);
    assert_eq!(*map.get(&4).unwrap(), 5);
    map.put(1, 10);
    assert_eq!(map.len(), 3);
    assert_eq!(*map.get(&1).unwrap(), 10);
    assert_eq!(*map.get(&2).unwrap(), 3);
    assert_eq!(*map.get(&4).unwrap(), 5);
}

#[test]
fn remove() {
    let mut map: HashMap<i32, i32> = HashMap::new();
    map.put(1, 1);
    map.put(2, 3);
    map.put(4, 5);
    assert_eq!(map.len(), 3);
    assert_eq!(*map.get(&1).unwrap(), 1);
    assert_eq!(*map.get(&2).unwrap(), 3);
    assert_eq!(*map.get(&4).unwrap(), 5);
    let result = map.remove(&1);
    assert_eq!(map.len(), 2);
    assert_eq!(result.unwrap(), 1);
    assert_eq!(map.get(&1), None);
    assert_eq!(*map.get(&2).unwrap(), 3);
    assert_eq!(*map.get(&4).unwrap(), 5);
    let second_remove = map.remove(&1);
    assert_eq!(map.len(), 2);
    assert_eq!(second_remove, None);
    let result = map.remove(&2);
    assert_eq!(map.len(), 1);
    assert_eq!(result.unwrap(), 3);
    assert_eq!(map.get(&1), None);
    assert_eq!(map.get(&2), None);
    assert_eq!(*map.get(&4).unwrap(), 5);
    let second_remove = map.remove(&2);
    assert_eq!(map.len(), 1);
    assert_eq!(second_remove, None);
    let result = map.remove(&4);
    assert_eq!(map.len(), 0);
    assert_eq!(result.unwrap(), 5);
    assert_eq!(map.get(&1), None);
    assert_eq!(map.get(&2), None);
    assert_eq!(map.get(&4), None);
    assert_eq!(map.len(), 0);
}

#[test]
fn single_bucket() {
    let mut map: HashMap<i32, i32> = HashMap::with_capacity(1);
    map.put(1, 1);
    map.put(2, 3);
    map.put(4, 5);
    assert_eq!(map.len(), 3);
    assert_eq!(*map.get(&1).unwrap(), 1);
    assert_eq!(*map.get(&2).unwrap(), 3);
    assert_eq!(*map.get(&4).unwrap(), 5);
    assert_eq!(map.remove(&1).unwrap(), 1);
    assert_eq!(map.remove(&1), None);
    assert_eq!(map.len(), 2);
    assert_eq!(map.remove(&2).unwrap(), 3);
    assert_eq!(map.remove(&2), None);
    assert_eq!(map.len(), 1);
    assert_eq!(map.remove(&4).unwrap(), 5);
    assert_eq!(map.remove(&4), None);
    assert_eq!(map.len(), 0);
}

#[test]
fn keys() {
    let mut map: HashMap<String, i32> = HashMap::with_capacity(10);
    map.put(String::from("key1"), 1);
    map.put(String::from("key2"), 2);
    map.put(String::from("key3"), 3);
    map.put(String::from("key4"), 4);
    let keys = map.keys();
    // every key exactly once, in unspecified order
    assert_eq!(keys.len(), 4);
    for expected in ["key1", "key2", "key3", "key4"] {
        assert_eq!(
            keys.iter().filter(|k| k.as_str() == expected).count(),
            1,
            "{} must occur exactly once",
            expected
        );
    }
}
