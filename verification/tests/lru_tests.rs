use lru_exercise::lru::LRU;

#[test]
fn basic() {
    let mut cache = LRU::new(2);
    assert!(cache.export().is_empty());

    cache.set("a", 1);
    cache.set("b", 2);
    assert_eq!(vec![("b", 2), ("a", 1)], cache.export());

    assert_eq!(cache.get(&"a"), Some(1));
    assert_eq!(vec![("a", 1), ("b", 2)], cache.export());

    assert_eq!(cache.get(&"b"), Some(2));
    assert_eq!(vec![("b", 2), ("a", 1)], cache.export());

    cache.set("a", 3);
    assert_eq!(vec![("a", 3), ("b", 2)], cache.export());

    assert_eq!(cache.get(&"b"), Some(2));
    assert_eq!(vec![("b", 2), ("a", 3)], cache.export());

    cache.set("a", 4);
    assert_eq!(vec![("a", 4), ("b", 2)], cache.export());

    cache.set("b", 5);
    assert_eq!(vec![("b", 5), ("a", 4)], cache.export());

    // At capacity - last is removed.
    cache.set("c", 6);
    assert_eq!(vec![("c", 6), ("b", 5)], cache.export());

    cache.del(&"c");
    assert_eq!(vec![("b", 5)], cache.export());

    cache.del(&"b");
    assert!(cache.export().is_empty());
}

#[test]
fn zero_cap() {
    let mut cache = LRU::new(0);
    assert!(cache.export().is_empty());
    cache.set("a", 1);
    cache.set("b", 2);
    cache.set("c", 3);
    assert!(cache.export().is_empty());
}
