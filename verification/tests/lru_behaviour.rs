use lru_exercise::lru::LRU;

#[test]
fn get_after_set_returns_the_value() {
    let mut cache = LRU::new(3);
    cache.set(7u64, "seven");
    assert_eq!(Some("seven"), cache.get(&7));
    cache.set(7u64, "SEVEN");
    assert_eq!(Some("SEVEN"), cache.get(&7));
}

#[test]
fn get_of_a_missing_key_changes_nothing() {
    let mut cache = LRU::new(2);
    cache.set(1u64, 10);
    assert_eq!(None, cache.get(&2));
    assert_eq!(vec![(1, 10)], cache.export());
}

#[test]
fn never_more_than_capacity() {
    let mut cache = LRU::new(3);
    for k in 0u64..10 {
        cache.set(k, k * 10);
        assert!(cache.export().len() <= 3);
    }
    assert_eq!(vec![(9, 90), (8, 80), (7, 70)], cache.export());
}

#[test]
fn eviction_takes_the_least_recently_used() {
    let mut cache = LRU::new(2);
    cache.set("a", 1);
    cache.set("b", 2);
    assert_eq!(Some(1), cache.get(&"a"));
    cache.set("c", 3);
    assert_eq!(vec![("c", 3), ("a", 1)], cache.export());
    assert_eq!(None, cache.get(&"b"));
}

#[test]
fn del_of_a_missing_key_changes_nothing() {
    let mut cache = LRU::new(2);
    cache.set("a", 1);
    cache.del(&"z");
    assert_eq!(vec![("a", 1)], cache.export());
}

#[test]
fn a_deleted_key_is_still_indexed() {
    let mut cache = LRU::new(2);
    cache.set("a", 1);
    cache.set("b", 2);
    cache.del(&"a");
    assert_eq!(vec![("b", 2)], cache.export());
    // The deleted entry still counts: a new key evicts "b".
    cache.set("c", 3);
    assert_eq!(vec![("c", 3)], cache.export());
    // A read brings the deleted entry back in front.
    assert_eq!(Some(1), cache.get(&"a"));
    assert_eq!(vec![("a", 1), ("c", 3)], cache.export());
    // Deleting twice is the same as once.
    cache.del(&"c");
    cache.del(&"c");
    assert_eq!(vec![("a", 1)], cache.export());
    cache.set("c", 30);
    assert_eq!(vec![("c", 30), ("a", 1)], cache.export());
}

#[test]
fn set_of_a_deleted_key_puts_it_back() {
    let mut cache = LRU::new(1);
    cache.set("a", 1);
    cache.del(&"a");
    assert!(cache.export().is_empty());
    cache.set("a", 2);
    assert_eq!(vec![("a", 2)], cache.export());
}

#[test]
fn exporting_twice_gives_the_same_entries_and_changes_nothing() {
    let mut cache: LRU<&str, String> = LRU::new(2);
    cache.set("a", String::from("one"));
    cache.set("b", String::from("two"));
    let first = cache.export();
    let second = cache.export();
    assert_eq!(first, second);
    assert_eq!(
        vec![("b", String::from("two")), ("a", String::from("one"))],
        first
    );
    cache.set("c", String::from("three"));
    assert_eq!(
        vec![("c", String::from("three")), ("b", String::from("two"))],
        cache.export()
    );
}
