//! Tests of the legacy map: the unbalanced tree over a circular buffer.

use pma_index::CacheObliviousBTreeMap;

#[test]
fn it_works() {
    let mut map = CacheObliviousBTreeMap::new();
    map.insert(5, "Hello");
    map.insert(3, "World");
    map.insert(2, "!");

    assert_eq!(map.get(5), Some("Hello"));
    assert_eq!(map.get(4), None);
    assert_eq!(map.get(3), Some("World"));
    assert_eq!(map.get(2), Some("!"));
}

#[test]
fn empty_map_finds_nothing() {
    let map: CacheObliviousBTreeMap<&str> = CacheObliviousBTreeMap::new();
    assert_eq!(map.get(1), None);
    assert_eq!(map.get(0), None);
}

#[test]
fn reinserting_a_key_hands_back_the_latest_value() {
    let mut map = CacheObliviousBTreeMap::new();
    map.insert(5, "first");
    map.insert(5, "second");
    assert_eq!(map.get(5), Some("second"));
}

#[test]
fn descending_inserts_are_all_found() {
    let mut map = CacheObliviousBTreeMap::new();
    map.insert(9, 90);
    map.insert(7, 70);
    map.insert(5, 50);
    map.insert(3, 30);
    assert_eq!(map.get(9), Some(90));
    assert_eq!(map.get(7), Some(70));
    assert_eq!(map.get(5), Some(50));
    assert_eq!(map.get(3), Some(30));
    assert_eq!(map.get(4), None);
}
