use feature_base::store::page::Page;
use feature_base::store::split::cut_bounds;
use feature_base::tools::named::position;
use feature_base::tools::ordered_map::{OrderedMap, Place};
use feature_base::tools::text::{compare_bytes, compare_keys, string_of_bytes, KeyOrder};

#[test]
fn an_ordered_map_keeps_its_keys_in_order() {
    let mut map: OrderedMap<&str> = OrderedMap::new();
    assert_eq!(map.insert(30, "c"), None);
    assert_eq!(map.insert(10, "a"), None);
    assert_eq!(map.insert(20, "b"), None);
    assert_eq!(map.insert(20, "B"), Some("b"));
    assert_eq!(map.len(), 3);
    assert_eq!((map.key_at(0), map.key_at(1), map.key_at(2)), (10, 20, 30));
    assert_eq!(map.get(20), Some(&"B"));
    assert_eq!(map.get(25), None);
    assert!(map.contains_key(30));
    assert!(matches!(map.search(20), Place::At(1)));
    assert!(matches!(map.search(25), Place::Before(2)));
    assert!(matches!(map.search(5), Place::Before(0)));
    assert!(matches!(map.search(35), Place::Before(3)));
    assert_eq!(map.floor_index(9), None);
    assert_eq!(map.floor_index(10), Some(0));
    assert_eq!(map.floor_index(29), Some(1));
    assert_eq!(map.floor_index(u64::MAX), Some(2));
    *map.value_mut(0) = "A";
    assert_eq!(map.value_at(0), &"A");
    assert_eq!(map.remove(20), Some("B"));
    assert_eq!(map.remove(20), None);
    assert_eq!(map.remove_at(0), (10, "A"));
    map.insert_at(0, 5, "e");
    assert_eq!((map.key_at(0), map.key_at(1)), (5, 30));
}

#[test]
fn keys_are_ordered_by_their_bytes() {
    assert_eq!(compare_keys("a", "b"), KeyOrder::Before);
    assert_eq!(compare_keys("b", "a"), KeyOrder::After);
    assert_eq!(compare_keys("a", "a"), KeyOrder::Same);
    assert_eq!(compare_keys("a", "ab"), KeyOrder::Before);
    assert_eq!(compare_keys("", "a"), KeyOrder::Before);
    assert_eq!(compare_keys("", ""), KeyOrder::Same);
    assert_eq!(compare_keys("xxx杨", "xxx杨2"), KeyOrder::Before);
    assert_eq!(compare_keys("z", "杨"), KeyOrder::Before);
    assert_eq!(compare_bytes(&[1, 2, 3], &[1, 2]), KeyOrder::After);
    assert_eq!(compare_bytes(&[1, 255], &[2]), KeyOrder::Before);
}

#[test]
fn bytes_spell_a_string_or_none() {
    assert_eq!(string_of_bytes("k杨".as_bytes().to_vec()).unwrap(), "k杨");
    assert_eq!(string_of_bytes(vec![]).unwrap(), "");
    assert_eq!(string_of_bytes(vec![0xff]).unwrap_err().code, 10000);
    assert_eq!(string_of_bytes(vec![0xe6, 0x9d]).unwrap_err().code, 10000);
}

#[test]
fn the_first_of_a_name_is_found() {
    let items = vec![("a".to_string(), 1), ("b".to_string(), 2), ("a".to_string(), 3)];
    assert_eq!(position(&items, "a"), Some(0));
    assert_eq!(position(&items, "b"), Some(1));
    assert_eq!(position(&items, "c"), None);
}

#[test]
fn a_page_covers_the_hashes_of_its_range() {
    let page = Page::new(0, 0, 10, 20);
    assert!(!page.covers(9));
    assert!(page.covers(10));
    assert!(page.covers(19));
    assert!(!page.covers(20));
    let empty = Page::new(0, 0, 20, 20);
    assert!(!empty.covers(20));
}

#[test]
fn a_page_is_cut_behind_more_than_half_a_page() {
    let mut groups: OrderedMap<u64> = OrderedMap::new();
    groups.insert(40, 5);
    groups.insert(10, 20000);
    groups.insert(30, 20000);
    groups.insert(20, 20000);
    assert_eq!(cut_bounds(&groups, 3, 100), vec![3, 30]);

    let mut exact: OrderedMap<u64> = OrderedMap::new();
    exact.insert(10, 32768 - 34);
    exact.insert(20, 1);
    exact.insert(30, 1);
    assert_eq!(cut_bounds(&exact, 0, 100), vec![0, 30]);

    let mut large: OrderedMap<u64> = OrderedMap::new();
    large.insert(10, 40000);
    large.insert(20, 40000);
    large.insert(30, u64::MAX);
    large.insert(40, 1);
    assert_eq!(cut_bounds(&large, 0, 100), vec![0, 20, 30, 40]);

    let none: OrderedMap<u64> = OrderedMap::new();
    assert_eq!(cut_bounds(&none, 7, 8), vec![7]);
}
