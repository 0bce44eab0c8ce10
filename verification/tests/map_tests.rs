use recommender::map::HashMap;

#[test]
fn insert() {
    let mut map = HashMap::new();
    assert_eq!(map.insert(37, "a"), None);
    assert_eq!(map.is_empty(), false);

    map.insert(37, "b");
    assert_eq!(map.insert(37, "c"), Some("b"));
    assert_eq!(*map.index(&37), "c");
}

#[test]
fn get_none() {
    let mut map: HashMap<usize, usize> = HashMap::new();
    assert_eq!(map.get(&420), None);
}

#[test]
fn bunk_insert() {
    let mut map = HashMap::new();

    for idx in 0..10000 {
        map.insert(idx, idx);
    }

    assert_eq!(map.get(&9999), Some(&9999));
    assert_eq!(map.len(), 10000);
}

#[test]
fn correct_returned_value() {
    let mut map = HashMap::new();
    map.insert("Hello", 5);
    map.insert("Goodbye", 6);

    assert_eq!(map.get("Hello"), Some(&5));
    assert_eq!(map.get("Goodbye"), Some(&6));
}

#[test]
fn new_map_is_empty() {
    let map: HashMap<u32, u32> = HashMap::new();
    assert!(map.is_empty());
    assert_eq!(map.len(), 0);
    assert_eq!(map.get(&0), None);
}

#[test]
fn insert_returns_previous_and_keeps_len() {
    let mut map = HashMap::new();
    assert_eq!(map.insert(1u32, 10u64), None);
    assert_eq!(map.insert(2u32, 20u64), None);
    assert_eq!(map.len(), 2);
    assert_eq!(map.insert(1u32, 11u64), Some(10));
    assert_eq!(map.len(), 2);
    assert_eq!(map.get(&1), Some(&11));
    assert_eq!(map.get(&2), Some(&20));
    assert_eq!(*map.index(&2), 20);
}

#[test]
fn read_after_write_leaves_other_keys() {
    let mut map = HashMap::new();
    for k in 0u64..50 {
        map.insert(k, k * 3);
    }
    map.insert(7u64, 1000);
    assert_eq!(map.get(&7), Some(&1000));
    for k in 0u64..50 {
        if k != 7 {
            assert_eq!(map.get(&k), Some(&(k * 3)));
        }
    }
    assert_eq!(map.get(&50), None);
    assert_eq!(map.len(), 50);
}

#[test]
fn growth_keeps_every_entry() {
    // enough keys to double the table several times
    let mut map = HashMap::new();
    for k in 0u32..1000 {
        assert_eq!(map.insert(k.wrapping_mul(2654435761), k), None);
    }
    assert_eq!(map.len(), 1000);
    for k in 0u32..1000 {
        assert_eq!(map.get(&k.wrapping_mul(2654435761)), Some(&k));
    }
}

#[test]
fn string_keys_are_compared_by_content() {
    let owned = String::from("client-42");
    let mut map: HashMap<&str, usize> = HashMap::new();
    map.insert("client-42", 1);
    map.insert("client-43", 2);
    map.insert("ção", 3);
    assert_eq!(map.get(owned.as_str()), Some(&1));
    assert_eq!(map.get("client-4"), None);
    assert_eq!(map.get("ção"), Some(&3));
    assert_eq!(map.insert(owned.as_str(), 5), Some(1));
    assert_eq!(map.len(), 3);
}

#[test]
fn negative_and_usize_keys() {
    let mut map = HashMap::new();
    map.insert(-1i32, "minus one");
    map.insert(1i32, "one");
    assert_eq!(map.get(&-1), Some(&"minus one"));
    assert_eq!(map.get(&1), Some(&"one"));
    let mut sizes: HashMap<usize, bool> = HashMap::new();
    sizes.insert(usize::MAX, true);
    assert_eq!(sizes.get(&usize::MAX), Some(&true));
    assert_eq!(sizes.get(&0), None);
}
