use hashtable::HashMap;

#[test]
fn insert() {
    let mut map = HashMap::new();
    assert_eq!(map.len(), 0);
    assert!(map.is_empty());
    map.insert("foo", 42);
    assert_eq!(map.len(), 1);
    assert!(!map.is_empty());
    assert!(map.contains_key(&"foo"));
    assert_eq!(map.remove(&"foo"), Some(42));
    assert_eq!(map.len(), 0);
    assert!(!map.contains_key(&"foo"));
}

#[test]
fn iter() {
    let mut map = HashMap::new();
    map.insert("foo", 42);
    map.insert("bar", 43);
    map.insert("baz", 44);
    map.insert("quox", 45);

    let mut it = map.iterate();
    while let Some((&k, &v)) = it.next() {
        match k {
            "foo" => assert_eq!(v, 42),
            "bar" => assert_eq!(v, 43),
            "baz" => assert_eq!(v, 44),
            "quox" => assert_eq!(v, 45),
            _ => unreachable!(),
        }
    }

    let mut count = 0;
    let mut it = map.iterate();
    while it.next().is_some() {
        count += 1;
    }
    assert_eq!(count, 4);
}

#[test]
fn round_trip() {
    let mut map = HashMap::new();
    assert_eq!(map.insert("alpha", 1), None);
    assert_eq!(map.insert("beta", 2), None);
    assert_eq!(map.get(&"alpha"), Some(&1));
    assert_eq!(map.get(&"beta"), Some(&2));
    // operations on other keys leave the binding alone
    map.remove(&"beta");
    assert_eq!(map.get(&"alpha"), Some(&1));
    assert_eq!(map.get(&"beta"), None);
}

#[test]
fn overwrite() {
    let mut map = HashMap::new();
    assert_eq!(map.insert("k", 1), None);
    let len_before = map.len();
    assert_eq!(map.insert("k", 2), Some(1));
    assert_eq!(map.get(&"k"), Some(&2));
    assert_eq!(map.len(), len_before);
}

#[test]
fn removal() {
    let mut map = HashMap::new();
    map.insert("present", 9);
    map.insert("other", 10);
    assert_eq!(map.remove(&"present"), Some(9));
    assert_eq!(map.get(&"present"), None);
    assert!(!map.contains_key(&"present"));
    assert_eq!(map.len(), 1);
    assert_eq!(map.remove(&"absent"), None);
    assert_eq!(map.len(), 1);
}

#[test]
fn count_tracks_operations() {
    let mut map = HashMap::new();
    assert_eq!(map.len(), 0);
    map.insert(1u64, "one");
    map.insert(2u64, "two");
    map.insert(3u64, "three");
    assert_eq!(map.len(), 3);
    map.insert(2u64, "TWO"); // overwrite: no change
    assert_eq!(map.len(), 3);
    map.remove(&3u64);
    assert_eq!(map.len(), 2);
    map.remove(&3u64); // absent: no change
    assert_eq!(map.len(), 2);
}

#[test]
fn resize_transparency() {
    let mut map = HashMap::new();
    for k in 0..1000u64 {
        map.insert(k, k * 7);
    }
    assert_eq!(map.len(), 1000);
    for k in 0..1000u64 {
        assert_eq!(map.get(&k), Some(&(k * 7)));
    }
}

#[test]
fn explicit_resize_keeps_contents() {
    let mut map = HashMap::new();
    map.insert("a", 1);
    map.insert("b", 2);
    map.resize();
    map.resize();
    assert_eq!(map.len(), 2);
    assert_eq!(map.get(&"a"), Some(&1));
    assert_eq!(map.get(&"b"), Some(&2));
}

#[test]
fn collisions_and_swap_removal() {
    // with integer keys, 0, 4, 8 and 12 share a chain once there are 4 buckets
    let mut map = HashMap::new();
    map.insert(0u64, 'a');
    map.insert(4u64, 'b');
    map.insert(8u64, 'c');
    map.insert(12u64, 'd');
    assert_eq!(map.remove(&4u64), Some('b'));
    assert_eq!(map.get(&0u64), Some(&'a'));
    assert_eq!(map.get(&8u64), Some(&'c'));
    assert_eq!(map.get(&12u64), Some(&'d'));
    assert_eq!(map.get(&4u64), None);
    assert_eq!(map.len(), 3);
}

#[test]
fn entry_or_insert() {
    let mut map = HashMap::new();
    let e = map.entry("k");
    let slot = e.or_insert(&mut map, 5);
    assert_eq!(*slot, 5);
    *slot += 1; // mutate in place through the returned reference
    assert_eq!(map.get(&"k"), Some(&6));
    // occupied: the existing value stays, the offered one is dropped
    let e = map.entry("k");
    let slot = e.or_insert(&mut map, 77);
    assert_eq!(*slot, 6);
    assert_eq!(map.get(&"k"), Some(&6));
    assert_eq!(map.len(), 1);
}

#[test]
fn entry_or_insert_with_lazy_producer() {
    let mut map = HashMap::new();
    map.insert("present", 1);

    let mut calls = 0;
    let e = map.entry("present");
    e.or_insert_with(&mut map, || {
        calls += 1;
        99
    });
    assert_eq!(calls, 0); // producer not invoked for a present key
    assert_eq!(map.get(&"present"), Some(&1));

    let e = map.entry("absent");
    let slot = e.or_insert_with(&mut map, || {
        calls += 1;
        99
    });
    assert_eq!(*slot, 99);
    assert_eq!(calls, 1); // invoked exactly once for an absent key
    assert_eq!(map.get(&"absent"), Some(&99));
}

#[test]
fn entry_or_default() {
    let mut map: HashMap<&str, u64> = HashMap::new();
    let e = map.entry("fresh");
    let slot = e.or_default(&mut map);
    assert_eq!(*slot, 0);
    *slot = 8;
    assert_eq!(map.get(&"fresh"), Some(&8));
    map.insert("set", 3);
    let e = map.entry("set");
    e.or_default(&mut map);
    assert_eq!(map.get(&"set"), Some(&3));
}

#[test]
fn vacant_entry_insert() {
    let mut map = HashMap::new();
    match map.entry("new") {
        hashtable::Entry::Occupied(_) => unreachable!(),
        hashtable::Entry::Vacant(v) => {
            let slot = v.insert(&mut map, 11);
            assert_eq!(*slot, 11);
        },
    }
    assert_eq!(map.get(&"new"), Some(&11));
    assert_eq!(map.len(), 1);
}

#[test]
fn iteration_count_matches_len() {
    let mut map = HashMap::new();
    for k in 0..37u64 {
        map.insert(k, k);
    }
    let mut count = 0;
    let mut it = map.iterate();
    while it.next().is_some() {
        count += 1;
    }
    assert_eq!(count, map.len());
}

#[test]
fn borrowed_lookup() {
    let mut map: HashMap<String, i32> = HashMap::new();
    map.insert(String::from("alpha"), 1);
    map.insert(String::from("beta"), 2);
    // owned text keys, queried with string slices
    assert_eq!(map.get(&"alpha"), Some(&1));
    assert!(map.contains_key(&"beta"));
    assert!(!map.contains_key(&"gamma"));
    assert_eq!(map.remove(&"alpha"), Some(1));
    assert_eq!(map.get(&"alpha"), None);
}

#[test]
fn empty_table_lookups() {
    let mut map: HashMap<&str, i32> = HashMap::new();
    assert_eq!(map.get(&"nothing"), None);
    assert!(!map.contains_key(&"nothing"));
    assert_eq!(map.remove(&"nothing"), None);
    assert!(map.iterate().next().is_none());
    let map2: HashMap<u64, u64> = HashMap::default();
    assert_eq!(map2.len(), 0);
}

#[test]
fn string_keys_survive_resizes() {
    let mut map: HashMap<String, usize> = HashMap::new();
    for i in 0..200usize {
        map.insert(format!("key-{}", i), i);
    }
    assert_eq!(map.len(), 200);
    for i in 0..200usize {
        let name = format!("key-{}", i);
        assert_eq!(map.get(&name.as_str()), Some(&i));
    }
}
