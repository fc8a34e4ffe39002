use trie_map::{Key, TrieMap};

#[test]
fn key_too_big() {
    let bigstr = String::from_utf8(vec!['a' as u8; 129]).unwrap();
    let k = Key::new(&bigstr);
    assert!(k.is_err());
}

#[test]
fn test_get_empty() {
    let map = TrieMap::<i32>::new();

    let k = Key::new("red").unwrap();
    let result = map.get(&k);
    assert!(result.is_none());
}

#[test]
fn test_put_empty_key() {
    let mut map = TrieMap::new();

    let k = Key::new("").unwrap();
    let v = 42;
    map.put(&k, v);

    let result = map.get(&k).unwrap();
    assert_eq!(*result, 42);
}

#[test]
fn test_put_one() {
    let mut map = TrieMap::new();

    let k = Key::new("red").unwrap();
    let v = 42;
    map.put(&k, v);

    let result = map.get(&k).unwrap();
    assert_eq!(*result, 42);

    let result = map.get(&k).unwrap();
    assert_eq!(*result, 42);
}

#[test]
fn test_put_two() {
    let mut map = TrieMap::new();

    let k = Key::new("red").unwrap();
    let v = 42;
    map.put(&k, v);

    let k = Key::new("green").unwrap();
    let v = 21;
    map.put(&k, v);

    let k = Key::new("red").unwrap();
    let result = map.get(&k).unwrap();
    assert_eq!(*result, 42);

    let k = Key::new("blue").unwrap();
    let result = map.get(&k);
    assert!(result.is_none());
}

#[test]
fn put_two_reads_both_back() {
    let mut map = TrieMap::new();
    map.put(&Key::new("red").unwrap(), 42);
    map.put(&Key::new("green").unwrap(), 21);

    assert_eq!(map.get(&Key::new("red").unwrap()), Some(&42));
    assert_eq!(map.get(&Key::new("green").unwrap()), Some(&21));
    assert_eq!(map.get(&Key::new("blue").unwrap()), None);
}

#[test]
fn second_put_under_a_key_wins() {
    let mut map = TrieMap::new();
    let red = Key::new("red").unwrap();
    let green = Key::new("green").unwrap();
    map.put(&green, 7);
    map.put(&red, 1);
    assert_eq!(map.get(&red), Some(&1));

    map.put(&red, 2);
    assert_eq!(map.get(&red), Some(&2));
    assert_eq!(map.get(&green), Some(&7));
}

#[test]
fn keys_with_a_common_prefix_do_not_collide() {
    let mut map = TrieMap::new();
    let re = Key::new("re").unwrap();
    let red = Key::new("red").unwrap();
    let reds = Key::new("reds").unwrap();
    let rex = Key::new("rex").unwrap();

    map.put(&red, 10);
    assert_eq!(map.get(&re), None);
    assert_eq!(map.get(&reds), None);
    assert_eq!(map.get(&rex), None);

    map.put(&re, 20);
    map.put(&reds, 30);
    assert_eq!(map.get(&re), Some(&20));
    assert_eq!(map.get(&red), Some(&10));
    assert_eq!(map.get(&reds), Some(&30));
    assert_eq!(map.get(&rex), None);
}

#[test]
fn a_node_on_the_way_holds_no_value_of_its_own() {
    let mut map = TrieMap::new();
    map.put(&Key::new("abc").unwrap(), 1);

    assert_eq!(map.get(&Key::new("").unwrap()), None);
    assert_eq!(map.get(&Key::new("a").unwrap()), None);
    assert_eq!(map.get(&Key::new("ab").unwrap()), None);
    assert_eq!(map.get(&Key::new("abcd").unwrap()), None);
    assert_eq!(map.get(&Key::new("abc").unwrap()), Some(&1));
}

#[test]
fn empty_key_is_kept_apart_from_the_others() {
    let mut map = TrieMap::new();
    let empty = Key::new("").unwrap();
    map.put(&empty, 5);
    map.put(&Key::new("a").unwrap(), 6);
    map.put(&Key::new("\u{0}").unwrap(), 7);

    assert_eq!(map.get(&empty), Some(&5));
    assert_eq!(map.get(&Key::new("a").unwrap()), Some(&6));
    assert_eq!(map.get(&Key::new("\u{0}").unwrap()), Some(&7));

    map.put(&empty, 8);
    assert_eq!(map.get(&empty), Some(&8));
    assert_eq!(map.get(&Key::new("a").unwrap()), Some(&6));
}

#[test]
fn get_does_not_create_or_change_anything() {
    let mut map = TrieMap::new();
    let red = Key::new("red").unwrap();
    let rod = Key::new("rod").unwrap();
    map.put(&red, 1);

    assert_eq!(map.get(&rod), None);
    assert_eq!(map.get(&rod), None);
    assert_eq!(map.get(&red), Some(&1));
}

#[test]
fn keys_of_every_byte_value_are_routed() {
    let mut map = TrieMap::new();
    let low = Key::new("\u{1}\u{7f}").unwrap();
    let high = Key::new("\u{ff}\u{10ffff}").unwrap();
    assert_eq!(high.as_bytes(), &[0xc3, 0xbf, 0xf4, 0x8f, 0xbf, 0xbf]);
    map.put(&low, "low");
    map.put(&high, "high");

    assert_eq!(map.get(&low), Some(&"low"));
    assert_eq!(map.get(&high), Some(&"high"));
    assert_eq!(map.get(&Key::new("\u{ff}").unwrap()), None);
}

#[test]
fn longest_key_is_stored_and_found() {
    let mut map = TrieMap::new();
    let longest = Key::new(&"z".repeat(128)).unwrap();
    let shorter = Key::new(&"z".repeat(127)).unwrap();
    map.put(&longest, 128);

    assert_eq!(map.get(&longest), Some(&128));
    assert_eq!(map.get(&shorter), None);
}

#[test]
fn values_that_own_memory_are_stored() {
    let mut map = TrieMap::new();
    let k = Key::new("name").unwrap();
    map.put(&k, String::from("first"));
    map.put(&k, String::from("second"));

    assert_eq!(map.get(&k).map(|s| s.as_str()), Some("second"));
}

#[test]
fn decimal_keys_round_trip() {
    let mut map = TrieMap::new();
    for i in 0..2000 {
        let k = Key::new(&i.to_string()).unwrap();
        map.put(&k, i);
    }
    for i in 0..2000 {
        let k = Key::new(&i.to_string()).unwrap();
        assert_eq!(map.get(&k), Some(&i));
    }
    assert_eq!(map.get(&Key::new("2000").unwrap()), None);
    assert_eq!(map.get(&Key::new("00").unwrap()), None);
}
