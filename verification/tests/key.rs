use trie_map::{Key, KeyError, KEYLEN};

#[test]
fn keylen_is_128() {
    assert_eq!(KEYLEN, 128);
}

#[test]
fn key_of_exactly_keylen_bytes_is_accepted() {
    let s = "a".repeat(128);
    let k = Key::new(&s).unwrap();
    assert_eq!(k.as_bytes().len(), 128);
    assert_eq!(k.as_bytes(), s.as_bytes());
}

#[test]
fn key_of_one_byte_more_is_refused() {
    let s = "a".repeat(129);
    assert_eq!(Key::new(&s).err(), Some(KeyError::KeyTooLong));
}

#[test]
fn much_longer_key_is_refused() {
    let s = "a".repeat(100_000);
    assert_eq!(Key::new(&s).err(), Some(KeyError::KeyTooLong));
}

#[test]
fn empty_key_is_accepted() {
    let k = Key::new("").unwrap();
    assert!(k.as_bytes().is_empty());
}

#[test]
fn length_is_counted_in_bytes() {
    // Two bytes each.
    let fits = "\u{e9}".repeat(64);
    let too_long = "\u{e9}".repeat(65);
    assert_eq!(fits.len(), 128);
    assert_eq!(too_long.len(), 130);

    assert!(Key::new(&fits).is_ok());
    assert_eq!(Key::new(&too_long).err(), Some(KeyError::KeyTooLong));
}

#[test]
fn key_holds_the_bytes_it_was_given() {
    let k = Key::new("red").unwrap();
    assert_eq!(k.as_bytes(), &[114, 101, 100]);

    let k = Key::new("a\u{0}\t\u{7f}").unwrap();
    assert_eq!(k.as_bytes(), &[97, 0, 9, 127]);
}

#[test]
fn keys_are_equal_when_their_bytes_are() {
    let a = Key::new("red").unwrap();
    let b = Key::new(&String::from("red")).unwrap();
    let c = Key::new("rea").unwrap();
    let d = Key::new("re").unwrap();

    assert!(a == b);
    assert!(a != c);
    assert!(a != d);
}

#[test]
fn keys_are_ordered_byte_by_byte() {
    let re = Key::new("re").unwrap();
    let rea = Key::new("rea").unwrap();
    let red = Key::new("red").unwrap();
    let z = Key::new("z").unwrap();
    let empty = Key::new("").unwrap();

    assert!(empty < re);
    assert!(re < rea);
    assert!(rea < red);
    assert!(red < z);
    assert!(Key::new("10").unwrap() < Key::new("9").unwrap());
}

#[test]
fn clone_is_the_same_key() {
    let a = Key::new("green").unwrap();
    let b = a.clone();
    assert!(a == b);
    assert_eq!(b.as_bytes(), "green".as_bytes());
}

#[test]
fn error_says_what_went_wrong() {
    assert_eq!(KeyError::KeyTooLong.message(), "Key is too big");
}

#[test]
fn order_by_operator_agrees_with_cmp() {
    let names = ["", "a", "ab", "abc", "b", "ba", "\u{7f}", "\u{80}", "\u{ff}", "10", "9"];
    for x in names {
        for y in names {
            let a = Key::new(x).unwrap();
            let b = Key::new(y).unwrap();
            assert_eq!(a.partial_cmp(&b), Some(a.cmp(&b)));
            assert_eq!(a.partial_cmp(&b), Some(x.as_bytes().cmp(y.as_bytes())));
            assert_eq!(a < b, x.as_bytes() < y.as_bytes());
            assert_eq!(a == b, x == y);
        }
    }
}
