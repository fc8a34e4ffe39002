use trie_map::order::common_prefix_len;

#[test]
fn common_prefix_of_equal_strings_is_all_of_them() {
    assert_eq!(common_prefix_len(b"red", b"red"), 3);
    assert_eq!(common_prefix_len(b"", b""), 0);
}

#[test]
fn common_prefix_ends_at_the_first_difference() {
    assert_eq!(common_prefix_len(b"red", b"rod"), 1);
    assert_eq!(common_prefix_len(b"red", b"rex"), 2);
    assert_eq!(common_prefix_len(b"red", b"green"), 0);
}

#[test]
fn common_prefix_ends_with_the_shorter_string() {
    assert_eq!(common_prefix_len(b"re", b"red"), 2);
    assert_eq!(common_prefix_len(b"red", b"re"), 2);
    assert_eq!(common_prefix_len(b"", b"red"), 0);
    assert_eq!(common_prefix_len(b"red", b""), 0);
}
