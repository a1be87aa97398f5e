use merkle_trie::trie_node::TrieNode;
use std::hash::{BuildHasher, BuildHasherDefault};

fn expected_hash(s: &str) -> String {
    BuildHasherDefault::<std::collections::hash_map::DefaultHasher>::default()
        .hash_one(s)
        .to_string()
}

#[test]
fn insert_i32() {
    let mut node: TrieNode<i32> = TrieNode::new();
    node.insert(10, 4);
    assert_eq!(node.find_by_key(10).unwrap().get_data(), Some(&4));
    node.insert(10, 9);
    assert_eq!(node.find_by_key(10).unwrap().get_data(), Some(&9));
    assert_eq!(node.find_by_key(3), None);
    assert_eq!(node.find_by_key(2).unwrap().get_data(), None);
}

#[test]
fn insert_string() {
    let mut node: TrieNode<String> = TrieNode::new();
    node.insert(11, "4".to_string());
    assert_eq!(
        node.find_by_key(11).unwrap().get_data(),
        Some(&"4".to_string())
    );
    node.insert(11, "9".to_string());
    assert_eq!(
        node.find_by_key(11).unwrap().get_data(),
        Some(&"9".to_string())
    );
    assert_eq!(node.find_by_key(4), None);
    assert_eq!(node.find_by_key(1).unwrap().get_data(), None);
}

#[test]
fn test_get_go_rights() {
    let actual = TrieNode::<i32>::path_to_node(4 as u32);
    assert_eq!(vec![1, 0, 0], actual);
}

#[test]
fn test_merkle_root() {
    let mut node: TrieNode<String> = TrieNode::new();
    node.insert(1, "foo".to_string());
    node.insert(2, "bar".to_string());
    assert_eq!(node.merkle_root(), "6001646791932157245");
}

#[test]
fn cached_merkle_root() {
    let mut node: TrieNode<String> = TrieNode::new();
    node.insert(1, "foo".to_string());
    node.insert(2, "bar".to_string());
    node.insert(2, "temp".to_string());
    node.insert(2, "bar".to_string());
    assert_eq!(node.merkle_root(), "6001646791932157245");
    assert_eq!(node.merkle_root(), "6001646791932157245");
    assert_eq!(node.merkle_root(), "6001646791932157245");
}

#[test]
fn path_of_one_and_zero() {
    assert_eq!(TrieNode::<i32>::path_to_node(1), vec![1]);
    assert_eq!(TrieNode::<i32>::path_to_node(0), vec![0]);
}

#[test]
fn path_of_largest_key() {
    assert_eq!(TrieNode::<i32>::path_to_node(u32::MAX), vec![1; 32]);
    let mut top = vec![0; 32];
    top[0] = 1;
    assert_eq!(TrieNode::<i32>::path_to_node(1 << 31), top);
}

#[test]
fn find_after_insert_at_zero_and_largest_key() {
    let mut node: TrieNode<i32> = TrieNode::new();
    node.insert(0, 7);
    node.insert(u32::MAX, 8);
    assert_eq!(node.find_by_key(0).unwrap().get_data(), Some(&7));
    assert_eq!(node.find_by_key(u32::MAX).unwrap().get_data(), Some(&8));
    // The path of 1 is a prefix of that of u32::MAX, so its node exists, empty.
    assert_eq!(node.find_by_key(1).unwrap().get_data(), None);
    assert_eq!(node.find_by_key(2), None);
}

#[test]
fn insert_elsewhere_leaves_lookup_unchanged() {
    let mut node: TrieNode<i32> = TrieNode::new();
    node.insert(6, 60);
    node.insert(5, 50);
    node.insert(7, 70);
    assert_eq!(node.find_by_key(6).unwrap().get_data(), Some(&60));
    assert_eq!(node.find_by_key(5).unwrap().get_data(), Some(&50));
    assert_eq!(node.find_by_key(7).unwrap().get_data(), Some(&70));
}

#[test]
fn find_never_inserted_is_none() {
    let mut node: TrieNode<i32> = TrieNode::new();
    assert_eq!(node.find_by_key(0), None);
    assert_eq!(node.find_by_key(9), None);
    node.insert(9, 1);
    assert_eq!(node.find_by_key(8), None);
    assert_eq!(node.find_by_key(3), None);
    assert_eq!(node.find_by_key(12), None);
}

#[test]
fn new_with_and_set_data() {
    let mut node = TrieNode::new_with(3);
    assert_eq!(node.get_data(), Some(&3));
    node.set_data(5);
    assert_eq!(node.get_data(), Some(&5));
    assert_eq!(TrieNode::<i32>::new().get_data(), None);
}

#[test]
fn leaf_digest_is_hash_of_payload() {
    let mut empty: TrieNode<String> = TrieNode::new();
    assert_eq!(empty.merkle_root(), expected_hash(""));
    let mut leaf = TrieNode::new_with("foo".to_string());
    assert_eq!(leaf.merkle_root(), expected_hash("foo"));
    let mut negative = TrieNode::new_with(-12);
    assert_eq!(negative.merkle_root(), expected_hash("-12"));
    let mut lowest = TrieNode::new_with(i32::MIN);
    assert_eq!(lowest.merkle_root(), expected_hash("-2147483648"));
    let mut zero = TrieNode::new_with(0);
    assert_eq!(zero.merkle_root(), expected_hash("0"));
}

#[test]
fn inner_digest_joins_own_and_children() {
    let mut node: TrieNode<String> = TrieNode::new();
    node.insert(1, "foo".to_string());
    let expected = expected_hash(&format!(
        "{}{}{}",
        expected_hash(""),
        expected_hash(""),
        expected_hash("foo")
    ));
    assert_eq!(node.merkle_root(), expected);
}

#[test]
fn digest_follows_the_walk_order() {
    // 2 is "10": its node is the zero-child of the one-child of the root.
    let mut node: TrieNode<String> = TrieNode::new();
    node.insert(1, "foo".to_string());
    node.insert(2, "bar".to_string());
    let empty = expected_hash("");
    let one_child = expected_hash(&format!("{}{}{}", expected_hash("foo"), expected_hash("bar"), empty));
    let expected = expected_hash(&format!("{}{}{}", empty, empty, one_child));
    assert_eq!(expected, "6001646791932157245");
    assert_eq!(node.merkle_root(), expected);
}

#[test]
fn paths_are_walked_from_the_most_significant_bit() {
    let mut node: TrieNode<i32> = TrieNode::new();
    node.insert(6, 1);
    // [1, 0] is no prefix of [1, 1, 0].
    assert_eq!(node.find_by_key(2), None);
    // [1] and [1, 1] are.
    assert_eq!(node.find_by_key(1).unwrap().get_data(), None);
    assert_eq!(node.find_by_key(3).unwrap().get_data(), None);
    let mut other: TrieNode<i32> = TrieNode::new();
    other.insert(2, 5);
    assert_eq!(other.find_by_key(1).unwrap().get_data(), None);
    assert_eq!(other.find_by_key(2).unwrap().get_data(), Some(&5));
    assert_eq!(other.find_by_key(0), None);
}

#[test]
fn merkle_root_is_repeatable() {
    let mut node: TrieNode<i32> = TrieNode::new();
    node.insert(3, 1);
    node.insert(12, 2);
    let first = node.merkle_root();
    assert_eq!(node.merkle_root(), first);
    assert_eq!(node.merkle_root(), first);
}

#[test]
fn merkle_root_changes_and_is_restored() {
    let mut node: TrieNode<String> = TrieNode::new();
    node.insert(5, "a".to_string());
    node.insert(6, "b".to_string());
    let before = node.merkle_root();
    node.insert(5, "c".to_string());
    let changed = node.merkle_root();
    assert_ne!(changed, before);
    node.insert(5, "a".to_string());
    assert_eq!(node.merkle_root(), before);
}

#[test]
fn set_data_forgets_memoised_digest() {
    let mut node: TrieNode<String> = TrieNode::new();
    node.insert(2, "x".to_string());
    let before = node.merkle_root();
    node.set_data("root".to_string());
    let after = node.merkle_root();
    assert_ne!(after, before);
    let empty = expected_hash("");
    let child = expected_hash(&format!("{}{}{}", empty, expected_hash("x"), empty));
    let expected = expected_hash(&format!("{}{}{}", expected_hash("root"), empty, child));
    assert_eq!(after, expected);
}

#[test]
fn deep_insert_invalidates_every_ancestor() {
    let mut node: TrieNode<i32> = TrieNode::new();
    node.insert(13, 1);
    let before = node.merkle_root();
    node.insert(13, 2);
    assert_ne!(node.merkle_root(), before);
    node.insert(13, 1);
    assert_eq!(node.merkle_root(), before);
}

#[test]
fn default_is_an_empty_tree() {
    let mut node: TrieNode<i32> = TrieNode::default();
    assert_eq!(node, TrieNode::new());
    assert_eq!(node.get_data(), None);
    assert_eq!(node.find_by_key(0), None);
    assert_eq!(node.merkle_root(), expected_hash(""));
}

#[test]
fn inserts_at_distinct_keys_commute() {
    let mut a: TrieNode<i32> = TrieNode::new();
    let mut b: TrieNode<i32> = TrieNode::new();
    a.insert(12, 0);
    b.insert(12, 0);
    a.merkle_root();
    b.merkle_root();
    a.insert(3, 30);
    a.insert(5, 50);
    b.insert(5, 50);
    b.insert(3, 30);
    assert_eq!(a, b);
    assert_eq!(a.merkle_root(), b.merkle_root());
}
