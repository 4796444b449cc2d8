use vas_reach::model::vas_trie::{TrieError, VasTrieNode};
use vas_reach::trace::trace_trie::TraceTrieNode;

#[test]
fn inserting_the_same_vector_twice_returns_the_first_id() {
    let mut trie = VasTrieNode::new();
    let v: Vec<i128> = vec![1, 0, 2];
    assert_eq!(trie.insert_if_not_exists(&v, 5), None);
    assert_eq!(trie.insert_if_not_exists(&v, 9), Some(5));
    assert_eq!(trie.insert_if_not_exists(&v, 5), Some(5));
    assert_eq!(trie.next_available_id(), 6);
}

#[test]
fn second_insert_does_not_grow_the_trie() {
    let mut trie = VasTrieNode::new();
    trie.insert_if_not_exists(&vec![4, 4], 1);
    trie.insert_if_not_exists(&vec![4, 5], 2);
    let before = trie.next_available_id();
    assert_eq!(trie.insert_if_not_exists(&vec![4, 5], 77), Some(2));
    assert_eq!(trie.next_available_id(), before);
    assert_eq!(trie.insert_if_not_exists(&vec![4, 4], 78), Some(1));
    assert_eq!(trie.insert_if_not_exists(&vec![5, 4], 3), None);
}

#[test]
fn distinct_vectors_keep_distinct_ids() {
    let mut trie = VasTrieNode::new();
    let vectors: Vec<Vec<i128>> =
        vec![vec![0, 0], vec![0, 1], vec![1, 0], vec![-1, 0], vec![1, 1]];
    for (i, v) in vectors.iter().enumerate() {
        assert_eq!(trie.insert_if_not_exists(v, i + 1), None);
    }
    for (i, v) in vectors.iter().enumerate() {
        assert_eq!(trie.insert_if_not_exists(v, 100), Some(i + 1));
    }
}

#[test]
fn next_available_id_of_an_empty_trie_is_one() {
    let trie = VasTrieNode::new();
    assert_eq!(trie.next_available_id(), 1);
}

#[test]
fn next_available_id_follows_the_largest_id() {
    let mut trie = VasTrieNode::new();
    trie.insert_if_not_exists(&vec![1], 12);
    trie.insert_if_not_exists(&vec![2], 3);
    trie.insert_if_not_exists(&vec![3], 40);
    assert_eq!(trie.next_available_id(), 41);
}

#[test]
fn empty_vector_is_a_key_too() {
    let mut trie = VasTrieNode::new();
    assert_eq!(trie.insert_if_not_exists(&vec![], 4), None);
    assert_eq!(trie.insert_if_not_exists(&vec![], 5), Some(4));
    // A leaf at the root ends every walk.
    assert_eq!(trie.insert_if_not_exists(&vec![1, 2], 6), Some(4));
}

#[test]
fn a_walk_ends_on_the_first_leaf() {
    let mut trie = VasTrieNode::new();
    assert_eq!(trie.insert_if_not_exists(&vec![7], 2), None);
    assert_eq!(trie.insert_if_not_exists(&vec![7, 8], 3), Some(2));
}

#[test]
fn the_reserved_id_is_refused() {
    let mut trie = VasTrieNode::new();
    assert_eq!(trie.insert_checked(&vec![1, 2], 0), Err(TrieError::ReservedId));
    // Nothing was stored under the reserved id.
    assert_eq!(trie.insert_checked(&vec![1, 2], 3), Ok(None));
    assert_eq!(trie.insert_checked(&vec![1, 2], 0), Err(TrieError::ReservedId));
    assert_eq!(trie.insert_checked(&vec![1, 2], 9), Ok(Some(3)));
    assert_eq!(trie.insert_checked(&vec![2, 2], 4), Ok(None));
    assert_eq!(trie.next_available_id(), 5);
}

#[test]
fn trace_trie_tells_known_from_new() {
    let mut seen = TraceTrieNode::new();
    assert!(!seen.exists_or_insert(&vec![0, 1, 2]));
    assert!(seen.exists_or_insert(&vec![0, 1, 2]));
    assert!(!seen.exists_or_insert(&vec![0, 2]));
    assert!(seen.exists_or_insert(&vec![0, 2]));
    assert!(!seen.exists_or_insert(&vec![1]));
}

#[test]
fn a_trace_that_goes_on_from_a_stored_trace_is_new() {
    let mut seen = TraceTrieNode::new();
    assert!(!seen.exists_or_insert(&vec![1]));
    assert!(!seen.exists_or_insert(&vec![1, 2]));
    assert!(seen.exists_or_insert(&vec![1, 2]));
    assert!(seen.exists_or_insert(&vec![1]));
    // The beginning of a stored trace is new as well, until it is stored.
    assert!(!seen.exists_or_insert(&vec![3, 4, 5]));
    assert!(!seen.exists_or_insert(&vec![3, 4]));
    assert!(seen.exists_or_insert(&vec![3, 4]));
    assert!(seen.exists_or_insert(&vec![3, 4, 5]));
    assert!(!seen.exists_or_insert(&vec![3]));
}

#[test]
fn the_empty_trace_is_stored_like_any_other() {
    let mut seen = TraceTrieNode::new();
    assert!(!seen.exists_or_insert(&vec![]));
    assert!(seen.exists_or_insert(&vec![]));
    assert!(!seen.exists_or_insert(&vec![0]));
    assert!(seen.exists_or_insert(&vec![]));
    assert!(seen.exists_or_insert(&vec![0]));
}
