use lodestone::slicebtree::tree::{BTree, MIN_BUFFER_SIZE};
use lodestone::LodestoneError;

fn key_of(i: usize) -> Vec<u8> {
    format!("key{:03}", i).into_bytes()
}

#[test]
fn open_rejects_a_buffer_that_is_too_small() {
    assert!(matches!(BTree::open(vec![0u8; MIN_BUFFER_SIZE - 1]), Err(LodestoneError::TooSmall)));
    assert!(matches!(BTree::open(vec![0u8; 0]), Err(LodestoneError::TooSmall)));
    assert!(BTree::open(vec![0u8; MIN_BUFFER_SIZE]).is_ok());
}

#[test]
fn a_new_tree_is_empty() {
    let tree = BTree::new(vec![0u8; 0x8000]);
    assert_eq!(None, tree.read(b"hello"));
    assert_eq!(0, tree.len());
    assert!(tree.keys().is_empty());
}

#[test]
fn put_then_get_returns_the_value() {
    let mut tree = BTree::new(vec![0u8; 0x10000]);
    assert_eq!(Ok(()), tree.put(b"hello", b"world"));
    assert_eq!(Some(b"world".to_vec()), tree.read(b"hello"));
    assert_eq!(None, tree.read(b"hell"));
    assert_eq!(None, tree.read(b"hello!"));
    assert_eq!(Ok(()), tree.put(b"", b""));
    assert_eq!(Some(Vec::new()), tree.read(b""));
    assert_eq!(Some(b"world".to_vec()), tree.read(b"hello"));
}

#[test]
fn the_second_put_under_a_key_wins() {
    let mut tree = BTree::new(vec![0u8; 0x10000]);
    assert_eq!(Ok(()), tree.put(b"k", b"first"));
    assert_eq!(Ok(()), tree.put(b"k", b"second, and longer"));
    assert_eq!(Some(b"second, and longer".to_vec()), tree.read(b"k"));
    assert_eq!(1, tree.len());
}

#[test]
fn put_then_delete_leaves_nothing() {
    let mut tree = BTree::new(vec![0u8; 0x10000]);
    assert_eq!(Ok(()), tree.put(b"a", b"1"));
    assert_eq!(Ok(()), tree.put(b"b", b"2"));
    assert_eq!(Ok(()), tree.delete(b"a"));
    assert_eq!(None, tree.read(b"a"));
    assert_eq!(Some(b"2".to_vec()), tree.read(b"b"));
    assert_eq!(Err(LodestoneError::KeyNotFound), tree.delete(b"a"));
    assert_eq!(Err(LodestoneError::KeyNotFound), tree.delete(b"zebra"));
}

#[test]
fn keys_come_out_in_order() {
    let mut tree = BTree::new(vec![0u8; 0x10000]);
    for k in ["pear", "apple", "fig", "banana", "app", "apples"] {
        assert_eq!(Ok(()), tree.put(k.as_bytes(), b"x"));
    }
    let keys: Vec<String> =
        tree.keys().into_iter().map(|k| String::from_utf8(k).unwrap()).collect();
    assert_eq!(vec!["app", "apple", "apples", "banana", "fig", "pear"], keys);
}

#[test]
fn the_previous_root_stays_readable_after_one_change() {
    let mut tree = BTree::new(vec![0u8; 0x10000]);
    assert_eq!(Ok(()), tree.put(b"k", b"old"));
    assert_eq!(Ok(()), tree.put(b"k", b"new"));
    assert_eq!(Some(b"new".to_vec()), tree.read(b"k"));
    assert_eq!(Some(b"old".to_vec()), tree.read_previous(b"k"));
    assert_eq!(Ok(()), tree.delete(b"k"));
    assert_eq!(None, tree.read(b"k"));
    assert_eq!(Some(b"new".to_vec()), tree.read_previous(b"k"));
}

#[test]
fn a_full_leaf_takes_no_new_key_but_still_takes_new_values() {
    let mut tree = BTree::new(vec![0u8; 0x20000]);
    for i in 0..100 {
        assert_eq!(Ok(()), tree.put(&key_of(i), &key_of(i)));
    }
    assert_eq!(100, tree.len());
    assert_eq!(Err(LodestoneError::NodeFull), tree.put(b"one more", b"x"));
    assert_eq!(None, tree.read(b"one more"));
    assert_eq!(Ok(()), tree.put(&key_of(7), b"changed"));
    assert_eq!(Some(b"changed".to_vec()), tree.read(&key_of(7)));
    for i in 0..100 {
        assert!(tree.read(&key_of(i)).is_some());
    }
}

#[test]
fn a_tree_runs_out_of_memory_and_stays_as_it_was() {
    let mut tree = BTree::new(vec![0u8; MIN_BUFFER_SIZE + 3400]);
    assert_eq!(Ok(()), tree.put(b"k", b"v"));
    assert_eq!(Err(LodestoneError::OutOfMemory), tree.put(b"big", &vec![1u8; 0x4000]));
    assert_eq!(Some(b"v".to_vec()), tree.read(b"k"));
    assert_eq!(None, tree.read(b"big"));
}

#[test]
fn deleting_every_key_leaves_an_empty_tree() {
    let mut tree = BTree::new(vec![0u8; 0x20000]);
    for round in 0..3 {
        for i in 0..40 {
            assert_eq!(Ok(()), tree.put(&key_of((i * 7 + round) % 40), &key_of(i)));
        }
        assert_eq!(40, tree.len());
        for i in 0..40 {
            assert_eq!(Ok(()), tree.delete(&key_of(i)));
        }
        assert_eq!(0, tree.len());
        for i in 0..40 {
            assert_eq!(None, tree.read(&key_of(i)));
        }
    }
}

#[test]
fn a_value_that_is_handed_out_outlives_its_key() {
    let mut tree = BTree::new(vec![0u8; 0x10000]);
    assert_eq!(Ok(()), tree.put(b"k", b"held"));
    assert!(tree.get(b"absent").is_none());
    let handle = tree.get(b"k").unwrap();
    let again = tree.get(b"k").unwrap();
    assert_eq!(b"held", tree.value(&handle));
    assert_eq!(Ok(()), tree.put(b"k", b"next"));
    assert_eq!(Ok(()), tree.delete(b"k"));
    assert_eq!(Ok(()), tree.put(b"other", b"x"));
    assert_eq!(None, tree.read(b"k"));
    assert_eq!(b"held", tree.value(&handle));
    tree.release(handle);
    assert_eq!(b"held", tree.value(&again));
    tree.release(again);
    assert_eq!(Some(b"x".to_vec()), tree.read(b"other"));
}
