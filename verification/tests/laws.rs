use lodestone::allocator::arc::PersistedArcByteSlice;
use lodestone::allocator::pool::{
    byte_align, index_to_arc_offset, index_to_data_offset, index_to_skip_list_header, IndexType,
    Pool, BUFFER_END, HEADER_SIZE, OVERHEAD, PAGE_SIZE,
};
use lodestone::allocator::text::{append_decimal, digit_str};
use lodestone::allocator::view::BlockInfo;
use lodestone::allocator::words::{read_word, write_word};
use lodestone::slicebtree::debug::{
    append_joined, entries_debug_text, node_debug_text, DebuggableNode,
};
use lodestone::slicebtree::node::{Node, NodeType, B, NODE_SIZE};
use lodestone::slicebtree::order::{compare_keys, KeyOrder};
use lodestone::slicebtree::teardown::release_node;
use lodestone::slicebtree::tree::BTree;
use lodestone::LodestoneError;

/// What must hold of the block enumeration of any pool.
fn assert_well_formed(pool: &Pool) {
    let blocks = pool.get_debug_blocks();
    let region = pool.buffer_size() - PAGE_SIZE;
    assert!(!blocks.is_empty());
    assert_eq!(0, blocks[0].start);
    assert_eq!(BUFFER_END, blocks[0].prev);
    assert_eq!(region, blocks[blocks.len() - 1].next);
    let mut total = 0;
    for i in 0..blocks.len() {
        total += blocks[i].next - blocks[i].start;
        if i + 1 < blocks.len() {
            assert_eq!(blocks[i].next, blocks[i + 1].start);
            assert_eq!(blocks[i].start, blocks[i + 1].prev);
            assert!(!(blocks[i].is_free && blocks[i + 1].is_free));
        }
    }
    assert_eq!(region, total);
    let lowest = blocks.iter().find(|b| b.is_free).map(|b| b.start).unwrap_or(BUFFER_END);
    assert_eq!(lowest, pool.lowest_known_free_index());
}

#[test]
fn blocks_stay_linked_through_allocations_and_frees() {
    let mut pool = Pool::new(vec![0u8; 0x4000]);
    assert_well_formed(&pool);
    let mut arcs = Vec::new();
    for n in [0usize, 1, 7, 8, 9, 100, 1000, 33] {
        arcs.push(pool.malloc(&vec![n as u8; n]).unwrap());
        assert_well_formed(&pool);
    }
    for i in [1usize, 3, 2, 6, 0, 4, 7, 5] {
        pool.free(&arcs[i]);
        assert_well_formed(&pool);
    }
    assert_eq!(
        vec![BlockInfo {
            start: 0,
            capacity: 0x4000 - PAGE_SIZE - OVERHEAD,
            next: 0x4000 - PAGE_SIZE,
            prev: BUFFER_END,
            is_free: true
        }],
        pool.get_debug_blocks()
    );
}

#[test]
fn malloc_then_free_restores_the_layout() {
    let mut pool = Pool::new(vec![0u8; 0x4000]);
    let keep = pool.malloc(&[1, 2, 3]).unwrap();
    let before = pool.get_debug_blocks();
    let hint = pool.lowest_known_free_index();
    let tag = pool.next_id_tag();
    let arc = pool.malloc(&[9u8; 500]).unwrap();
    assert_ne!(before, pool.get_debug_blocks());
    pool.free(&arc);
    assert_eq!(before, pool.get_debug_blocks());
    assert_eq!(hint, pool.lowest_known_free_index());
    assert_eq!(tag + 1, pool.next_id_tag());
    assert_eq!([1, 2, 3], keep.deref(&pool));
}

#[test]
fn a_remainder_too_small_for_a_header_stays_with_the_block() {
    // 64 bytes before the metadata page: a block for 4 bytes takes 56
    let mut pool = Pool::new(vec![0u8; PAGE_SIZE + 64]);
    let arc = pool.malloc(&[1, 2, 3, 4]).unwrap();
    assert_eq!(
        vec![BlockInfo { start: 0, capacity: 16, next: 64, prev: BUFFER_END, is_free: false }],
        pool.get_debug_blocks()
    );
    assert_eq!(BUFFER_END, pool.lowest_known_free_index());
    assert_eq!(Err(LodestoneError::OutOfMemory), pool.malloc(&[]).map(|_| ()));
    pool.free(&arc);
    assert_eq!(0, pool.lowest_known_free_index());
    assert_well_formed(&pool);
}

#[test]
fn a_remainder_that_holds_a_header_is_split_off() {
    // 96 bytes before the metadata page: 56 for the block, 40 are left
    let mut pool = Pool::new(vec![0u8; PAGE_SIZE + 96]);
    let arc = pool.malloc(&[1, 2, 3, 4]).unwrap();
    assert_eq!(
        vec![
            BlockInfo { start: 0, capacity: 8, next: 56, prev: BUFFER_END, is_free: false },
            BlockInfo { start: 56, capacity: 0, next: 96, prev: 0, is_free: true },
        ],
        pool.get_debug_blocks()
    );
    assert_eq!(56, pool.lowest_known_free_index());
    assert_eq!(Err(LodestoneError::OutOfMemory), pool.malloc(&[]).map(|_| ()));
    pool.free(&arc);
    assert_well_formed(&pool);
    assert_eq!(1, pool.get_debug_blocks().len());
}

#[test]
fn malloc_of_more_than_fits_fails_with_out_of_memory() {
    let mut pool = Pool::new(vec![0u8; 0x2000]);
    let before = pool.debug_string();
    assert_eq!(Err(LodestoneError::OutOfMemory), pool.malloc(&vec![0u8; 9000]).map(|_| ()));
    assert_eq!(Err(LodestoneError::OutOfMemory), pool.make_new(usize::MAX).map(|_| ()));
    assert_eq!(before, pool.debug_string());
    // exactly what fits
    assert!(pool.malloc(&vec![0u8; 0x1000 - OVERHEAD]).is_ok());
}

#[test]
fn first_fit_takes_the_lowest_block_that_is_large_enough() {
    let mut pool = Pool::new(vec![0u8; 0x4000]);
    let a = pool.malloc(&[0u8; 8]).unwrap();
    let _b = pool.malloc(&[0u8; 8]).unwrap();
    let c = pool.malloc(&[0u8; 64]).unwrap();
    let _d = pool.malloc(&[0u8; 8]).unwrap();
    pool.free(&a);
    pool.free(&c);
    // too large for the hole at 0, fits the hole at 112
    let e = pool.malloc(&[7u8; 40]).unwrap();
    assert_eq!(112 + HEADER_SIZE, e.arc_inner_index);
    assert_eq!(0, pool.lowest_known_free_index());
    let f = pool.malloc(&[7u8; 8]).unwrap();
    assert_eq!(HEADER_SIZE, f.arc_inner_index);
    assert_well_formed(&pool);
}

#[test]
fn the_last_release_frees_the_block() {
    let mut pool = Pool::new(vec![0u8; 0x4000]);
    let first = pool.malloc(b"payload").unwrap();
    let index = first.arc_inner_index;
    assert_eq!(1, first.get_ref_count(&pool));
    let second = first.clone(&mut pool);
    assert_eq!(2, second.get_ref_count(&pool));
    first.release(&mut pool);
    assert_eq!(1, second.get_ref_count(&pool));
    assert_eq!(b"payload", second.deref(&pool));
    assert!(!pool.get_debug_blocks()[0].is_free);
    assert!(pool.is_valid(&PersistedArcByteSlice { arc_inner_index: index, id_tag: 2 }));
    second.release(&mut pool);
    assert!(pool.get_debug_blocks()[0].is_free);
    assert_eq!(1, pool.get_debug_blocks().len());
    assert!(!pool.is_valid(&PersistedArcByteSlice { arc_inner_index: index, id_tag: 2 }));
}

#[test]
fn a_persisted_handle_upgrades_while_its_tag_stands() {
    let mut pool = Pool::new(vec![0u8; 0x4000]);
    let arc = pool.malloc(b"abc").unwrap();
    let mut persisted = arc.clone_to_persisted(&mut pool);
    assert_eq!(2, persisted.get_id_tag());
    assert_eq!(2, arc.get_ref_count(&pool));
    let live = persisted.clone_to_arc_byte_slice(&mut pool).unwrap();
    assert_eq!(3, live.get_ref_count(&pool));
    live.release(&mut pool);
    arc.release(&mut pool);
    let copy = PersistedArcByteSlice {
        arc_inner_index: persisted.arc_inner_index,
        id_tag: persisted.get_id_tag(),
    };
    // the wrong tag, the free tag, and an offset that is no block
    let wrong = PersistedArcByteSlice { arc_inner_index: copy.arc_inner_index, id_tag: 3 };
    let free = PersistedArcByteSlice { arc_inner_index: copy.arc_inner_index, id_tag: 0 };
    let nowhere = PersistedArcByteSlice { arc_inner_index: copy.arc_inner_index + 8, id_tag: 2 };
    assert_eq!(
        Err(LodestoneError::InvalidReference),
        wrong.clone_to_arc_byte_slice(&mut pool).map(|_| ())
    );
    assert_eq!(Err(LodestoneError::InvalidReference), free.retain(&mut pool));
    assert_eq!(Err(LodestoneError::InvalidReference), nowhere.clone(&mut pool).map(|_| ()));
    assert_eq!(
        Err(LodestoneError::InvalidReference),
        PersistedArcByteSlice { arc_inner_index: BUFFER_END, id_tag: 0 }.retain(&mut pool)
    );
    assert_eq!(
        Err(LodestoneError::InvalidReference),
        PersistedArcByteSlice { arc_inner_index: 0, id_tag: 2 }.retain(&mut pool)
    );
    // the last reference: the block is freed and the handle denotes nothing
    assert_eq!(Ok(true), persisted.release(&mut pool));
    assert_eq!(BUFFER_END, persisted.arc_inner_index);
    assert_eq!(0, persisted.get_id_tag());
    assert_eq!(Err(LodestoneError::InvalidReference), persisted.release(&mut pool));
    // the same place, allocated again, carries another tag
    let again = pool.malloc(b"xyz").unwrap();
    assert_eq!(copy.arc_inner_index, again.arc_inner_index);
    assert_eq!(
        Err(LodestoneError::InvalidReference),
        copy.clone_to_arc_byte_slice(&mut pool).map(|_| ())
    );
    assert_eq!(None, pool.peek(&copy));
}

#[test]
fn clone_copies_the_payload_into_a_new_block() {
    let mut pool = Pool::new(vec![0u8; 0x4000]);
    let arc = pool.malloc(b"some bytes").unwrap();
    let copy = pool.clone(&arc).unwrap();
    assert_ne!(arc.arc_inner_index, copy.arc_inner_index);
    assert_eq!(b"some bytes", copy.deref(&pool));
    pool.store(&copy, b"other byte");
    assert_eq!(b"some bytes", arc.deref(&pool));
    assert_eq!(b"other byte", copy.deref(&pool));
    assert_eq!(10, copy.inner(&pool).size);
    assert_eq!(0, copy.inner(&pool).weak);
}

#[test]
fn words_are_stored_least_significant_byte_first() {
    let mut buf = vec![0xAAu8; 24];
    write_word(&mut buf, 8, 0x0102030405060708);
    assert_eq!([0xAA; 8], buf[0..8]);
    assert_eq!([8, 7, 6, 5, 4, 3, 2, 1], buf[8..16]);
    assert_eq!([0xAA; 8], buf[16..24]);
    assert_eq!(0x0102030405060708, read_word(&buf, 8));
    write_word(&mut buf, 0, usize::MAX);
    assert_eq!(usize::MAX, read_word(&buf, 0));
    assert_eq!(0x0102030405060708, read_word(&buf, 8));
}

#[test]
fn sizes_are_rounded_up_to_eight() {
    assert_eq!(0, byte_align(0));
    assert_eq!(8, byte_align(1));
    assert_eq!(8, byte_align(8));
    assert_eq!(16, byte_align(9));
    assert_eq!(8192, byte_align(8192));
}

#[test]
fn numbers_are_written_in_decimal() {
    let mut out = String::from("n=");
    append_decimal(&mut out, 0);
    out.push(' ');
    append_decimal(&mut out, 10);
    out.push(' ');
    append_decimal(&mut out, 18446744073709551615);
    assert_eq!("n=0 10 18446744073709551615", out);
    assert_eq!("7", digit_str(7));
}

#[test]
fn keys_are_ordered_byte_by_byte() {
    assert_eq!(KeyOrder::Equal, compare_keys(b"", b""));
    assert_eq!(KeyOrder::Less, compare_keys(b"", b"a"));
    assert_eq!(KeyOrder::Greater, compare_keys(b"a", b""));
    assert_eq!(KeyOrder::Less, compare_keys(b"app", b"apple"));
    assert_eq!(KeyOrder::Greater, compare_keys(b"b", b"apple"));
    assert_eq!(KeyOrder::Equal, compare_keys(b"apple", b"apple"));
    assert_eq!(KeyOrder::Less, compare_keys(&[1, 2, 0x7f], &[1, 2, 0x80]));
}

#[test]
fn a_node_that_is_written_down_and_read_again_is_the_same() {
    let node = Node {
        node_type: NodeType::Internal,
        tx_id: 77,
        keys: vec![
            PersistedArcByteSlice { arc_inner_index: 24, id_tag: 2 },
            PersistedArcByteSlice { arc_inner_index: 80, id_tag: 3 },
        ],
        children: vec![PersistedArcByteSlice { arc_inner_index: 136, id_tag: 4 }],
    };
    let bytes = node.encode();
    assert_eq!(NODE_SIZE, bytes.len());
    let back = Node::decode(&bytes).unwrap();
    assert_eq!(NodeType::Internal, back.node_type);
    assert_eq!(77, back.tx_id);
    assert_eq!(node.keys, back.keys);
    assert_eq!(node.children, back.children);
    // the first free slot of each row holds the handle that denotes nothing
    assert_eq!(BUFFER_END, read_word(&bytes, 8 * (3 + 4)));
    assert_eq!(0, read_word(&bytes, 8 * (3 + 5)));
    assert!(Node::decode(&bytes[1..]).is_none());
    let mut wrong_type = bytes.clone();
    write_word(&mut wrong_type, 0, 14);
    assert!(Node::decode(&wrong_type).is_none());
    let mut too_many = bytes.clone();
    write_word(&mut too_many, 16, B + 1);
    assert!(Node::decode(&too_many).is_none());
}

fn leaf_in(pool: &mut Pool, entries: &[(&[u8], &[u8])]) -> lodestone::allocator::arc::ArcByteSlice {
    let mut arc = Node::new(0, NodeType::Leaf).clone(pool).unwrap();
    for (i, (k, v)) in entries.iter().enumerate() {
        let next =
            Node::load(pool, &arc).unwrap().leaf_node_insert_non_full(i + 1, k, v, pool).unwrap();
        release_node(&mut arc.clone_to_persisted(pool), pool);
        arc.release(pool);
        arc = next;
    }
    arc
}

#[test]
fn a_leaf_rejects_a_key_it_holds_and_a_key_too_many() {
    let mut pool = Pool::new(vec![0u8; 0x20000]);
    let entries: Vec<(Vec<u8>, Vec<u8>)> =
        (0..100).map(|i| (format!("{:03}", i).into_bytes(), vec![i as u8])).collect();
    let borrowed: Vec<(&[u8], &[u8])> = entries.iter().map(|(k, v)| (&k[..], &v[..])).collect();
    let arc = leaf_in(&mut pool, &borrowed);
    let leaf = Node::load(&pool, &arc).unwrap();
    assert_eq!(B, leaf.num_keys());
    let before = pool.debug_string();
    assert_eq!(
        Err(LodestoneError::KeyAlreadyExists),
        leaf.leaf_node_insert_non_full(200, b"042", b"x", &mut pool).map(|_| ())
    );
    assert_eq!(
        Err(LodestoneError::NodeFull),
        leaf.leaf_node_insert_non_full(200, b"100", b"x", &mut pool).map(|_| ())
    );
    assert_eq!(
        Err(LodestoneError::KeyNotFound),
        leaf.leaf_node_remove(200, b"100", &mut pool).map(|_| ())
    );
    assert_eq!(
        Err(LodestoneError::KeyNotFound),
        leaf.leaf_node_update(200, b"100", b"x", &mut pool).map(|_| ())
    );
    assert_eq!(before, pool.debug_string());
    assert_eq!((true, 42), leaf.index_or_insertion_of(b"042", &pool));
    assert_eq!((false, 43), leaf.index_or_insertion_of(b"0421", &pool));
    assert_eq!((false, 0), leaf.index_or_insertion_of(b"", &pool));
    assert_eq!((false, 100), leaf.index_or_insertion_of(b"1", &pool));
    let value = leaf.value_for_key(b"099", &mut pool).unwrap();
    assert_eq!([99], value.deref(&pool));
    assert!(leaf.value_for_key(b"0990", &mut pool).is_none());
}

#[test]
fn an_insertion_that_runs_out_of_memory_gives_back_what_it_took() {
    // room for one node, a key and a value, but not for a second node
    let mut pool = Pool::new(vec![0u8; PAGE_SIZE + 2 * (NODE_SIZE + OVERHEAD) - 8]);
    let arc = leaf_in(&mut pool, &[]);
    let leaf = Node::load(&pool, &arc).unwrap();
    let before = pool.get_debug_blocks();
    let tag = pool.next_id_tag();
    assert_eq!(
        Err(LodestoneError::OutOfMemory),
        leaf.leaf_node_insert_non_full(1, b"key", b"value", &mut pool).map(|_| ())
    );
    assert_eq!(before, pool.get_debug_blocks());
    assert_eq!(tag + 2, pool.next_id_tag());
}

#[test]
fn a_split_that_runs_out_of_memory_gives_back_what_it_took() {
    // room for the leaf, its key and its value and one node more, but not for two
    let mut pool = Pool::new(vec![0u8; PAGE_SIZE + 3 * (NODE_SIZE + OVERHEAD) - 8]);
    let empty = Node::new(0, NodeType::Leaf);
    let arc = empty.leaf_node_insert_non_full(1, b"k", b"v", &mut pool).unwrap();
    let leaf = Node::load(&pool, &arc).unwrap();
    let before = pool.get_debug_blocks();
    assert_eq!(Err(LodestoneError::OutOfMemory), leaf.split(2, &mut pool).map(|_| ()));
    assert_eq!(before, pool.get_debug_blocks());
    // a stale key fails the split before anything is allocated
    let mut stale = Node::load(&pool, &arc).unwrap();
    stale.keys[0].id_tag += 1;
    let tag = pool.next_id_tag();
    assert_eq!(Err(LodestoneError::InvalidReference), stale.split(2, &mut pool).map(|_| ()));
    assert_eq!(Err(LodestoneError::InvalidReference), stale.clone(&mut pool).map(|_| ()));
    assert_eq!(
        Err(LodestoneError::InvalidReference),
        Node::join(&stale, &empty, 3, &mut pool).map(|_| ())
    );
    assert_eq!(tag, pool.next_id_tag());
    assert_eq!(before, pool.get_debug_blocks());
}

#[test]
fn removing_a_key_writes_a_leaf_with_one_entry_less() {
    let mut pool = Pool::new(vec![0u8; 0x8000]);
    let older = leaf_in(&mut pool, &[(b"world", b"hello"), (b"hello", b"world")]);
    let older_leaf = Node::load(&pool, &older).unwrap();
    let newer = older_leaf.leaf_node_remove(9, b"hello", &mut pool).unwrap();
    let newer_leaf = Node::load(&pool, &newer).unwrap();
    assert_eq!(1, newer_leaf.num_keys());
    assert_eq!(1, newer_leaf.num_children());
    assert_eq!(
        "Leaf { tx_id: 9, keys: \"world\", children: \"hello\" }",
        DebuggableNode { node: &newer_leaf, pool: &pool }.debug_string()
    );
    // "world" and "hello" are held by both leaves, "hello" and "world" by the older one
    let world_key = older_leaf.keys[1].arc_inner_index;
    let hello_key = older_leaf.keys[0].arc_inner_index;
    let count = |pool: &Pool, index: usize| pool.index_to_arc_inner(index).strong;
    assert_eq!(2, count(&pool, world_key));
    assert_eq!(1, count(&pool, hello_key));
    // give the newer leaf back: its block is freed, the older leaf keeps its strings
    release_node(&mut newer.clone_to_persisted(&mut pool), &mut pool);
    newer.release(&mut pool);
    assert_eq!(1, count(&pool, world_key));
    assert_eq!(1, count(&pool, hello_key));
    assert_eq!((true, 0), older_leaf.index_or_insertion_of(b"hello", &pool));
    let blocks = pool.get_debug_blocks();
    assert!(blocks[blocks.len() - 1].is_free);
    assert_eq!(older.arc_inner_index - HEADER_SIZE, blocks[blocks.len() - 2].start);
    assert_well_formed(&pool);
}

#[test]
fn text_that_is_not_utf8_is_replaced() {
    let mut pool = Pool::new(vec![0u8; 0x8000]);
    let arc = leaf_in(&mut pool, &[(&[0x66, 0xff, 0x6f], b"caf\xc3\xa9")]);
    let leaf = Node::load(&pool, &arc).unwrap();
    assert_eq!(
        "Leaf { tx_id: 1, keys: \"f\u{fffd}o\", children: \"caf\u{e9}\" }",
        DebuggableNode { node: &leaf, pool: &pool }.debug_string()
    );
    assert_eq!("f\u{fffd}o:caf\u{e9}, ", leaf.to_string(&pool));
}

#[test]
fn tearing_down_a_stale_handle_changes_nothing() {
    let mut pool = Pool::new(vec![0u8; 0x8000]);
    let arc = leaf_in(&mut pool, &[(b"k", b"v")]);
    let before = pool.debug_string();
    let mut stale = PersistedArcByteSlice { arc_inner_index: arc.arc_inner_index, id_tag: 99 };
    release_node(&mut stale, &mut pool);
    assert_eq!(before, pool.debug_string());
    assert_eq!(99, stale.id_tag);
    // the last handle: the node, its key and its value are freed
    let mut handle = arc.clone_to_persisted(&mut pool);
    arc.release(&mut pool);
    release_node(&mut handle, &mut pool);
    assert_eq!(BUFFER_END, handle.arc_inner_index);
    assert_eq!(1, pool.get_debug_blocks().len());
    assert!(pool.get_debug_blocks()[0].is_free);
}

#[test]
fn texts_are_joined_with_a_comma_and_a_space() {
    let none: Vec<String> = vec![];
    let one = vec![String::from("a")];
    let three = vec![String::from("a"), String::from(""), String::from("c, d")];
    let mut out = String::from("[");
    append_joined(&mut out, &none);
    out.push('|');
    append_joined(&mut out, &one);
    out.push('|');
    append_joined(&mut out, &three);
    assert_eq!("[|a|a, , c, d", out);
    assert_eq!(
        "Internal { tx_id: 12, keys: \"a, , c, d\", children: \"\" }",
        node_debug_text(NodeType::Internal, 12, &three, &none)
    );
    assert_eq!(
        "Root { tx_id: 0, keys: \"a\", children: \"a\" }",
        node_debug_text(NodeType::Root, 0, &one, &one)
    );
    assert_eq!("", entries_debug_text(&none, &none));
    assert_eq!("a:a, :, c, d:c, d, ", entries_debug_text(&three, &three));
}

#[test]
fn a_pool_counts_its_allocated_blocks_and_can_be_cleared() {
    let mut pool = Pool::new(vec![0u8; 0x8000]);
    assert_eq!(0, pool.live_count());
    let page = pool.alloc_page().unwrap();
    assert_eq!(PAGE_SIZE, page.deref(&pool).len());
    assert_eq!(HEADER_SIZE, pool._inner_offset(&page));
    let other = pool.malloc(b"abc").unwrap();
    assert_eq!(2, pool.live_count());
    pool.free(&page);
    assert_eq!(1, pool.live_count());
    assert_eq!(b"abc", other.deref(&pool));
    let fresh = Pool::new(vec![0u8; 0x8000]).debug_string();
    assert_ne!(fresh, pool.debug_string());
    pool.clear();
    assert_eq!(fresh, pool.debug_string());
    assert_eq!(0, pool.live_count());
    assert!(!pool.is_valid(&PersistedArcByteSlice {
        arc_inner_index: other.arc_inner_index,
        id_tag: 3
    }));
}

#[test]
fn offsets_of_a_block_are_converted_into_one_another() {
    for index in
        [IndexType::SkipListStart(56), IndexType::ArcByteSliceStart(80), IndexType::DataStart(104)]
    {
        assert_eq!(56, index_to_skip_list_header(index));
        assert_eq!(80, index_to_arc_offset(index));
        assert_eq!(104, index_to_data_offset(index));
    }
}

#[test]
fn a_snapshot_shows_the_tree_through_one_change() {
    let mut tree = BTree::new(vec![0u8; 0x10000]);
    assert_eq!(Ok(()), tree.put(b"k", b"one"));
    let snap = tree.snapshot();
    assert_eq!(Ok(Some(b"one".to_vec())), tree.read_at(&snap, b"k"));
    assert_eq!(Ok(()), tree.put(b"k", b"two"));
    assert_eq!(Ok(()), tree.put(b"z", b"zed").and(Ok(())));
    // two changes later the root of the snapshot is gone
    assert_eq!(Err(LodestoneError::InvalidReference), tree.read_at(&snap, b"k"));
    let snap = tree.snapshot();
    assert_eq!(Ok(()), tree.delete(b"k"));
    assert_eq!(Ok(Some(b"two".to_vec())), tree.read_at(&snap, b"k"));
    assert_eq!(Ok(Some(b"zed".to_vec())), tree.read_at(&snap, b"z"));
    assert_eq!(Ok(None), tree.read_at(&snap, b"a"));
    assert_eq!(None, tree.read(b"k"));
}
