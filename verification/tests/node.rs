use lodestone::allocator::arc::{ArcByteSlice, PersistedArcByteSlice};
use lodestone::allocator::pool::{Pool, FIRST_OR_SINGLE_CONTENT_SIZE};
use lodestone::slicebtree::debug::DebuggableNode;
use lodestone::slicebtree::node::{Node, NodeType, NODE_SIZE};
use lodestone::slicebtree::teardown::release_node;

fn hello() -> Vec<u8> {
    String::from("hello").into_bytes()
}

fn world() -> Vec<u8> {
    String::from("world").into_bytes()
}

fn foo() -> Vec<u8> {
    String::from("foo").into_bytes()
}

fn bar() -> Vec<u8> {
    String::from("bar").into_bytes()
}

fn apple() -> Vec<u8> {
    String::from("apple").into_bytes()
}

fn banana() -> Vec<u8> {
    String::from("banana").into_bytes()
}

fn cherry() -> Vec<u8> {
    String::from("cherry").into_bytes()
}

fn blueberry() -> Vec<u8> {
    String::from("blueberry").into_bytes()
}

/// Allocates a node and makes it an empty leaf, as a tree does for its
/// first root.
fn empty_leaf(pool: &mut Pool) -> (ArcByteSlice, Node) {
    let arc = pool.make_new(NODE_SIZE).unwrap();
    let mut node = Node::new(7, NodeType::Root);
    node.init(0, NodeType::Leaf);
    pool.store(&arc, &node.encode());
    (arc, node)
}

fn node_of(pool: &Pool, arc: &ArcByteSlice) -> Node {
    Node::load(pool, arc).unwrap()
}

fn text_of(pool: &Pool, node: &Node) -> String {
    DebuggableNode { node, pool }.debug_string()
}

fn get_ref_count(persist: &PersistedArcByteSlice, pool: &mut Pool) -> usize {
    let arc = persist.clone_to_arc_byte_slice(pool).unwrap();
    let count = arc.get_ref_count(pool) - 1;
    arc.release(pool);
    count
}

#[test]
fn test_leaf_node_joins() {
    let buf = vec![0u8; 0x8000];
    let mut pool = Pool::new(buf);

    let (_n_arc, n) = empty_leaf(&mut pool);

    let n = n.leaf_node_insert_non_full(1, &hello(), &world(), &mut pool).unwrap();
    let n = node_of(&pool, &n)
        .leaf_node_insert_non_full(2, &cherry(), &blueberry(), &mut pool)
        .unwrap();
    let n = node_of(&pool, &n).leaf_node_insert_non_full(3, &foo(), &bar(), &mut pool).unwrap();

    let split = node_of(&pool, &n).split(4, &mut pool).unwrap();

    let join = Node::join(
        &node_of(&pool, &split.bottom_half),
        &node_of(&pool, &split.top_half),
        5,
        &mut pool,
    )
    .unwrap();

    assert_eq!(
        "Leaf { tx_id: 5, \
            keys: \"cherry, foo, hello\", \
            children: \"blueberry, bar, world\" }",
        format!("{}", text_of(&pool, &node_of(&pool, &join)))
    );
}

#[test]
fn node_test_leaf_node_split() {
    let buf = vec![0u8; 0x8000];
    let mut pool = Pool::new(buf);

    let (_n_arc, n) = empty_leaf(&mut pool);

    let n = n.leaf_node_insert_non_full(1, &hello(), &world(), &mut pool).unwrap();
    let n = node_of(&pool, &n)
        .leaf_node_insert_non_full(2, &cherry(), &blueberry(), &mut pool)
        .unwrap();
    let n = node_of(&pool, &n).leaf_node_insert_non_full(3, &foo(), &bar(), &mut pool).unwrap();

    assert_eq!(
        "Leaf { tx_id: 3, \
            keys: \"cherry, foo, hello\", \
            children: \"blueberry, bar, world\" }",
        format!("{}", text_of(&pool, &node_of(&pool, &n)))
    );

    let split = node_of(&pool, &n).split(4, &mut pool).unwrap();

    let bottom = node_of(&pool, &split.bottom_half);
    let top = node_of(&pool, &split.top_half);
    assert_eq!(1, bottom.num_keys());
    assert_eq!(1, bottom.num_children());
    assert_eq!(2, top.num_keys());
    assert_eq!(2, top.num_children());

    assert_eq!(foo(), split.mid_key.deref(&pool));

    assert!(top.leaf_node_contains_key(&hello(), &pool));
    assert!(bottom.leaf_node_contains_key(&cherry(), &pool));

    assert!(!bottom.leaf_node_contains_key(&hello(), &pool));
    assert!(!top.leaf_node_contains_key(&cherry(), &pool));

    assert!(top.leaf_node_contains_key(&foo(), &pool));

    let value = top.value_for_key(&foo(), &mut pool).unwrap();
    assert_eq!(bar(), value.deref(&pool));
    let value = top.value_for_key(&hello(), &mut pool).unwrap();
    assert_eq!(world(), value.deref(&pool));
    let value = bottom.value_for_key(&cherry(), &mut pool).unwrap();
    assert_eq!(blueberry(), value.deref(&pool));
}

#[test]
fn node_test_release_leaf_node() {
    let buf = vec![0u8; 0x5000];
    let mut pool = Pool::new(buf);

    let (n_arc, n) = empty_leaf(&mut pool);

    let n2 = n.leaf_node_insert_non_full(1, &hello(), &world(), &mut pool).unwrap();
    {
        let n3 = node_of(&pool, &n2)
            .leaf_node_insert_non_full(2, &foo(), &bar(), &mut pool)
            .unwrap();

        // Each node should provide 1 ref for its memory
        assert_eq!(1, n_arc.get_ref_count(&pool));
        assert_eq!(1, n2.get_ref_count(&pool));
        assert_eq!(1, n3.get_ref_count(&pool));

        // 'hello' should have 2 node refs and 'foo' should have 1 ref
        assert_eq!((true, 1), node_of(&pool, &n3).index_or_insertion_of(&hello(), &pool));
        assert_eq!(2, get_ref_count(&node_of(&pool, &n2).keys[0], &mut pool));
        assert_eq!(2, get_ref_count(&node_of(&pool, &n3).keys[1], &mut pool));
        assert_eq!(1, get_ref_count(&node_of(&pool, &n3).keys[0], &mut pool));

        // 'world' should have 2 node refs and 'bar' should have 1 ref
        assert_eq!(2, get_ref_count(&node_of(&pool, &n2).children[0], &mut pool));
        assert_eq!(2, get_ref_count(&node_of(&pool, &n3).children[1], &mut pool));
        assert_eq!(1, get_ref_count(&node_of(&pool, &n3).children[0], &mut pool));

        // Now, we'll free the last node, and watch the ref counts go down
        release_node(&mut n3.clone_to_persisted(&mut pool), &mut pool);
        // 'hello' and 'world' should have 1 node ref left
        assert_eq!(1, get_ref_count(&node_of(&pool, &n2).keys[0], &mut pool));
        assert_eq!(1, get_ref_count(&node_of(&pool, &n2).children[0], &mut pool));
        n3.release(&mut pool);
    }
    // n3 should be totally released now, as should 'foo' and 'bar'
    // The memory from 'foo' and 'bar' should have been reclaimed and merged
    assert_eq!(
        "Pool { buffer_size: 20480, \
            metadata: Metadata { lowest_known_free_index: 6672, next_id_tag: AtomicUsize(9) }, \
            blocks: [\
                _B { start: 0, capacity: 3232, next: 3280, prev: 18446744073709551615, is_free: false }, \
                _B { start: 3280, capacity: 8, next: 3336, prev: 0, is_free: false }, \
                _B { start: 3336, capacity: 8, next: 3392, prev: 3280, is_free: false }, \
                _B { start: 3392, capacity: 3232, next: 6672, prev: 3336, is_free: false }, \
                _B { start: 6672, capacity: 9664, next: 16384, prev: 3392, is_free: true }\
                ] \
            }",
        format!("{}", pool.debug_string())
    );
}

#[test]
fn test_insert_remove() {
    let buf: Vec<u8> = vec![0; 0x5000];
    let mut p = Pool::new(buf);
    let (_n_arc, n) = empty_leaf(&mut p);

    assert_eq!("Leaf { tx_id: 0, keys: \"\", children: \"\" }", format!("{}", text_of(&p, &n)));
    let n2_arc = n.leaf_node_insert_non_full(1, &hello(), &world(), &mut p).unwrap();
    assert_eq!(
        "Leaf { tx_id: 1, keys: \"hello\", children: \"world\" }",
        format!("{}", text_of(&p, &node_of(&p, &n2_arc)))
    );

    let n3_arc =
        node_of(&p, &n2_arc).leaf_node_insert_non_full(2, &banana(), &cherry(), &mut p).unwrap();
    assert_eq!(
        "Leaf { tx_id: 2, keys: \"banana, hello\", children: \"cherry, world\" }",
        format!("{}", text_of(&p, &node_of(&p, &n3_arc)))
    );

    let n4_arc = node_of(&p, &n3_arc).leaf_node_remove(3, &hello(), &mut p).unwrap();
    assert_eq!(
        "Leaf { tx_id: 3, keys: \"banana\", children: \"cherry\" }",
        format!("{}", text_of(&p, &node_of(&p, &n4_arc)))
    );
}

#[test]
fn node_test_insertion_ordering() {
    let buf = vec![0u8; 0x7000];
    let mut pool = Pool::new(buf);

    let (_n_arc, n) = empty_leaf(&mut pool);

    let n = n.leaf_node_insert_non_full(1, &banana(), &banana(), &mut pool).unwrap();
    let n =
        node_of(&pool, &n).leaf_node_insert_non_full(2, &apple(), &apple(), &mut pool).unwrap();
    assert_eq!((true, 1), node_of(&pool, &n).index_or_insertion_of(&banana(), &pool));
    assert_eq!((true, 0), node_of(&pool, &n).index_or_insertion_of(&apple(), &pool));

    let n =
        node_of(&pool, &n).leaf_node_insert_non_full(3, &cherry(), &cherry(), &mut pool).unwrap();
    assert_eq!((true, 1), node_of(&pool, &n).index_or_insertion_of(&banana(), &pool));
    assert_eq!((true, 0), node_of(&pool, &n).index_or_insertion_of(&apple(), &pool));
    assert_eq!((true, 2), node_of(&pool, &n).index_or_insertion_of(&cherry(), &pool));

    let n = node_of(&pool, &n)
        .leaf_node_insert_non_full(4, &blueberry(), &blueberry(), &mut pool)
        .unwrap();
    assert_eq!((true, 1), node_of(&pool, &n).index_or_insertion_of(&banana(), &pool));
    assert_eq!((true, 0), node_of(&pool, &n).index_or_insertion_of(&apple(), &pool));
    assert_eq!((true, 3), node_of(&pool, &n).index_or_insertion_of(&cherry(), &pool));
    assert_eq!((true, 2), node_of(&pool, &n).index_or_insertion_of(&blueberry(), &pool));

    assert_eq!(
        "Leaf { tx_id: 4, \
            keys: \"apple, banana, blueberry, cherry\", \
            children: \"apple, banana, blueberry, cherry\" \
        }",
        format!("{}", text_of(&pool, &node_of(&pool, &n)))
    );
}

#[test]
fn test_size_constraints() {
    // For efficiency, we want each node to fit inside a single page
    println!("CHECK {:?} < {:?}?", NODE_SIZE, FIRST_OR_SINGLE_CONTENT_SIZE);
    assert!(NODE_SIZE < FIRST_OR_SINGLE_CONTENT_SIZE);
}
