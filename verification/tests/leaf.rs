use lodestone::allocator::arc::ArcByteSlice;
use lodestone::allocator::pool::{Pool, PAGE_SIZE};
use lodestone::slicebtree::node::{Node, NodeType, NODE_SIZE};

fn alloc_node(node_type: NodeType, tx: usize, pool: &mut Pool) -> (ArcByteSlice, Node) {
    let arc = pool.make_new(NODE_SIZE).unwrap();
    let node = Node::new(tx, node_type);
    pool.store(&arc, &node.encode());
    (arc, node)
}

fn node_of(pool: &Pool, arc: &ArcByteSlice) -> Node {
    Node::load(pool, arc).unwrap()
}

#[test]
fn node_old_test_leaf_node_split() {
    let buf = vec![0u8; 0x8000];
    let mut pool = Pool::new(buf);
    let (_arc, n) = alloc_node(NodeType::Leaf, 0, &mut pool);
    let hello = String::from("hello").into_bytes();
    let world = String::from("world").into_bytes();
    let foo = String::from("foo").into_bytes();
    let bar = String::from("bar").into_bytes();
    let rust = String::from("rust").into_bytes();
    let iscool = String::from("is cool").into_bytes();

    let n = n.leaf_node_insert_non_full(1, &hello[..], &world[..], &mut pool).unwrap();
    let n = node_of(&pool, &n)
        .leaf_node_insert_non_full(2, &rust[..], &iscool[..], &mut pool)
        .unwrap();
    let n =
        node_of(&pool, &n).leaf_node_insert_non_full(3, &foo[..], &bar[..], &mut pool).unwrap();

    println!("CURRENT CONTENTS: {}", node_of(&pool, &n).to_string(&pool));

    let split = node_of(&pool, &n).split(4, &mut pool).unwrap();
    let nb = node_of(&pool, &split.bottom_half);
    let nt = node_of(&pool, &split.top_half);
    // Each half should have 1 key and 1 child
    assert_eq!(1, nb.num_keys());
    assert_eq!(1, nb.num_children());
    assert_eq!(2, nt.num_keys());
    assert_eq!(2, nt.num_children());
    assert_eq!(
        "hello",
        split.mid_key.deref(&pool).iter().cloned().map(|c| c as char).collect::<String>()
    );

    assert!(nt.leaf_node_contains_key(&hello[..], &pool));
    assert!(nb.leaf_node_contains_key(&foo[..], &pool));

    assert!(!nb.leaf_node_contains_key(&hello[..], &pool));
    assert!(!nt.leaf_node_contains_key(&foo[..], &pool));

    assert!(nt.leaf_node_contains_key(&rust[..], &pool));
}

#[test]
fn test_leaf_node_remove() {
    let buf = vec![0u8; 0x7000];
    let mut pool = Pool::new(buf);
    let (_arc, n) = alloc_node(NodeType::Leaf, 0, &mut pool);

    let hello = String::from("hello").into_bytes();
    let world = String::from("world").into_bytes();

    let foo = String::from("foo").into_bytes();
    let bar = String::from("bar").into_bytes();

    let n2 = n.leaf_node_insert_non_full(1, &hello[..], &world[..], &mut pool).unwrap();
    let n3 =
        node_of(&pool, &n2).leaf_node_insert_non_full(2, &foo[..], &bar[..], &mut pool).unwrap();
    let n4 = node_of(&pool, &n3).leaf_node_remove(3, &foo[..], &mut pool).unwrap();
    let n3 = node_of(&pool, &n3);
    let n4 = node_of(&pool, &n4);

    assert!(n3.leaf_node_contains_key(&foo[..], &pool));
    assert!(!n4.leaf_node_contains_key(&foo[..], &pool));
    assert!(n4.leaf_node_contains_key(&hello[..], &pool));
    assert_eq!(2, n3.num_keys());
    assert_eq!(2, n3.num_children());
    assert_eq!(1, n4.num_keys());
    assert_eq!(1, n4.num_children());

    let n5 = n4.leaf_node_remove(4, &hello, &mut pool).unwrap();
    let n5 = node_of(&pool, &n5);
    assert_eq!(0, n5.num_keys());
    assert_eq!(0, n5.num_children());
    assert!(!n5.leaf_node_contains_key(&hello[..], &pool));
}

#[test]
fn test_insert_internal_non_full() {
    let buf = vec![0u8; 0x4000];
    let mut pool = Pool::new(buf);
    let (_arc, n) = alloc_node(NodeType::Leaf, 0, &mut pool);

    let key = String::from("hello").into_bytes();
    let value = String::from("world").into_bytes();

    assert_eq!(0, n.num_keys());
    assert_eq!(0, n.num_children());

    let n2 = n.leaf_node_insert_non_full(1, &key[..], &value[..], &mut pool).unwrap();
    let n2 = node_of(&pool, &n2);
    assert_eq!(0, n.num_keys());
    assert_eq!(0, n.num_children());
    assert_eq!(1, n2.num_keys());
    assert_eq!(1, n2.num_children());

    assert_eq!(&key[..], pool.peek(&n2.keys[0]).unwrap());
    assert_eq!(&value[..], pool.peek(&n2.children[0]).unwrap());

    assert!(n2.leaf_node_contains_key(&key[..], &pool));
    assert!(!n.leaf_node_contains_key(&key[..], &pool));
}

#[test]
fn node_old_test_insertion_ordering() {
    let buf = vec![0u8; 0x7000];
    let mut pool = Pool::new(buf);
    let (_arc, n) = alloc_node(NodeType::Leaf, 0, &mut pool);

    let apple = String::from("apple").into_bytes();
    let banana = String::from("banana").into_bytes();
    let cherry = String::from("cherry").into_bytes();
    let blueberry = String::from("blueberry").into_bytes();

    let n = n.leaf_node_insert_non_full(1, &banana[..], &banana[..], &mut pool).unwrap();
    let n = node_of(&pool, &n)
        .leaf_node_insert_non_full(1, &apple[..], &apple[..], &mut pool)
        .unwrap();
    assert_eq!(1, node_of(&pool, &n).index_or_insertion_of(&banana[..], &pool).1);
    assert_eq!(0, node_of(&pool, &n).index_or_insertion_of(&apple[..], &pool).1);

    let n = node_of(&pool, &n)
        .leaf_node_insert_non_full(1, &cherry[..], &cherry[..], &mut pool)
        .unwrap();
    assert_eq!(1, node_of(&pool, &n).index_or_insertion_of(&banana[..], &pool).1);
    assert_eq!(0, node_of(&pool, &n).index_or_insertion_of(&apple[..], &pool).1);
    assert_eq!(2, node_of(&pool, &n).index_or_insertion_of(&cherry[..], &pool).1);

    let n = node_of(&pool, &n)
        .leaf_node_insert_non_full(1, &blueberry[..], &blueberry[..], &mut pool)
        .unwrap();
    assert_eq!(1, node_of(&pool, &n).index_or_insertion_of(&banana[..], &pool).1);
    assert_eq!(0, node_of(&pool, &n).index_or_insertion_of(&apple[..], &pool).1);
    assert_eq!(3, node_of(&pool, &n).index_or_insertion_of(&cherry[..], &pool).1);
    assert_eq!(2, node_of(&pool, &n).index_or_insertion_of(&blueberry[..], &pool).1);

    assert_eq!(
        "apple:apple, banana:banana, blueberry:blueberry, cherry:cherry, ",
        node_of(&pool, &n).to_string(&pool)
    );
}

#[test]
fn test_invariants() {
    println!("CHECK {:?} < {:?}?", NODE_SIZE, PAGE_SIZE);
    assert!(NODE_SIZE < PAGE_SIZE);
}
