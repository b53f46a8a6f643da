//! Giving a node back: the references that it holds to its keys and
//! children, then the reference that a handle holds to the node itself.

use crate::allocator::arc::{ArcByteSlice, PersistedArcByteSlice};
use crate::allocator::pool::Pool;
use crate::allocator::view::PoolView;
use crate::slicebtree::handles::{handle_bytes, handle_valid, release_all, released, spent};
use crate::slicebtree::node::{decoding, encoding, parsable, Node, NodeType, NodeView, NODE_SIZE};
use vstd::prelude::*;

verus! {

/// How many levels of nodes a teardown descends. A tree that fits in a
/// buffer is far lower; below this depth children are given back as values
/// are.
pub const MAX_DEPTH: usize = 64;

/// The handle `h` denotes a node-sized allocation of the pool `v`.
pub open spec fn node_valid(v: PoolView, h: PersistedArcByteSlice) -> bool {
    handle_valid(v, h) && v.object(h.arc_inner_index as int).size == NODE_SIZE
}

/// The node `n` with other keys and children.
pub open spec fn with_rows(
    n: NodeView,
    keys: Seq<PersistedArcByteSlice>,
    children: Seq<PersistedArcByteSlice>,
) -> NodeView {
    NodeView { node_type: n.node_type, tx_id: n.tx_id, keys, children }
}

/// The children of the node that `h` denotes are nodes that a teardown to
/// `depth` levels descends into.
pub open spec fn descends(v: PoolView, h: PersistedArcByteSlice, depth: nat) -> bool {
    decoding(handle_bytes(v, h)).node_type != NodeType::Leaf && depth > 0
}

/// The pool `v` after the node that `h` denotes has given back what it
/// holds, and has been written back with the handles that are spent.
pub open spec fn emptied(v: PoolView, h: PersistedArcByteSlice, depth: nat) -> PoolView
    decreases depth, 0nat, 0nat,
{
    if !handle_valid(v, h) || !parsable(handle_bytes(v, h)) {
        v
    } else {
        let n = decoding(handle_bytes(v, h));
        let v1 = if descends(v, h, depth) {
            torn_rows(v, n.children, (depth - 1) as nat)
        } else {
            released(v, n.children)
        };
        let children = if descends(v, h, depth) {
            torn_spent(v, n.children, (depth - 1) as nat)
        } else {
            spent(v, n.children)
        };
        let v2 = released(v1, n.keys);
        if node_valid(v2, h) {
            v2.after_store(
                h.arc_inner_index as int,
                encoding(with_rows(n, spent(v1, n.keys), children)),
            )
        } else {
            v2
        }
    }
}

/// The pool `v` after the node that `h` denotes has given back what it
/// holds, and `h` its reference to the node. Nothing happens where `h` is
/// not valid.
pub open spec fn torn_down(v: PoolView, h: PersistedArcByteSlice, depth: nat) -> PoolView
    decreases depth, 1nat, 0nat,
{
    let w = emptied(v, h, depth);
    if handle_valid(w, h) {
        w.after_release(h.arc_inner_index as int)
    } else {
        w
    }
}

/// The pool `v` after the nodes that the handles of the row `hs` denote
/// have been torn down, the first one first.
pub open spec fn torn_rows(v: PoolView, hs: Seq<PersistedArcByteSlice>, depth: nat) -> PoolView
    decreases depth, 2nat, hs.len(),
{
    if hs.len() == 0 {
        v
    } else {
        torn_down(torn_rows(v, hs.drop_last(), depth), hs.last(), depth)
    }
}

/// The handle `h` after the node it denotes has been torn down: it denotes
/// nothing any more if it was valid when its reference was given back.
pub open spec fn torn_handle(v: PoolView, h: PersistedArcByteSlice, depth: nat)
    -> PersistedArcByteSlice
    decreases depth, 1nat, 0nat,
{
    if handle_valid(emptied(v, h, depth), h) {
        PersistedArcByteSlice::null()
    } else {
        h
    }
}

/// The row `hs` after the nodes that its handles denote have been torn
/// down.
pub open spec fn torn_spent(v: PoolView, hs: Seq<PersistedArcByteSlice>, depth: nat) -> Seq<
    PersistedArcByteSlice,
>
    decreases depth, 3nat, 0nat,
{
    Seq::new(hs.len(), |k: int| torn_handle(torn_rows(v, hs.take(k), depth), hs[k], depth))
}

/// Tears down the node that `persist` denotes, descending `depth` levels
/// at most.
fn release_subtree(persist: &mut PersistedArcByteSlice, pool: &mut Pool, depth: usize)
    requires
        old(pool).wf(),
    ensures
        final(pool).wf(),
        final(pool)@ == torn_down(old(pool)@, *old(persist), depth as nat),
        *final(persist) == torn_handle(old(pool)@, *old(persist), depth as nat),
    decreases depth,
{
    let ghost v = pool@;
    let ghost h = *persist;
    let loaded = match pool.peek(persist) {
        None => None,
        Some(bytes) => Node::decode(bytes),
    };
    match loaded {
        None => {},
        Some(node) => {
            let mut node = node;
            let ghost n = node@;
            if node.node_type != NodeType::Leaf && depth > 0 {
                let mut k: usize = 0;
                while k < node.children.len()
                    invariant
                        k <= node.children@.len(),
                        node.children@.len() == n.children.len(),
                        node.node_type == n.node_type,
                        node.tx_id == n.tx_id,
                        node.keys@ == n.keys,
                        depth > 0,
                        pool.wf(),
                        pool@ == torn_rows(v, n.children.take(k as int), (depth - 1) as nat),
                        forall|j: int|
                            0 <= j < k ==> node.children@[j] == torn_spent(
                                v,
                                n.children,
                                (depth - 1) as nat,
                            )[j],
                        forall|j: int|
                            k <= j < node.children@.len() ==> node.children@[j] == n.children[j],
                    decreases node.children@.len() - k,
                {
                    let mut child = PersistedArcByteSlice {
                        arc_inner_index: node.children[k].arc_inner_index,
                        id_tag: node.children[k].id_tag,
                    };
                    proof {
                        assert(n.children.take(k + 1).drop_last() =~= n.children.take(k as int));
                        assert(n.children.take(k + 1).last() == n.children[k as int]);
                    }
                    release_subtree(&mut child, pool, depth - 1);
                    node.children.set(k, child);
                    k += 1;
                }
                proof {
                    assert(n.children.take(k as int) =~= n.children);
                    assert(node.children@ =~= torn_spent(v, n.children, (depth - 1) as nat));
                }
            } else {
                release_all(pool, &mut node.children);
            }
            let ghost v1 = pool@;
            release_all(pool, &mut node.keys);
            if pool.is_valid(persist) {
                let arc = ArcByteSlice { arc_inner_index: persist.arc_inner_index };
                if pool.index_to_arc_inner(persist.arc_inner_index).size == NODE_SIZE {
                    let bytes = node.encode();
                    pool.store(&arc, bytes.as_slice());
                }
            }
        },
    }
    let _ = persist.release(pool);
}

/// Tears down the node that `persist` denotes: gives back the references
/// that the node holds to its children, which are torn down in turn where
/// they are nodes, and to its keys; then the reference that `persist` holds
/// to the node. `persist` denotes nothing afterwards. Nothing happens where
/// `persist` is not valid.
pub fn release_node(persist: &mut PersistedArcByteSlice, pool: &mut Pool)
    requires
        old(pool).wf(),
    ensures
        final(pool).wf(),
        final(pool)@ == torn_down(old(pool)@, *old(persist), MAX_DEPTH as nat),
        *final(persist) == torn_handle(old(pool)@, *old(persist), MAX_DEPTH as nat),
{
    release_subtree(persist, pool, MAX_DEPTH);
}

} // verus!
