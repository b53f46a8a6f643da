//! The tree: a pool, a small ring of roots, and the transaction counter.
//! Every change writes a new root into the slot behind the current one.

use crate::allocator::arc::{ArcByteSlice, PersistedArcByteSlice};
use crate::allocator::pool::Pool;
use crate::allocator::view::{chunk_size, PoolView};
use crate::slicebtree::counts::{
    lemma_committed_count, lemma_committed_place, lemma_inserted_old, lemma_inserted_refs,
    lemma_inserted_steps, lemma_updated_refs, lemma_refs_bounds, lemma_refs_dead,
    lemma_removed_refs, lemma_same_layout, lemma_torn_count, lemma_updated_old,
    lemma_updated_steps, one_if,
};
use crate::slicebtree::handles::{
    count_ok, handle_bytes, handle_valid, lemma_kept_row, lemma_occ_bounds, lemma_occ_has,
    lemma_occ_none, lemma_release_count, lemma_retain_count, lemma_retain_keeps_all,
};
use crate::slicebtree::leaf::{
    key_at, lemma_pairs_map_absent, lemma_pairs_map_at, lemma_pairs_map_empty,
    lemma_pairs_map_insert, lemma_pairs_map_remove, lemma_pairs_map_update, pairs_map,
};
use crate::slicebtree::node::{
    insert_fits, inserted_node, update_fits, updated_node, Node, NodeType, NodeView, B,
    NODE_SIZE,
};
use crate::slicebtree::order::lex_lt;
use crate::slicebtree::teardown::{release_node, MAX_DEPTH};
use crate::LodestoneError;
use vstd::pervasive::unreached;
use vstd::prelude::*;
use vstd::slice::slice_to_vec;

verus! {

/// How many roots the tree keeps: the current one and the one before it.
pub const N: usize = 2;

/// The smallest buffer that holds a tree: the metadata page and one node.
pub const MIN_BUFFER_SIZE: usize = 7376;

/// The map that a leaf holds in the pool `v`.
pub open spec fn leaf_map(v: PoolView, n: NodeView) -> Map<Seq<u8>, Seq<u8>> {
    pairs_map(n.key_bytes(v), n.child_bytes(v))
}

/// A token for the tree as it stands when the token is taken: it names the
/// root that is current then.
#[derive(Debug, Clone, Copy, PartialEq, Eq, Structural)]
pub struct Snapshot {
    pub root_index: usize,
    pub root_tag: usize,
}

/// The map `m` with each of the keys `ks` put in, the first one first, with
/// the value at its index in `vs`.
pub open spec fn put_all(m: Map<Seq<u8>, Seq<u8>>, ks: Seq<Seq<u8>>, vs: Seq<Seq<u8>>) -> Map<
    Seq<u8>,
    Seq<u8>,
>
    decreases ks.len(),
{
    if ks.len() == 0 {
        m
    } else {
        put_all(m, ks.drop_last(), vs.drop_last()).insert(ks.last(), vs.last())
    }
}

/// The map `m` with each of the keys `ks` taken out, the first one first.
pub open spec fn delete_all(m: Map<Seq<u8>, Seq<u8>>, ks: Seq<Seq<u8>>) -> Map<Seq<u8>, Seq<u8>>
    decreases ks.len(),
{
    if ks.len() == 0 {
        m
    } else {
        delete_all(m, ks.drop_last()).remove(ks.last())
    }
}

/// A map from byte strings to byte strings that lives in one buffer. The
/// root of the tree is a leaf.
pub struct BTree {
    page_pool: Pool,
    current_root: usize,
    tx_id: usize,
    roots: Vec<PersistedArcByteSlice>,
    current: Ghost<NodeView>,
    previous: Ghost<NodeView>,
    lent: Ghost<Map<int, nat>>,
}

impl View for BTree {
    type V = Map<Seq<u8>, Seq<u8>>;

    closed spec fn view(&self) -> Map<Seq<u8>, Seq<u8>> {
        leaf_map(self.page_pool@, self.current@)
    }
}

impl BTree {
    /// The handle in the current slot of the ring.
    closed spec fn cur(&self) -> PersistedArcByteSlice {
        self.roots@[self.current_root as int]
    }

    /// The handle in the other slot of the ring.
    closed spec fn prev(&self) -> PersistedArcByteSlice {
        self.roots@[1 - self.current_root]
    }

    /// Both slots of the ring hold the same node.
    closed spec fn shared(&self) -> bool {
        self.cur().arc_inner_index == self.prev().arc_inner_index
    }

    /// How many live handles to the object at `x` the tree has handed out
    /// and not got back.
    pub closed spec fn lent_out(&self, x: int) -> nat {
        if self.lent@.dom().contains(x) {
            self.lent@[x]
        } else {
            0
        }
    }

    /// The bytes of the object at `x`.
    pub closed spec fn bytes_of(&self, x: int) -> Seq<u8> {
        self.page_pool@.object(x).data
    }

    /// How many references the tree accounts for to the object at `x`:
    /// those of its two roots, those of the ring to the roots, and those of
    /// the handles that it has handed out.
    closed spec fn held(&self, x: int) -> int {
        self.current@.refs(x) + (if self.shared() {
            0
        } else {
            self.previous@.refs(x)
        }) + one_if(x, self.cur().arc_inner_index as int) + one_if(
            x,
            self.prev().arc_inner_index as int,
        ) + self.lent_out(x)
    }

    /// The ring holds two valid handles to the two roots, which are leaves
    /// whose rows name no root.
    closed spec fn rooted(&self) -> bool {
        let v = self.page_pool@;
        &&& self.page_pool.wf()
        &&& self.roots@.len() == N
        &&& self.current_root < N
        &&& handle_valid(v, self.cur())
        &&& handle_valid(v, self.prev())
        &&& self.current@.stored_at(v, self.cur().arc_inner_index as int)
        &&& self.previous@.stored_at(v, self.prev().arc_inner_index as int)
        &&& self.current@.fits()
        &&& self.previous@.fits()
        &&& self.current@.node_type == NodeType::Leaf
        &&& self.previous@.node_type == NodeType::Leaf
        &&& self.current@.keys.len() == self.current@.children.len()
        &&& self.current@.valid_in(v)
        &&& self.current@.keyed_in(v)
        &&& self.previous@.valid_in(v)
        &&& self.previous@.keyed_in(v)
        &&& self.previous@.keys.len() == self.previous@.children.len()
        &&& self.shared() ==> self.current@.keys.len() == 0
        &&& self.current@.refs(self.cur().arc_inner_index as int) == 0
        &&& self.current@.refs(self.prev().arc_inner_index as int) == 0
        &&& self.previous@.refs(self.cur().arc_inner_index as int) == 0
        &&& self.previous@.refs(self.prev().arc_inner_index as int) == 0
        &&& self.lent_out(self.cur().arc_inner_index as int) == 0
        &&& self.lent_out(self.prev().arc_inner_index as int) == 0
    }

    /// The strong count of every object covers the references that the tree
    /// holds to it, and `extra` more.
    closed spec fn covered(&self, extra: spec_fn(int) -> int) -> bool {
        forall|x: int|
            #[trigger] self.held(x) + extra(x) >= 1 ==> self.page_pool@.is_live(x) && count_ok(
                self.page_pool@.object(x).strong,
                self.held(x) + extra(x),
            )
    }

    /// The tree is in order: its pool is well-formed, its roots are leaves
    /// whose keys rise, and every object that it refers to is alive.
    pub closed spec fn wf(&self) -> bool {
        self.rooted() && self.covered(|x: int| 0int)
    }

    /// The pool that the tree lives in.
    pub closed spec fn pool_view(&self) -> PoolView {
        self.page_pool@
    }

    /// The number of the next transaction.
    pub closed spec fn next_tx(&self) -> usize {
        self.tx_id
    }

    /// Lays out an empty tree in `buf`: a pool with one empty leaf, which
    /// every slot of the ring refers to.
    pub fn new(buf: Vec<u8>) -> (tree: BTree)
        requires
            buf.len() >= MIN_BUFFER_SIZE,
        ensures
            tree.wf(),
            tree@ == Map::<Seq<u8>, Seq<u8>>::empty(),
            tree.next_tx() == 0,
    {
        let mut pool = Pool::new(buf);
        let ghost v0 = pool@;
        let node = Node::new(0, NodeType::Leaf);
        proof {
            reveal_with_fuel(PoolView::first_fit_from, 2);
            assert(v0.fits(0, chunk_size(NODE_SIZE as int)));
            assert(v0.can_alloc(NODE_SIZE as int));
        }
        let arc = match node.clone(&mut pool) {
            Ok(arc) => arc,
            Err(_) => {
                assert(false);
                unreached()
            },
        };
        let ghost v1 = pool@;
        let first = arc.clone_to_persisted(&mut pool);
        let ghost v2 = pool@;
        let second = arc.clone_to_persisted(&mut pool);
        let ghost v3 = pool@;
        let ghost x = arc.arc_inner_index as int;
        proof {
            node@.lemma_committed(v0);
            lemma_committed_place(v0, node@);
            v1.lemma_retain_keeps(x, x);
            v2.lemma_retain_keeps(x, x);
        }
        arc.release(&mut pool);
        let mut roots: Vec<PersistedArcByteSlice> = Vec::new();
        roots.push(first);
        roots.push(second);
        let tree = BTree {
            page_pool: pool,
            current_root: 0,
            tx_id: 0,
            roots,
            current: Ghost(node@),
            previous: Ghost(node@),
            lent: Ghost(Map::empty()),
        };
        proof {
            let w = tree.page_pool@;
            v3.lemma_release_keeps(x, x);
            lemma_occ_none(node@.keys, x);
            lemma_occ_none(node@.children, x);
            assert(tree.rooted());
            assert forall|y: int| #[trigger] tree.held(y) + 0 >= 1 implies w.is_live(y) && count_ok(
                w.object(y).strong,
                tree.held(y) + 0,
            ) by {
                lemma_occ_none(node@.keys, y);
                lemma_occ_none(node@.children, y);
            }
            lemma_pairs_map_empty(node@.key_bytes(w), node@.child_bytes(w));
        }
        tree
    }

    /// Lays out an empty tree in `buf`, if `buf` is large enough for one.
    pub fn open(buf: Vec<u8>) -> (res: Result<BTree, LodestoneError>)
        ensures
            match res {
                Ok(tree) => {
                    &&& buf.len() >= MIN_BUFFER_SIZE
                    &&& tree.wf()
                    &&& tree@ == Map::<Seq<u8>, Seq<u8>>::empty()
                    &&& tree.next_tx() == 0
                },
                Err(e) => e == LodestoneError::TooSmall && buf.len() < MIN_BUFFER_SIZE,
            },
    {
        if buf.len() < MIN_BUFFER_SIZE {
            Err(LodestoneError::TooSmall)
        } else {
            Ok(BTree::new(buf))
        }
    }

    /// The node in the current slot, read from the pool.
    fn current_node(&self) -> (node: Node)
        requires
            self.wf(),
        ensures
            node@ == self.current@,
    {
        proof {
            self.current@.law_encoding_round_trip();
        }
        match self.page_pool.peek(&self.roots[self.current_root]) {
            Some(bytes) => match Node::decode(bytes) {
                Some(node) => node,
                None => {
                    assert(false);
                    unreached()
                },
            },
            None => {
                assert(false);
                unreached()
            },
        }
    }

    /// A copy of the value that the tree holds for `key`, or nothing where it
    /// holds none.
    pub fn read(&self, key: &[u8]) -> (res: Option<Vec<u8>>)
        requires
            self.wf(),
        ensures
            match res {
                Some(value) => self@.dom().contains(key@) && value@ == self@[key@],
                None => !self@.dom().contains(key@),
            },
    {
        let node = self.current_node();
        self.lookup(&node, key)
    }
}

impl BTree {
    /// The number of the transaction after `tx`: the counter starts again
    /// at 0 once it has reached the largest number.
    pub open spec fn tx_after(tx: usize) -> usize {
        if tx < usize::MAX {
            (tx + 1) as usize
        } else {
            0
        }
    }

    /// The node `node`, which stands at `at` and is held by one live handle,
    /// can take the place of the current root.
    closed spec fn ready(&self, at: int, node: NodeView) -> bool {
        let v = self.page_pool@;
        &&& self.rooted()
        &&& node.stored_at(v, at)
        &&& node.fits()
        &&& node.node_type == NodeType::Leaf
        &&& node.keys.len() == node.children.len()
        &&& node.valid_in(v)
        &&& node.keyed_in(v)
        &&& at != self.cur().arc_inner_index
        &&& at != self.prev().arc_inner_index
        &&& node.refs(at) == 0
        &&& node.refs(self.cur().arc_inner_index as int) == 0
        &&& node.refs(self.prev().arc_inner_index as int) == 0
        &&& self.current@.refs(at) == 0
        &&& self.previous@.refs(at) == 0
        &&& self.lent_out(at) == 0
        &&& self.covered(|x: int| node.refs(x) + one_if(x, at))
    }

    /// The tree is in order in a pool that differs from the pool it was in
    /// order in by the tag counter at most.
    proof fn lemma_wf_same_layout(&self, before: &BTree)
        requires
            before.wf(),
            self.page_pool.wf(),
            self.page_pool@.same_layout(before.page_pool@),
            self.roots@ == before.roots@,
            self.current_root == before.current_root,
            self.current@ == before.current@,
            self.previous@ == before.previous@,
            self.lent@ == before.lent@,
        ensures
            self.wf(),
            self@ == before@,
            self.previous_view() == before.previous_view(),
            forall|snap: Snapshot| #[trigger] self.shows(&snap) == before.shows(&snap),
            forall|snap: Snapshot| #[trigger] self.is_current(&snap) == before.is_current(&snap),
            forall|x: int| #[trigger] self.lent_out(x) == before.lent_out(x),
            forall|x: int| before.lent_out(x) >= 1 ==> #[trigger] self.bytes_of(x) == before.bytes_of(x),
    {
        let v = before.page_pool@;
        let w = self.page_pool@;
        lemma_same_layout(v, w);
        lemma_kept_row(v, w, self.current@.keys);
        lemma_kept_row(v, w, self.current@.children);
        lemma_kept_row(v, w, self.previous@.keys);
        lemma_kept_row(v, w, self.previous@.children);
        assert(v.same_payload(w, self.cur().arc_inner_index as int));
        assert(v.same_payload(w, self.prev().arc_inner_index as int));
        assert forall|x: int| #[trigger] self.held(x) + 0 >= 1 implies w.is_live(x) && count_ok(
            w.object(x).strong,
            self.held(x) + 0,
        ) by {
            assert(before.held(x) == self.held(x));
            assert(before.held(x) + 0 >= 1);
            assert(v.same_object(w, x));
        }
        assert forall|x: int| before.lent_out(x) >= 1 implies #[trigger] self.bytes_of(x)
            == before.bytes_of(x) by {
            lemma_refs_bounds(before.current@, x);
            lemma_refs_bounds(before.previous@, x);
            assert(before.held(x) + 0 >= 1);
            assert(v.same_object(w, x));
        }
    }

    /// Puts the node that `arc` denotes into the slot behind the current
    /// one, makes that slot the current one, and tears down the node that
    /// the slot held.
    #[verifier::rlimit(80)]
    fn publish(&mut self, arc: ArcByteSlice, Ghost(node): Ghost<NodeView>)
        requires
            old(self).ready(arc.arc_inner_index as int, node),
            old(self).page_pool.holds(&arc),
        ensures
            final(self).wf(),
            final(self)@ == leaf_map(old(self).page_pool@, node),
            final(self).previous_view() == old(self)@,
            final(self).next_tx() == Self::tx_after(old(self).next_tx()),
            final(self).prev() == old(self).cur(),
            final(self).cur().arc_inner_index != old(self).cur().arc_inner_index,
            forall|x: int| #[trigger] final(self).lent_out(x) == old(self).lent_out(x),
            forall|x: int|
                old(self).lent_out(x) >= 1 ==> #[trigger] final(self).bytes_of(x) == old(
                    self,
                ).bytes_of(x),
    {
        let ghost v0 = self.page_pool@;
        let ghost at = arc.arc_inner_index as int;
        let ghost a_at = self.cur().arc_inner_index as int;
        let ghost p_at = self.prev().arc_inner_index as int;
        let ghost a = self.current@;
        let ghost p = self.previous@;
        let ghost shared = self.shared();
        let next = 1 - self.current_root;
        let handle = arc.clone_to_persisted(&mut self.page_pool);
        let ghost v1 = self.page_pool@;
        let mut displaced = PersistedArcByteSlice {
            arc_inner_index: self.roots[next].arc_inner_index,
            id_tag: self.roots[next].id_tag,
        };
        let ghost gone = displaced;
        self.roots.set(next, handle);
        self.current_root = next;
        proof {
            self.previous@ = a;
            self.current@ = node;
            a.law_encoding_round_trip();
            p.law_encoding_round_trip();
            if shared {
                assert(p == a);
            }
            lemma_retain_count(v0, at, p_at, 1);
            lemma_occ_bounds(p.keys, p_at);
            lemma_occ_bounds(p.children, p_at);
        }
        release_node(&mut displaced, &mut self.page_pool);
        let ghost v2 = self.page_pool@;
        proof {
            // the new root outlives the teardown
            lemma_refs_bounds(a, at);
            lemma_refs_bounds(p, at);
            assert(old(self).held(at) + (node.refs(at) + one_if(at, at)) >= 1);
            lemma_retain_count(v0, at, at, 1);
            lemma_torn_count(v1, gone, p, MAX_DEPTH as nat, at, 2);
        }
        arc.release(&mut self.page_pool);
        self.tx_id = if self.tx_id < usize::MAX {
            self.tx_id + 1
        } else {
            0
        };
        proof {
            let v3 = self.page_pool@;
            assert forall|x: int| #[trigger] self.held(x) + 0 >= 1 implies v0.same_payload(v3, x)
                && v3.is_live(x) && count_ok(v3.object(x).strong, self.held(x) + 0) by {
                let new_held = self.held(x);
                let extra = node.refs(x) + one_if(x, at);
                lemma_refs_bounds(a, x);
                lemma_refs_bounds(p, x);
                lemma_refs_bounds(node, x);
                assert(new_held == node.refs(x) + a.refs(x) + one_if(x, at) + one_if(x, a_at)
                    + self.lent_out(x));
                assert(old(self).held(x) + extra >= new_held);
                let h0 = old(self).held(x) + extra;
                assert(v0.is_live(x) && count_ok(v0.object(x).strong, h0));
                lemma_retain_count(v0, at, x, h0);
                let rest = new_held + one_if(x, at);
                assert(h0 + one_if(x, at) == p.refs(x) + one_if(x, p_at) + rest);
                lemma_torn_count(v1, gone, p, MAX_DEPTH as nat, x, rest);
                lemma_release_count(v2, at, x, new_held);
            }
            assert forall|i: int| 0 <= i < node.keys.len() implies handle_valid(
                v3,
                #[trigger] node.keys[i],
            ) && handle_bytes(v3, node.keys[i])
                == handle_bytes(v0, node.keys[i]) by {
                lemma_occ_has(node.keys, i);
                lemma_occ_bounds(node.children, node.keys[i].arc_inner_index as int);
                lemma_refs_bounds(a, node.keys[i].arc_inner_index as int);
                assert(handle_valid(v0, node.keys[i]));
                assert(self.held(node.keys[i].arc_inner_index as int) + 0 >= 1);
            }
            assert forall|i: int| 0 <= i < node.children.len() implies handle_valid(
                v3,
                #[trigger] node.children[i],
            ) && handle_bytes(v3, node.children[i])
                == handle_bytes(v0, node.children[i]) by {
                lemma_occ_has(node.children, i);
                lemma_occ_bounds(node.keys, node.children[i].arc_inner_index as int);
                lemma_refs_bounds(a, node.children[i].arc_inner_index as int);
                assert(handle_valid(v0, node.children[i]));
                assert(self.held(node.children[i].arc_inner_index as int) + 0 >= 1);
            }
            assert forall|i: int| 0 <= i < a.keys.len() implies handle_valid(
                v3,
                #[trigger] a.keys[i],
            ) && handle_bytes(v3, a.keys[i])
                == handle_bytes(v0, a.keys[i]) by {
                lemma_occ_has(a.keys, i);
                lemma_occ_bounds(a.children, a.keys[i].arc_inner_index as int);
                lemma_refs_bounds(node, a.keys[i].arc_inner_index as int);
                assert(handle_valid(v0, a.keys[i]));
                assert(self.held(a.keys[i].arc_inner_index as int) + 0 >= 1);
            }
            assert forall|i: int| 0 <= i < a.children.len() implies handle_valid(
                v3,
                #[trigger] a.children[i],
            ) && handle_bytes(v3, a.children[i])
                == handle_bytes(v0, a.children[i]) by {
                lemma_occ_has(a.children, i);
                lemma_occ_bounds(a.keys, a.children[i].arc_inner_index as int);
                lemma_refs_bounds(node, a.children[i].arc_inner_index as int);
                assert(handle_valid(v0, a.children[i]));
                assert(self.held(a.children[i].arc_inner_index as int) + 0 >= 1);
            }
            assert(node.key_bytes(v3) =~= node.key_bytes(v0));
            assert(node.child_bytes(v3) =~= node.child_bytes(v0));
            assert(a.key_bytes(v3) =~= a.key_bytes(v0));
            assert(a.child_bytes(v3) =~= a.child_bytes(v0));
            lemma_refs_bounds(node, at);
            lemma_refs_bounds(node, a_at);
            lemma_refs_bounds(a, at);
            lemma_refs_bounds(a, a_at);
            assert(self.held(at) + 0 >= 1);
            assert(self.held(a_at) + 0 >= 1);
            assert(self.rooted());
            assert forall|x: int| old(self).lent_out(x) >= 1 implies #[trigger] self.bytes_of(x)
                == old(self).bytes_of(x) by {
                lemma_refs_bounds(node, x);
                lemma_refs_bounds(a, x);
                assert(self.held(x) + 0 >= 1);
            }
        }
    }

    /// The map that the tree held before the last change.
    pub closed spec fn previous_view(&self) -> Map<Seq<u8>, Seq<u8>> {
        leaf_map(self.page_pool@, self.previous@)
    }

    /// The token `snap` names the current root.
    pub closed spec fn is_current(&self, snap: &Snapshot) -> bool {
        snap.root_index == self.cur().arc_inner_index && snap.root_tag == self.cur().id_tag
    }

    /// The map that the token `snap` shows: that of the root it names, as
    /// long as the tree keeps that root.
    pub closed spec fn shows(&self, snap: &Snapshot) -> Option<Map<Seq<u8>, Seq<u8>>> {
        if self.is_current(snap) {
            Some(self@)
        } else if snap.root_index == self.prev().arc_inner_index && snap.root_tag
            == self.prev().id_tag {
            Some(self.previous_view())
        } else {
            None
        }
    }

    /// The tree holds as many keys as a leaf can.
    pub closed spec fn is_full(&self) -> bool {
        self.current@.keys.len() == B
    }

    /// The pool has room for what putting `value` under `key` allocates.
    pub closed spec fn has_room(&self, key: Seq<u8>, value: Seq<u8>) -> bool {
        if self@.dom().contains(key) {
            update_fits(self.page_pool@, value)
        } else {
            insert_fits(self.page_pool@, key, value)
        }
    }

    /// The pool has room for a node.
    pub closed spec fn has_room_for_node(&self) -> bool {
        self.page_pool@.can_alloc(NODE_SIZE as int)
    }

    /// Puts `value` under `key`, in place of the value that the tree holds
    /// for `key` if it holds one. The tree that was current before stays
    /// readable as the previous one.
    #[verifier::rlimit(80)]
    pub fn put(&mut self, key: &[u8], value: &[u8]) -> (res: Result<(), LodestoneError>)
        requires
            old(self).wf(),
        ensures
            final(self).wf(),
            match res {
                Ok(_) => {
                    &&& final(self)@ == old(self)@.insert(key@, value@)
                    &&& final(self).previous_view() == old(self)@
                    &&& forall|snap: Snapshot|
                        old(self).is_current(&snap) ==> #[trigger] final(self).shows(&snap)
                            == Some(old(self)@)
                    &&& forall|x: int| #[trigger] final(self).lent_out(x) == old(self).lent_out(x)
                    &&& forall|x: int|
                        old(self).lent_out(x) >= 1 ==> #[trigger] final(self).bytes_of(x) == old(
                            self,
                        ).bytes_of(x)
                    &&& final(self).next_tx() == Self::tx_after(old(self).next_tx())
                    &&& old(self)@.dom().contains(key@) || !old(self).is_full()
                    &&& old(self).has_room(key@, value@)
                },
                Err(e) => {
                    &&& final(self)@ == old(self)@
                    &&& final(self).previous_view() == old(self).previous_view()
                    &&& forall|snap: Snapshot|
                        #[trigger] final(self).shows(&snap) == old(self).shows(&snap)
                    &&& forall|x: int| #[trigger] final(self).lent_out(x) == old(self).lent_out(x)
                    &&& forall|x: int|
                        old(self).lent_out(x) >= 1 ==> #[trigger] final(self).bytes_of(x) == old(
                            self,
                        ).bytes_of(x)
                    &&& final(self).next_tx() == old(self).next_tx()
                    &&& if !old(self)@.dom().contains(key@) && old(self).is_full() {
                        e == LodestoneError::NodeFull
                    } else {
                        e == LodestoneError::OutOfMemory && !old(self).has_room(key@, value@)
                    }
                },
            },
    {
        let node = self.current_node();
        let tx = self.tx_id;
        let key_len = key.len();
        let value_len = value.len();
        let ghost v = self.page_pool@;
        let ghost a = self.current@;
        let ghost ks = a.key_bytes(v);
        let ghost cs = a.child_bytes(v);
        let (found, idx) = node.index_or_insertion_of(key, &self.page_pool);
        proof {
            a.lemma_place_is_the_place(v, key@, idx as int);
            a.lemma_place_is_unique(v, key@, idx as int);
            if found {
                lemma_pairs_map_at(ks, cs, idx as int);
                assert forall|i: int|
                    0 <= i < a.children.remove(idx as int).len() implies handle_valid(
                    v,
                    #[trigger] a.children.remove(idx as int)[i],
                ) by {
                    if i < idx {
                        assert(a.children.remove(idx as int)[i] == a.children[i]);
                    } else {
                        assert(a.children.remove(idx as int)[i] == a.children[i + 1]);
                    }
                }
            } else {
                assert forall|j: int| 0 <= j < ks.len() implies #[trigger] ks[j] != key@ by {
                    if ks[j] == key@ {
                        assert(a.has_key_at(v, key@, j));
                    }
                }
                lemma_pairs_map_absent(ks, cs, key@);
            }
        }
        if found {
            match node.leaf_node_update(tx, key, value, &mut self.page_pool) {
                Ok(arc) => {
                    let ghost m = updated_node(v, a, tx, idx as int, value@);
                    proof {
                        let w = self.page_pool@;
                        let place = arc.arc_inner_index as int;
                        let vx = v.alloc_place(value@.len() as int);
                        lemma_updated_steps(v, a, tx, idx as int, value@);
                        assert forall|x: int| v.is_live(x) implies #[trigger] v.same_payload(
                            w,
                            x,
                        ) by {
                            lemma_updated_old(v, a, tx, idx as int, value@, x, 1);
                        }
                        lemma_kept_row(v, w, a.keys);
                        lemma_kept_row(v, w, a.children);
                        lemma_kept_row(v, w, old(self).previous@.keys);
                        lemma_kept_row(v, w, old(self).previous@.children);
                        assert(v.same_payload(w, old(self).cur().arc_inner_index as int));
                        assert(v.same_payload(w, old(self).prev().arc_inner_index as int));
                        lemma_refs_dead(v, a, place);
                        lemma_refs_dead(v, old(self).previous@, place);
                        lemma_refs_dead(v, a, vx);
                        lemma_refs_dead(v, old(self).previous@, vx);
                        lemma_updated_old(
                            v,
                            a,
                            tx,
                            idx as int,
                            value@,
                            old(self).cur().arc_inner_index as int,
                            1,
                        );
                        lemma_updated_old(
                            v,
                            a,
                            tx,
                            idx as int,
                            value@,
                            old(self).prev().arc_inner_index as int,
                            1,
                        );
                        lemma_refs_bounds(m, old(self).cur().arc_inner_index as int);
                        lemma_refs_bounds(m, old(self).prev().arc_inner_index as int);
                        assert forall|x: int| #[trigger]
                            self.held(x) + (m.refs(x) + one_if(x, place)) >= 1 implies w.is_live(x)
                            && count_ok(
                            w.object(x).strong,
                            self.held(x) + (m.refs(x) + one_if(x, place)),
                        ) by {
                            lemma_refs_bounds(a, x);
                            lemma_refs_bounds(old(self).previous@, x);
                            lemma_refs_bounds(m, x);
                            if x == place || x == vx {
                                if old(self).held(x) + 0 >= 1 {
                                    assert(v.is_live(x));
                                }
                            } else if v.is_live(x) {
                                if old(self).held(x) + 0 >= 1 {
                                    lemma_updated_old(
                                        v,
                                        a,
                                        tx,
                                        idx as int,
                                        value@,
                                        x,
                                        old(self).held(x),
                                    );
                                } else {
                                    lemma_updated_old(v, a, tx, idx as int, value@, x, 1);
                                }
                            } else {
                                if old(self).held(x) + 0 >= 1 {
                                    assert(v.is_live(x));
                                }
                                lemma_updated_refs(v, a, tx, idx as int, value@, x);
                                lemma_refs_dead(v, a, x);
                            }
                        }
                        lemma_pairs_map_update(ks, cs, idx as int, value@);
                        assert forall|x: int| old(self).lent_out(x) >= 1 implies #[trigger]
                            self.bytes_of(x) == old(self).bytes_of(x) by {
                            lemma_refs_bounds(a, x);
                            lemma_refs_bounds(old(self).previous@, x);
                            assert(old(self).held(x) + 0 >= 1);
                            assert(v.same_payload(w, x));
                        }
                        if old(self).lent_out(place) >= 1 {
                            lemma_refs_bounds(a, place);
                            lemma_refs_bounds(old(self).previous@, place);
                            assert(old(self).held(place) + 0 >= 1);
                        }
                    }
                    self.publish(arc, Ghost(m));
                    Ok(())
                },
                Err(e) => {
                    proof {
                        self.lemma_wf_same_layout(old(self));
                    }
                    Err(e)
                },
            }
        } else {
            match node.leaf_node_insert_non_full(tx, key, value, &mut self.page_pool) {
                Ok(arc) => {
                    let ghost m = inserted_node(v, a, tx, idx as int, key@, value@);
                    proof {
                        let w = self.page_pool@;
                        let place = arc.arc_inner_index as int;
                        let kx = v.alloc_place(key@.len() as int);
                        let vx = v.after_alloc(key@).alloc_place(value@.len() as int);
                        lemma_inserted_steps(v, a, tx, idx as int, key@, value@);
                        lemma_kept_row(v, w, a.keys);
                        lemma_kept_row(v, w, a.children);
                        lemma_kept_row(v, w, old(self).previous@.keys);
                        lemma_kept_row(v, w, old(self).previous@.children);
                        assert(v.same_payload(w, old(self).cur().arc_inner_index as int));
                        assert(v.same_payload(w, old(self).prev().arc_inner_index as int));
                        lemma_refs_dead(v, a, place);
                        lemma_refs_dead(v, old(self).previous@, place);
                        lemma_refs_dead(v, a, kx);
                        lemma_refs_dead(v, old(self).previous@, kx);
                        lemma_refs_dead(v, a, vx);
                        lemma_refs_dead(v, old(self).previous@, vx);
                        lemma_inserted_old(
                            v,
                            a,
                            tx,
                            idx as int,
                            key@,
                            value@,
                            old(self).cur().arc_inner_index as int,
                            1,
                        );
                        lemma_inserted_old(
                            v,
                            a,
                            tx,
                            idx as int,
                            key@,
                            value@,
                            old(self).prev().arc_inner_index as int,
                            1,
                        );
                        assert forall|x: int| #[trigger]
                            self.held(x) + (m.refs(x) + one_if(x, place)) >= 1 implies w.is_live(x)
                            && count_ok(
                            w.object(x).strong,
                            self.held(x) + (m.refs(x) + one_if(x, place)),
                        ) by {
                            lemma_refs_bounds(a, x);
                            lemma_refs_bounds(old(self).previous@, x);
                            lemma_refs_bounds(m, x);
                            if x == place || x == vx || x == kx {
                                if old(self).held(x) + 0 >= 1 {
                                    assert(v.is_live(x));
                                }
                            } else if v.is_live(x) {
                                if old(self).held(x) + 0 >= 1 {
                                    lemma_inserted_old(
                                        v,
                                        a,
                                        tx,
                                        idx as int,
                                        key@,
                                        value@,
                                        x,
                                        old(self).held(x),
                                    );
                                } else {
                                    lemma_inserted_old(v, a, tx, idx as int, key@, value@, x, 1);
                                }
                            } else {
                                if old(self).held(x) + 0 >= 1 {
                                    assert(v.is_live(x));
                                }
                                lemma_inserted_refs(v, a, tx, idx as int, key@, value@, x);
                                lemma_refs_dead(v, a, x);
                            }
                        }
                        lemma_pairs_map_insert(ks, cs, idx as int, key@, value@);
                        assert forall|x: int| old(self).lent_out(x) >= 1 implies #[trigger]
                            self.bytes_of(x) == old(self).bytes_of(x) by {
                            lemma_refs_bounds(a, x);
                            lemma_refs_bounds(old(self).previous@, x);
                            assert(old(self).held(x) + 0 >= 1);
                            assert(v.same_payload(w, x));
                        }
                        if old(self).lent_out(place) >= 1 {
                            lemma_refs_bounds(a, place);
                            lemma_refs_bounds(old(self).previous@, place);
                            assert(old(self).held(place) + 0 >= 1);
                        }
                    }
                    self.publish(arc, Ghost(m));
                    Ok(())
                },
                Err(e) => {
                    proof {
                        self.lemma_wf_same_layout(old(self));
                    }
                    Err(e)
                },
            }
        }
    }

    /// Takes `key` and its value out of the tree.
    #[verifier::rlimit(80)]
    pub fn delete(&mut self, key: &[u8]) -> (res: Result<(), LodestoneError>)
        requires
            old(self).wf(),
        ensures
            final(self).wf(),
            match res {
                Ok(_) => {
                    &&& old(self)@.dom().contains(key@)
                    &&& old(self).has_room_for_node()
                    &&& final(self)@ == old(self)@.remove(key@)
                    &&& final(self).previous_view() == old(self)@
                    &&& forall|snap: Snapshot|
                        old(self).is_current(&snap) ==> #[trigger] final(self).shows(&snap)
                            == Some(old(self)@)
                    &&& forall|x: int| #[trigger] final(self).lent_out(x) == old(self).lent_out(x)
                    &&& forall|x: int|
                        old(self).lent_out(x) >= 1 ==> #[trigger] final(self).bytes_of(x) == old(
                            self,
                        ).bytes_of(x)
                    &&& final(self).next_tx() == Self::tx_after(old(self).next_tx())
                },
                Err(e) => {
                    &&& final(self)@ == old(self)@
                    &&& final(self).previous_view() == old(self).previous_view()
                    &&& forall|snap: Snapshot|
                        #[trigger] final(self).shows(&snap) == old(self).shows(&snap)
                    &&& forall|x: int| #[trigger] final(self).lent_out(x) == old(self).lent_out(x)
                    &&& forall|x: int|
                        old(self).lent_out(x) >= 1 ==> #[trigger] final(self).bytes_of(x) == old(
                            self,
                        ).bytes_of(x)
                    &&& final(self).next_tx() == old(self).next_tx()
                    &&& if !old(self)@.dom().contains(key@) {
                        e == LodestoneError::KeyNotFound
                    } else {
                        e == LodestoneError::OutOfMemory && !old(self).has_room_for_node()
                    }
                },
            },
    {
        let node = self.current_node();
        let tx = self.tx_id;
        let ghost v = self.page_pool@;
        let ghost a = self.current@;
        let ghost ks = a.key_bytes(v);
        let ghost cs = a.child_bytes(v);
        let (found, at) = node.index_or_insertion_of(key, &self.page_pool);
        let ghost idx = at as int;
        let ghost m = a.without_entry(tx, idx);
        proof {
            a.lemma_place_is_the_place(v, key@, idx);
            a.lemma_place_is_unique(v, key@, idx);
            if found {
                lemma_pairs_map_at(ks, cs, idx);
                assert forall|i: int| 0 <= i < m.keys.len() implies handle_valid(
                    v,
                    #[trigger] m.keys[i],
                ) by {
                    if i < idx {
                        assert(m.keys[i] == a.keys[i]);
                    } else {
                        assert(m.keys[i] == a.keys[i + 1]);
                    }
                }
                assert forall|i: int| 0 <= i < m.children.len() implies handle_valid(
                    v,
                    #[trigger] m.children[i],
                ) by {
                    if i < idx {
                        assert(m.children[i] == a.children[i]);
                    } else {
                        assert(m.children[i] == a.children[i + 1]);
                    }
                }
            } else {
                assert forall|j: int| 0 <= j < ks.len() implies #[trigger] ks[j] != key@ by {
                    if ks[j] == key@ {
                        assert(a.has_key_at(v, key@, j));
                    }
                }
                lemma_pairs_map_absent(ks, cs, key@);
            }
        }
        if !found {
            return Err(LodestoneError::KeyNotFound);
        }
        let res = node.leaf_node_remove(tx, key, &mut self.page_pool);
        match res {
            Ok(arc) => {
                proof {
                    let w = self.page_pool@;
                    let place = arc.arc_inner_index as int;
                    m.lemma_committed(v);
                    lemma_committed_place(v, m);
                    lemma_kept_row(v, w, a.keys);
                    lemma_kept_row(v, w, a.children);
                    lemma_kept_row(v, w, old(self).previous@.keys);
                    lemma_kept_row(v, w, old(self).previous@.children);
                    assert(v.same_payload(w, old(self).cur().arc_inner_index as int));
                    assert(v.same_payload(w, old(self).prev().arc_inner_index as int));
                    lemma_refs_dead(v, a, place);
                    lemma_refs_dead(v, old(self).previous@, place);
                    lemma_removed_refs(a, tx, idx, old(self).cur().arc_inner_index as int);
                    lemma_removed_refs(a, tx, idx, old(self).prev().arc_inner_index as int);
                    lemma_refs_bounds(m, old(self).cur().arc_inner_index as int);
                    lemma_refs_bounds(m, old(self).prev().arc_inner_index as int);
                    assert forall|x: int| #[trigger]
                        self.held(x) + (m.refs(x) + one_if(x, place)) >= 1 implies w.is_live(x)
                        && count_ok(
                        w.object(x).strong,
                        self.held(x) + (m.refs(x) + one_if(x, place)),
                    ) by {
                        lemma_refs_bounds(a, x);
                        lemma_refs_bounds(old(self).previous@, x);
                        lemma_refs_bounds(m, x);
                        lemma_removed_refs(a, tx, idx, x);
                        if x == place {
                            if old(self).held(x) + 0 >= 1 {
                                assert(v.is_live(x));
                            }
                        } else if v.is_live(x) {
                            if old(self).held(x) + 0 >= 1 {
                                lemma_committed_count(v, m, x, old(self).held(x));
                            } else {
                                lemma_committed_count(v, m, x, 1);
                            }
                        } else {
                            if old(self).held(x) + 0 >= 1 {
                                assert(v.is_live(x));
                            }
                            lemma_refs_dead(v, a, x);
                        }
                    }
                    lemma_pairs_map_remove(ks, cs, idx);
                    assert forall|x: int| old(self).lent_out(x) >= 1 implies #[trigger]
                        self.bytes_of(x) == old(self).bytes_of(x) by {
                        lemma_refs_bounds(a, x);
                        lemma_refs_bounds(old(self).previous@, x);
                        assert(old(self).held(x) + 0 >= 1);
                        assert(v.same_payload(w, x));
                    }
                    if old(self).lent_out(place) >= 1 {
                        lemma_refs_bounds(a, place);
                        lemma_refs_bounds(old(self).previous@, place);
                        assert(old(self).held(place) + 0 >= 1);
                    }
                }
                self.publish(arc, Ghost(m));
                Ok(())
            },
            Err(e) => {
                proof {
                    self.lemma_wf_same_layout(old(self));
                }
                Err(e)
            },
        }
    }
}

impl BTree {
    /// The node in the other slot, read from the pool.
    fn previous_node(&self) -> (node: Node)
        requires
            self.wf(),
        ensures
            node@ == self.previous@,
    {
        proof {
            self.previous@.law_encoding_round_trip();
        }
        match self.page_pool.peek(&self.roots[1 - self.current_root]) {
            Some(bytes) => match Node::decode(bytes) {
                Some(node) => node,
                None => {
                    assert(false);
                    unreached()
                },
            },
            None => {
                assert(false);
                unreached()
            },
        }
    }

    /// The value that `node`, a root of this tree, holds for `key`.
    fn lookup(&self, node: &Node, key: &[u8]) -> (res: Option<Vec<u8>>)
        requires
            self.page_pool.inv(),
            node@.keyed_in(self.page_pool@),
            node@.valid_in(self.page_pool@),
            node@.keys.len() == node@.children.len(),
        ensures
            match res {
                Some(value) => {
                    &&& leaf_map(self.page_pool@, node@).dom().contains(key@)
                    &&& value@ == leaf_map(self.page_pool@, node@)[key@]
                },
                None => !leaf_map(self.page_pool@, node@).dom().contains(key@),
            },
    {
        let (found, idx) = node.index_or_insertion_of(key, &self.page_pool);
        let ghost v = self.page_pool@;
        let ghost ks = node@.key_bytes(v);
        let ghost cs = node@.child_bytes(v);
        if found {
            proof {
                lemma_pairs_map_at(ks, cs, idx as int);
                assert(handle_valid(v, node@.children[idx as int]));
            }
            match self.page_pool.peek(&node.children[idx]) {
                Some(bytes) => Some(slice_to_vec(bytes)),
                None => {
                    assert(false);
                    unreached()
                },
            }
        } else {
            proof {
                node@.lemma_place_is_unique(v, key@, idx as int);
                assert forall|j: int| 0 <= j < ks.len() implies #[trigger] ks[j] != key@ by {
                    if ks[j] == key@ {
                        assert(node@.has_key_at(v, key@, j));
                    }
                }
                lemma_pairs_map_absent(ks, cs, key@);
            }
            None
        }
    }

    /// A copy of the value that the tree held for `key` before the last
    /// change, or nothing where it held none.
    pub fn read_previous(&self, key: &[u8]) -> (res: Option<Vec<u8>>)
        requires
            self.wf(),
        ensures
            match res {
                Some(value) => {
                    &&& self.previous_view().dom().contains(key@)
                    &&& value@ == self.previous_view()[key@]
                },
                None => !self.previous_view().dom().contains(key@),
            },
    {
        let node = self.previous_node();
        self.lookup(&node, key)
    }

    /// The keys of the tree in their order.
    pub fn keys(&self) -> (keys: Vec<Vec<u8>>)
        requires
            self.wf(),
        ensures
            forall|i: int, j: int|
                0 <= i < j < keys@.len() ==> lex_lt(
                    #[trigger] keys@[i]@,
                    #[trigger] keys@[j]@,
                ),
            forall|i: int| 0 <= i < keys@.len() ==> self@.dom().contains(#[trigger] keys@[i]@),
            forall|k: Seq<u8>|
                self@.dom().contains(k) ==> exists|i: int| 0 <= i < keys@.len() && keys@[i]@ == k,
    {
        let node = self.current_node();
        let ghost v = self.page_pool@;
        let ghost ks = node@.key_bytes(v);
        let mut keys: Vec<Vec<u8>> = Vec::new();
        let mut i: usize = 0;
        while i < node.keys.len()
            invariant
                i <= node@.keys.len(),
                self.wf(),
                node@ == self.current@,
                v == self.page_pool@,
                ks == node@.key_bytes(v),
                keys@.len() == i,
                forall|j: int| 0 <= j < i ==> (#[trigger] keys@[j])@ == ks[j],
            decreases node@.keys.len() - i,
        {
            proof {
                assert(handle_valid(v, node@.keys[i as int]));
            }
            match self.page_pool.peek(&node.keys[i]) {
                Some(bytes) => {
                    keys.push(slice_to_vec(bytes));
                },
                None => {
                    assert(false);
                },
            }
            i += 1;
        }
        proof {
            assert forall|j: int| 0 <= j < keys@.len() implies self@.dom().contains(
                #[trigger] keys@[j]@,
            ) by {
                assert(key_at(ks, ks[j], j));
            }
            assert forall|k: Seq<u8>| self@.dom().contains(k) implies exists|i: int|
                0 <= i < keys@.len() && keys@[i]@ == k by {
                let j = choose|j: int| key_at(ks, k, j);
                assert(keys@[j]@ == k);
            }
        }
        keys
    }

    /// How many keys the tree holds.
    pub fn len(&self) -> (n: usize)
        requires
            self.wf(),
        ensures
            n <= B,
            n == B <==> self.is_full(),
    {
        let node = self.current_node();
        node.keys.len()
    }

    /// What is put under a key is what is found there: whatever the tree
    /// held before.
    pub proof fn law_put_get(before: &BTree, after: &BTree, key: Seq<u8>, value: Seq<u8>)
        requires
            after@ == before@.insert(key, value),
        ensures
            after@.dom().contains(key),
            after@[key] == value,
            forall|k: Seq<u8>|
                k != key ==> after@.dom().contains(k) == before@.dom().contains(k) && (
                before@.dom().contains(k) ==> after@[k] == before@[k]),
    {
    }

    /// Of two values put under one key, one after the other, the second is
    /// what is found there.
    pub proof fn law_put_put_get(
        before: &BTree,
        between: &BTree,
        after: &BTree,
        key: Seq<u8>,
        first: Seq<u8>,
        second: Seq<u8>,
    )
        requires
            between@ == before@.insert(key, first),
            after@ == between@.insert(key, second),
        ensures
            after@[key] == second,
            after@ == before@.insert(key, second),
    {
        assert(after@ =~= before@.insert(key, second));
    }

    /// A key that is put and then taken out is not found, and the tree holds
    /// what it would hold had the key only been taken out.
    pub proof fn law_put_delete_get(
        before: &BTree,
        between: &BTree,
        after: &BTree,
        key: Seq<u8>,
        value: Seq<u8>,
    )
        requires
            between@ == before@.insert(key, value),
            after@ == between@.remove(key),
        ensures
            !after@.dom().contains(key),
            after@ == before@.remove(key),
    {
        assert(after@ =~= before@.remove(key));
    }

    /// What the tree held before a change is what its previous root holds
    /// after it: a reader of the previous root is not disturbed by one
    /// change.
    pub proof fn law_previous_is_kept(before: &BTree, after: &BTree, key: Seq<u8>)
        requires
            after.previous_view() == before@,
        ensures
            after.previous_view().dom().contains(key) == before@.dom().contains(key),
            before@.dom().contains(key) ==> after.previous_view()[key] == before@[key],
    {
    }
}

impl BTree {
    /// A token for the tree as it stands. It shows what the tree holds now
    /// for as long as the tree keeps the root that is current now: through
    /// one change, not through two.
    pub fn snapshot(&self) -> (snap: Snapshot)
        requires
            self.wf(),
        ensures
            self.is_current(&snap),
            self.shows(&snap) == Some(self@),
    {
        Snapshot {
            root_index: self.roots[self.current_root].arc_inner_index,
            root_tag: self.roots[self.current_root].id_tag,
        }
    }

    /// A copy of the value that the tree held for `key` when `snap` was
    /// taken, or nothing where it held none. Fails where the tree no longer
    /// keeps the root that `snap` names.
    pub fn read_at(&self, snap: &Snapshot, key: &[u8]) -> (res: Result<
        Option<Vec<u8>>,
        LodestoneError,
    >)
        requires
            self.wf(),
        ensures
            match res {
                Ok(found) => {
                    &&& self.shows(snap) matches Some(m)
                    &&& match found {
                        Some(value) => m.dom().contains(key@) && value@ == m[key@],
                        None => !m.dom().contains(key@),
                    }
                },
                Err(e) => e == LodestoneError::InvalidReference && self.shows(snap) is None,
            },
    {
        let cur = &self.roots[self.current_root];
        let prev = &self.roots[1 - self.current_root];
        if snap.root_index == cur.arc_inner_index && snap.root_tag == cur.id_tag {
            Ok(self.read(key))
        } else if snap.root_index == prev.arc_inner_index && snap.root_tag == prev.id_tag {
            Ok(self.read_previous(key))
        } else {
            Err(LodestoneError::InvalidReference)
        }
    }

    /// A token shows what the tree held when it was taken, whatever is put
    /// or taken out in one change after that.
    pub proof fn law_snapshot_is_kept(before: &BTree, after: &BTree, snap: Snapshot)
        requires
            before.is_current(&snap),
            forall|s: Snapshot|
                before.is_current(&s) ==> #[trigger] after.shows(&s) == Some(before@),
        ensures
            after.shows(&snap) == Some(before@),
    {
    }

    /// Taking keys out of a map takes them out of its domain and leaves the
    /// rest as it is.
    pub proof fn lemma_delete_all(m: Map<Seq<u8>, Seq<u8>>, ks: Seq<Seq<u8>>, k: Seq<u8>)
        ensures
            delete_all(m, ks).dom().contains(k) == (m.dom().contains(k) && !ks.contains(k)),
        decreases ks.len(),
    {
        if ks.len() > 0 {
            Self::lemma_delete_all(m, ks.drop_last(), k);
            if ks.contains(k) {
                let i = choose|i: int| 0 <= i < ks.len() && ks[i] == k;
                if i < ks.len() - 1 {
                    assert(ks.drop_last()[i] == k);
                }
            }
            if ks.drop_last().contains(k) {
                let i = choose|i: int| 0 <= i < ks.drop_last().len() && ks.drop_last()[i] == k;
                assert(ks[i] == k);
            }
            assert(ks[ks.len() - 1] == ks.last());
        }
    }

    /// Putting keys into a map puts no other key into its domain.
    pub proof fn lemma_put_all(
        m: Map<Seq<u8>, Seq<u8>>,
        ks: Seq<Seq<u8>>,
        vs: Seq<Seq<u8>>,
        k: Seq<u8>,
    )
        ensures
            put_all(m, ks, vs).dom().contains(k) == (m.dom().contains(k) || ks.contains(k)),
        decreases ks.len(),
    {
        if ks.len() > 0 {
            Self::lemma_put_all(m, ks.drop_last(), vs.drop_last(), k);
            if ks.contains(k) {
                let i = choose|i: int| 0 <= i < ks.len() && ks[i] == k;
                if i < ks.len() - 1 {
                    assert(ks.drop_last()[i] == k);
                }
            }
            if ks.drop_last().contains(k) {
                let i = choose|i: int| 0 <= i < ks.drop_last().len() && ks.drop_last()[i] == k;
                assert(ks[i] == k);
            }
            assert(ks[ks.len() - 1] == ks.last());
        }
    }

    /// A tree that starts empty holds no key after keys have been put one
    /// by one and then every one of them has been taken out.
    pub proof fn law_put_all_delete_all(ks: Seq<Seq<u8>>, vs: Seq<Seq<u8>>)
        requires
            ks.len() == vs.len(),
        ensures
            delete_all(put_all(Map::<Seq<u8>, Seq<u8>>::empty(), ks, vs), ks) == Map::<
                Seq<u8>,
                Seq<u8>,
            >::empty(),
    {
        let filled = put_all(Map::<Seq<u8>, Seq<u8>>::empty(), ks, vs);
        let emptied = delete_all(filled, ks);
        assert forall|k: Seq<u8>| !emptied.dom().contains(k) by {
            Self::lemma_put_all(Map::<Seq<u8>, Seq<u8>>::empty(), ks, vs, k);
            Self::lemma_delete_all(filled, ks, k);
        }
        assert(emptied =~= Map::<Seq<u8>, Seq<u8>>::empty());
    }
}

impl BTree {
    /// A live handle to the value that the tree holds for `key`, or nothing
    /// where it holds none. The value stays as it is until the handle is
    /// given back, whatever is put or taken out meanwhile.
    #[verifier::rlimit(80)]
    pub fn get(&mut self, key: &[u8]) -> (res: Option<ArcByteSlice>)
        requires
            old(self).wf(),
        ensures
            final(self).wf(),
            final(self)@ == old(self)@,
            final(self).previous_view() == old(self).previous_view(),
            final(self).next_tx() == old(self).next_tx(),
            forall|snap: Snapshot| #[trigger] final(self).shows(&snap) == old(self).shows(&snap),
            forall|x: int|
                old(self).lent_out(x) >= 1 ==> #[trigger] final(self).bytes_of(x) == old(
                    self,
                ).bytes_of(x),
            match res {
                Some(arc) => {
                    &&& old(self)@.dom().contains(key@)
                    &&& final(self).bytes_of(arc.arc_inner_index as int) == old(self)@[key@]
                    &&& forall|x: int|
                        #[trigger] final(self).lent_out(x) == old(self).lent_out(x) + one_if(
                            x,
                            arc.arc_inner_index as int,
                        )
                },
                None => {
                    &&& !old(self)@.dom().contains(key@)
                    &&& forall|x: int| #[trigger] final(self).lent_out(x) == old(self).lent_out(x)
                },
            },
    {
        let node = self.current_node();
        let ghost v = self.page_pool@;
        let ghost a = self.current@;
        let ghost p = self.previous@;
        let ghost ks = a.key_bytes(v);
        let ghost cs = a.child_bytes(v);
        let res = node.value_for_key(key, &mut self.page_pool);
        match res {
            Some(arc) => {
                let ghost x = arc.arc_inner_index as int;
                proof {
                    let w = self.page_pool@;
                    let i = choose|i: int|
                        {
                            &&& #[trigger] a.has_key_at(v, key@, i)
                            &&& i < a.children.len()
                            &&& handle_valid(v, a.children[i])
                            &&& arc.arc_inner_index == a.children[i].arc_inner_index
                            &&& w == v.after_retain(arc.arc_inner_index as int)
                        };
                    lemma_pairs_map_at(ks, cs, i);
                    lemma_occ_has(a.children, i);
                    lemma_occ_bounds(a.keys, x);
                    lemma_refs_bounds(p, x);
                    lemma_retain_keeps_all(v, x);
                    lemma_kept_row(v, w, a.keys);
                    lemma_kept_row(v, w, a.children);
                    lemma_kept_row(v, w, p.keys);
                    lemma_kept_row(v, w, p.children);
                    assert(v.same_payload(w, old(self).cur().arc_inner_index as int));
                    assert(v.same_payload(w, old(self).prev().arc_inner_index as int));
                    assert(v.same_payload(w, x));
                    self.lent@ = self.lent@.insert(x, (old(self).lent_out(x) + 1) as nat);
                    assert(self.rooted());
                    assert forall|y: int| #[trigger] self.held(y) + 0 >= 1 implies w.is_live(y)
                        && count_ok(w.object(y).strong, self.held(y) + 0) by {
                        lemma_refs_bounds(a, y);
                        lemma_refs_bounds(p, y);
                        assert(self.held(y) == old(self).held(y) + one_if(y, x));
                        assert(old(self).held(y) + 0 >= 1);
                        lemma_retain_count(v, x, y, old(self).held(y));
                    }
                    assert forall|y: int| old(self).lent_out(y) >= 1 implies #[trigger]
                        self.bytes_of(y) == old(self).bytes_of(y) by {
                        lemma_refs_bounds(a, y);
                        lemma_refs_bounds(p, y);
                        assert(old(self).held(y) + 0 >= 1);
                        assert(v.same_payload(w, y));
                    }
                }
                Some(arc)
            },
            None => {
                proof {
                    if exists|i: int| key_at(ks, key@, i) {
                        let i = choose|i: int| key_at(ks, key@, i);
                        assert(a.has_key_at(v, key@, i));
                        assert(handle_valid(v, a.children[i]));
                    }
                    assert forall|j: int| 0 <= j < ks.len() implies #[trigger] ks[j] != key@ by {
                        if ks[j] == key@ {
                            assert(key_at(ks, key@, j));
                        }
                    }
                    lemma_pairs_map_absent(ks, cs, key@);
                    self.lemma_wf_same_layout(old(self));
                }
                None
            },
        }
    }

    /// The bytes that a handle that the tree has handed out denotes.
    pub fn value<'a>(&'a self, arc: &ArcByteSlice) -> (bytes: &'a [u8])
        requires
            self.wf(),
            self.lent_out(arc.arc_inner_index as int) >= 1,
        ensures
            bytes@ == self.bytes_of(arc.arc_inner_index as int),
    {
        proof {
            let x = arc.arc_inner_index as int;
            lemma_refs_bounds(self.current@, x);
            lemma_refs_bounds(self.previous@, x);
            assert(self.held(x) + 0 >= 1);
        }
        self.page_pool.deref(arc)
    }

    /// Gives back a handle that the tree has handed out.
    #[verifier::rlimit(80)]
    pub fn release(&mut self, arc: ArcByteSlice)
        requires
            old(self).wf(),
            old(self).lent_out(arc.arc_inner_index as int) >= 1,
        ensures
            final(self).wf(),
            final(self)@ == old(self)@,
            final(self).previous_view() == old(self).previous_view(),
            final(self).next_tx() == old(self).next_tx(),
            forall|snap: Snapshot| #[trigger] final(self).shows(&snap) == old(self).shows(&snap),
            forall|x: int|
                #[trigger] final(self).lent_out(x) == old(self).lent_out(x) - one_if(
                    x,
                    arc.arc_inner_index as int,
                ),
            forall|x: int|
                final(self).lent_out(x) >= 1 ==> #[trigger] final(self).bytes_of(x) == old(
                    self,
                ).bytes_of(x),
    {
        let ghost v = self.page_pool@;
        let ghost a = self.current@;
        let ghost p = self.previous@;
        let ghost x = arc.arc_inner_index as int;
        proof {
            lemma_refs_bounds(a, x);
            lemma_refs_bounds(p, x);
            assert(self.held(x) + 0 >= 1);
        }
        arc.release(&mut self.page_pool);
        proof {
            let w = self.page_pool@;
            self.lent@ = self.lent@.insert(x, (old(self).lent_out(x) - 1) as nat);
            assert forall|y: int| #[trigger] self.held(y) + 0 >= 1 implies v.same_payload(w, y)
                && w.is_live(y) && count_ok(w.object(y).strong, self.held(y) + 0) by {
                lemma_refs_bounds(a, y);
                lemma_refs_bounds(p, y);
                assert(self.held(y) == old(self).held(y) - one_if(y, x));
                assert(old(self).held(y) + 0 >= 1);
                lemma_release_count(v, x, y, self.held(y));
            }
            assert forall|i: int| 0 <= i < a.keys.len() implies handle_valid(
                w,
                #[trigger] a.keys[i],
            ) && handle_bytes(w, a.keys[i])
                == handle_bytes(v, a.keys[i]) by {
                lemma_occ_has(a.keys, i);
                lemma_occ_bounds(a.children, a.keys[i].arc_inner_index as int);
                lemma_refs_bounds(p, a.keys[i].arc_inner_index as int);
                assert(handle_valid(v, a.keys[i]));
                assert(self.held(a.keys[i].arc_inner_index as int) + 0 >= 1);
            }
            assert forall|i: int| 0 <= i < a.children.len() implies handle_valid(
                w,
                #[trigger] a.children[i],
            ) && handle_bytes(w, a.children[i])
                == handle_bytes(v, a.children[i]) by {
                lemma_occ_has(a.children, i);
                lemma_occ_bounds(a.keys, a.children[i].arc_inner_index as int);
                lemma_refs_bounds(p, a.children[i].arc_inner_index as int);
                assert(handle_valid(v, a.children[i]));
                assert(self.held(a.children[i].arc_inner_index as int) + 0 >= 1);
            }
            assert forall|i: int| 0 <= i < p.keys.len() implies handle_valid(
                w,
                #[trigger] p.keys[i],
            ) && handle_bytes(w, p.keys[i])
                == handle_bytes(v, p.keys[i]) by {
                lemma_occ_has(p.keys, i);
                lemma_occ_bounds(p.children, p.keys[i].arc_inner_index as int);
                lemma_refs_bounds(a, p.keys[i].arc_inner_index as int);
                assert(handle_valid(v, p.keys[i]));
                if old(self).shared() {
                    a.law_encoding_round_trip();
                    p.law_encoding_round_trip();
                }
                assert(self.held(p.keys[i].arc_inner_index as int) + 0 >= 1);
            }
            assert forall|i: int| 0 <= i < p.children.len() implies handle_valid(
                w,
                #[trigger] p.children[i],
            ) && handle_bytes(w, p.children[i])
                == handle_bytes(v, p.children[i]) by {
                lemma_occ_has(p.children, i);
                lemma_occ_bounds(p.keys, p.children[i].arc_inner_index as int);
                lemma_refs_bounds(a, p.children[i].arc_inner_index as int);
                assert(handle_valid(v, p.children[i]));
                if old(self).shared() {
                    a.law_encoding_round_trip();
                    p.law_encoding_round_trip();
                }
                assert(self.held(p.children[i].arc_inner_index as int) + 0 >= 1);
            }
            assert(a.key_bytes(w) =~= a.key_bytes(v));
            assert(a.child_bytes(w) =~= a.child_bytes(v));
            assert(p.key_bytes(w) =~= p.key_bytes(v));
            assert(p.child_bytes(w) =~= p.child_bytes(v));
            lemma_refs_bounds(a, old(self).cur().arc_inner_index as int);
            lemma_refs_bounds(p, old(self).cur().arc_inner_index as int);
            lemma_refs_bounds(a, old(self).prev().arc_inner_index as int);
            lemma_refs_bounds(p, old(self).prev().arc_inner_index as int);
            assert(self.held(old(self).cur().arc_inner_index as int) + 0 >= 1);
            assert(self.held(old(self).prev().arc_inner_index as int) + 0 >= 1);
            assert(self.rooted());
            assert forall|y: int| self.lent_out(y) >= 1 implies #[trigger] self.bytes_of(y)
                == old(self).bytes_of(y) by {
                lemma_refs_bounds(a, y);
                lemma_refs_bounds(p, y);
                assert(self.held(y) + 0 >= 1);
            }
        }
    }
}

} // verus!
