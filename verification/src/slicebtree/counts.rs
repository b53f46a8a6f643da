//! How the strong counts of the objects that nodes refer to move when a
//! node is written and when one is torn down.

use crate::allocator::arc::PersistedArcByteSlice;
use crate::allocator::pool::HEADER_SIZE;
use crate::allocator::view::{chunk_size, PoolView};
use crate::slicebtree::handles::{
    count_ok, handle_bytes, handle_valid, handles_valid, keeps_all, lemma_keeps_all_trans,
    lemma_kept_row, lemma_malloc_keeps_all, lemma_named_live, lemma_occ_bounds, lemma_occ_insert,
    lemma_occ_none, lemma_occ_remove, lemma_occ_update, lemma_release_count,
    lemma_released_count, lemma_retained, lemma_retained_count, occ, released, retained, spent,
};
use crate::slicebtree::node::{
    committed, decoding, encoding, insert_fits, inserted, inserted_node, next_handle, parsable,
    update_fits, updated, updated_node, NodeType, NodeView, B, NODE_SIZE,
};
use crate::slicebtree::teardown::{emptied, node_valid, torn_down, with_rows};
use vstd::prelude::*;

verus! {

/// 1 where `x` is `y`, else 0.
pub open spec fn one_if(x: int, y: int) -> int {
    if x == y {
        1
    } else {
        0
    }
}

impl NodeView {
    /// How many handles of the node name the object at `x`.
    pub open spec fn refs(self, x: int) -> int {
        occ(self.keys, x) + occ(self.children, x)
    }

    /// The node holds no more keys and children than a node can.
    pub open spec fn fits(self) -> bool {
        self.keys.len() <= B && self.children.len() <= B
    }
}

/// Writing a node raises the count of every object by the number of times
/// that the node names it.
pub proof fn lemma_committed_count(v: PoolView, n: NodeView, x: int, base: int)
    requires
        v.wf(),
        n.fits(),
        n.valid_in(v),
        v.can_alloc(NODE_SIZE as int),
        v.is_live(x),
        count_ok(v.object(x).strong, base),
    ensures
        committed(v, n).wf(),
        v.same_payload(committed(v, n), x),
        count_ok(committed(v, n).object(x).strong, base + n.refs(x)),
        x != v.alloc_place(NODE_SIZE as int),
{
    let bytes = encoding(n);
    let i = v.first_fit(chunk_size(NODE_SIZE as int));
    n.law_encoding_round_trip();
    n.lemma_committed(v);
    v.lemma_first_fit(chunk_size(NODE_SIZE as int), 0);
    let v1 = v.after_alloc(bytes);
    lemma_malloc_keeps_all(v, i, NODE_SIZE, bytes);
    v.lemma_malloc_keeps(i, NODE_SIZE, bytes, x);
    lemma_kept_row(v, v1, n.keys);
    lemma_kept_row(v, v1, n.children);
    assert(v.same_payload(v1, x));
    let v2 = retained(v1, n.keys);
    lemma_retained(v1, n.keys);
    lemma_retained_count(v1, n.keys, x, base);
    lemma_kept_row(v1, v2, n.children);
    assert(v1.same_payload(v2, x));
    lemma_retained_count(v2, n.children, x, base + occ(n.keys, x));
}

/// A node that has been written holds one reference, that of the handle
/// that was returned for it, and no node names it.
pub proof fn lemma_committed_place(v: PoolView, n: NodeView)
    requires
        v.wf(),
        n.fits(),
        n.valid_in(v),
        v.can_alloc(NODE_SIZE as int),
    ensures
        committed(v, n).is_live(v.alloc_place(NODE_SIZE as int)),
        committed(v, n).object(v.alloc_place(NODE_SIZE as int)).strong >= 1,
        n.refs(v.alloc_place(NODE_SIZE as int)) == 0,
        committed(v, n).object(v.alloc_place(NODE_SIZE as int)).size == NODE_SIZE,
{
    let x = v.alloc_place(NODE_SIZE as int);
    n.lemma_committed(v);
    n.law_encoding_round_trip();
    committed(v, n).law_live_is_counted(x);
    assert forall|i: int| 0 <= i < n.keys.len() implies (#[trigger] n.keys[i]).arc_inner_index
        != x by {
        assert(handle_valid(v, n.keys[i]));
    }
    assert forall|i: int| 0 <= i < n.children.len() implies (
    #[trigger] n.children[i]).arc_inner_index != x by {
        assert(handle_valid(v, n.children[i]));
    }
    lemma_occ_none(n.keys, x);
    lemma_occ_none(n.children, x);
    let w = committed(v, n);
    let j = w.index_of(x);
    assert(w.has_object(j, x));
    assert(w.block_linked(j));
}

/// The rows of a node without keys and children are spent as they are.
pub proof fn lemma_spent_empty(v: PoolView, hs: Seq<PersistedArcByteSlice>)
    requires
        hs.len() == 0,
    ensures
        spent(v, hs) == hs,
        released(v, hs) == v,
{
    assert(spent(v, hs) =~= hs);
}

/// Tearing down a leaf lowers the count of every object by the number of
/// times that the leaf names it at most, and that of the leaf itself by
/// one more. An object whose count covers that and a reference besides is
/// kept as it is.
pub proof fn lemma_torn_count(
    v: PoolView,
    h: PersistedArcByteSlice,
    n: NodeView,
    depth: nat,
    x: int,
    rest: int,
)
    requires
        v.wf(),
        handle_valid(v, h),
        n.stored_at(v, h.arc_inner_index as int),
        n.fits(),
        n.node_type == NodeType::Leaf,
        v.is_live(x),
        rest >= 1,
        count_ok(v.object(x).strong, n.refs(x) + one_if(x, h.arc_inner_index as int) + rest),
        x == h.arc_inner_index ==> n.keys.len() == 0 && n.children.len() == 0,
    ensures
        torn_down(v, h, depth).wf(),
        v.same_payload(torn_down(v, h, depth), x),
        count_ok(torn_down(v, h, depth).object(x).strong, rest),
{
    let hx = h.arc_inner_index as int;
    n.law_encoding_round_trip();
    assert(decoding(handle_bytes(v, h)) == n);
    assert(parsable(handle_bytes(v, h)));
    let v1 = released(v, n.children);
    lemma_occ_bounds(n.keys, x);
    lemma_released_count(v, n.children, x, occ(n.keys, x) + one_if(x, hx) + rest);
    let v2 = released(v1, n.keys);
    lemma_released_count(v1, n.keys, x, one_if(x, hx) + rest);
    let rows = with_rows(n, spent(v1, n.keys), spent(v, n.children));
    assert(rows.keys.len() == n.keys.len());
    assert(rows.children.len() == n.children.len());
    rows.law_encoding_round_trip();
    let data = encoding(rows);
    let v3 = if node_valid(v2, h) {
        v2.after_store(hx, data)
    } else {
        v2
    };
    assert(v3 == emptied(v, h, depth));
    if node_valid(v2, h) {
        v2.lemma_after_store(hx, data);
        v2.lemma_store_keeps(hx, data, x);
        if x == hx {
            lemma_spent_empty(v1, n.keys);
            lemma_spent_empty(v, n.children);
            assert(rows == n);
        }
    }
    assert(v2.same_payload(v3, x));
    assert(v3.object(x).strong == v2.object(x).strong);
    if handle_valid(v3, h) {
        v3.lemma_after_release(hx);
        v3.lemma_release_keeps(hx, x);
    }
}

/// An object that a node of valid handles names is alive.
pub proof fn lemma_refs_live(v: PoolView, n: NodeView, x: int)
    requires
        n.valid_in(v),
        n.refs(x) >= 1,
    ensures
        v.is_live(x),
{
    lemma_occ_bounds(n.keys, x);
    lemma_occ_bounds(n.children, x);
    if occ(n.keys, x) >= 1 {
        lemma_named_live(v, n.keys, x);
    } else {
        lemma_named_live(v, n.children, x);
    }
}

/// No node names an object fewer than no times.
pub proof fn lemma_refs_bounds(n: NodeView, x: int)
    ensures
        n.refs(x) >= 0,
{
    lemma_occ_bounds(n.keys, x);
    lemma_occ_bounds(n.children, x);
}

/// An object that is not alive is named by no node of valid handles.
pub proof fn lemma_refs_dead(v: PoolView, n: NodeView, x: int)
    requires
        n.valid_in(v),
        !v.is_live(x),
    ensures
        n.refs(x) == 0,
{
    lemma_refs_bounds(n, x);
    if n.refs(x) >= 1 {
        lemma_refs_live(v, n, x);
    }
}

/// What an insertion does to an object that was there before: its payload
/// stays, and its count rises by the number of times that the old node
/// names it, which is the number of times that the new node does.
pub proof fn lemma_inserted_old(
    v: PoolView,
    n: NodeView,
    tx_id: usize,
    idx: int,
    key: Seq<u8>,
    value: Seq<u8>,
    x: int,
    base: int,
)
    requires
        v.wf(),
        n.keys.len() < B,
        n.children.len() < B,
        0 <= idx <= n.keys.len(),
        idx <= n.children.len(),
        n.valid_in(v),
        insert_fits(v, key, value),
        key.len() <= usize::MAX,
        value.len() <= usize::MAX,
        v.is_live(x),
        count_ok(v.object(x).strong, base),
    ensures
        inserted(v, n, tx_id, idx, key, value).wf(),
        v.same_payload(inserted(v, n, tx_id, idx, key, value), x),
        count_ok(inserted(v, n, tx_id, idx, key, value).object(x).strong, base + n.refs(x)),
        inserted_node(v, n, tx_id, idx, key, value).refs(x) == n.refs(x),
        x != v.after_alloc(key).after_alloc(value).alloc_place(NODE_SIZE as int),
{
    let kh = next_handle(v, key.len() as int);
    let kx = kh.arc_inner_index as int;
    let v1 = v.after_alloc(key);
    let vh = next_handle(v1, value.len() as int);
    let vx = vh.arc_inner_index as int;
    let v2 = v1.after_alloc(value);
    let m = inserted_node(v, n, tx_id, idx, key, value);
    lemma_inserted_steps(v, n, tx_id, idx, key, value);
    let i1 = v.first_fit(chunk_size(key.len() as int));
    let i2 = v1.first_fit(chunk_size(value.len() as int));
    v.lemma_first_fit(chunk_size(key.len() as int), 0);
    v1.lemma_first_fit(chunk_size(value.len() as int), 0);
    v.lemma_malloc_keeps(i1, key.len() as usize, key, x);
    v1.lemma_malloc_keeps(i2, value.len() as usize, value, x);
    lemma_occ_insert(n.keys, idx, kh, x);
    lemma_occ_insert(n.children, idx, vh, x);
    let c = committed(v2, m);
    lemma_committed_count(v2, m, x, base);
    c.lemma_after_release(kx);
    c.lemma_release_keeps(kx, x);
    c.lemma_release_keeps(kx, vx);
    let c1 = c.after_release(kx);
    c1.lemma_after_release(vx);
    c1.lemma_release_keeps(vx, x);
}

/// What an insertion allocates: the key, the value and the node are alive
/// afterwards and were not before; the new node names the key and the
/// value once each, and not itself.
pub proof fn lemma_inserted_steps(
    v: PoolView,
    n: NodeView,
    tx_id: usize,
    idx: int,
    key: Seq<u8>,
    value: Seq<u8>,
)
    requires
        v.wf(),
        n.keys.len() < B,
        n.children.len() < B,
        0 <= idx <= n.keys.len(),
        idx <= n.children.len(),
        n.valid_in(v),
        insert_fits(v, key, value),
        key.len() <= usize::MAX,
        value.len() <= usize::MAX,
    ensures
        ({
            let kx = v.alloc_place(key.len() as int);
            let v1 = v.after_alloc(key);
            let vx = v1.alloc_place(value.len() as int);
            let v2 = v1.after_alloc(value);
            let m = inserted_node(v, n, tx_id, idx, key, value);
            let place = v2.alloc_place(NODE_SIZE as int);
            let c = committed(v2, m);
            let w = inserted(v, n, tx_id, idx, key, value);
            &&& v1.wf()
            &&& v2.wf()
            &&& c.wf()
            &&& w.wf()
            &&& m.fits()
            &&& m.valid_in(v2)
            &&& v2.can_alloc(NODE_SIZE as int)
            &&& !v.is_live(kx)
            &&& !v.is_live(vx)
            &&& !v.is_live(place)
            &&& kx != vx
            &&& kx != place
            &&& vx != place
            &&& v2.is_live(kx)
            &&& v2.is_live(vx)
            &&& v2.object(kx).strong == 1
            &&& v2.object(vx).strong == 1
            &&& c.is_live(kx)
            &&& c.is_live(vx)
            &&& m.refs(kx) == 1
            &&& m.refs(vx) == 1
            &&& m.refs(place) == 0
            &&& w.is_live(kx)
            &&& w.is_live(vx)
            &&& w.is_live(place)
            &&& w.object(kx).strong >= 1
            &&& w.object(vx).strong >= 1
            &&& w.object(place).strong >= 1
            &&& next_handle(v, key.len() as int).arc_inner_index == kx
            &&& next_handle(v1, value.len() as int).arc_inner_index == vx
        }),
{
    let kh = next_handle(v, key.len() as int);
    let kx = v.alloc_place(key.len() as int);
    let v1 = v.after_alloc(key);
    let vh = next_handle(v1, value.len() as int);
    let vx = v1.alloc_place(value.len() as int);
    let v2 = v1.after_alloc(value);
    let m = inserted_node(v, n, tx_id, idx, key, value);
    let place = v2.alloc_place(NODE_SIZE as int);
    let i1 = v.first_fit(chunk_size(key.len() as int));
    let i2 = v1.first_fit(chunk_size(value.len() as int));
    v.lemma_first_fit(chunk_size(key.len() as int), 0);
    lemma_malloc_keeps_all(v, i1, key.len() as usize, key);
    v.lemma_malloc_keeps(i1, key.len() as usize, key, kx);
    v1.lemma_first_fit(chunk_size(value.len() as int), 0);
    lemma_malloc_keeps_all(v1, i2, value.len() as usize, value);
    v1.lemma_malloc_keeps(i2, value.len() as usize, value, vx);
    v1.lemma_malloc_keeps(i2, value.len() as usize, value, kx);
    lemma_keeps_all_trans(v, v1, v2);
    lemma_kept_row(v, v2, n.keys);
    lemma_kept_row(v, v2, n.children);
    assert(v.blocks[i1].start + HEADER_SIZE == kx);
    assert(kh.arc_inner_index == kx);
    assert(vh.arc_inner_index == vx);
    assert(handle_valid(v2, kh));
    assert(handle_valid(v2, vh));
    assert forall|i: int| 0 <= i < m.keys.len() implies handle_valid(v2, #[trigger] m.keys[i]) by {
        if i < idx {
            assert(m.keys[i] == n.keys[i]);
        } else if i > idx {
            assert(m.keys[i] == n.keys[i - 1]);
        }
    }
    assert forall|i: int| 0 <= i < m.children.len() implies handle_valid(
        v2,
        #[trigger] m.children[i],
    ) by {
        if i < idx {
            assert(m.children[i] == n.children[i]);
        } else if i > idx {
            assert(m.children[i] == n.children[i - 1]);
        }
    }
    let c = committed(v2, m);
    m.lemma_committed(v2);
    lemma_committed_place(v2, m);
    if v.is_live(vx) {
        assert(v.same_payload(v1, vx));
    }
    if v.is_live(place) {
        assert(v.same_payload(v2, place));
    }
    lemma_refs_dead(v, n, kx);
    lemma_refs_dead(v, n, vx);
    lemma_occ_bounds(n.keys, kx);
    lemma_occ_bounds(n.children, kx);
    lemma_occ_bounds(n.keys, vx);
    lemma_occ_bounds(n.children, vx);
    lemma_occ_insert(n.keys, idx, kh, kx);
    lemma_occ_insert(n.children, idx, vh, kx);
    lemma_occ_insert(n.keys, idx, kh, vx);
    lemma_occ_insert(n.children, idx, vh, vx);
    lemma_committed_count(v2, m, kx, 1);
    lemma_committed_count(v2, m, vx, 1);
    lemma_release_count(c, kx, kx, 1);
    lemma_release_count(c, kx, vx, 2);
    lemma_release_count(c, kx, place, 1);
    let c1 = c.after_release(kx);
    lemma_release_count(c1, vx, vx, 1);
    lemma_release_count(c1, vx, kx, 1);
    lemma_release_count(c1, vx, place, 1);
    let w = c1.after_release(vx);
    w.law_live_is_counted(kx);
    w.law_live_is_counted(vx);
    w.law_live_is_counted(place);
}

/// What putting another value under a key allocates: the value and the
/// node are alive afterwards and were not before; the new node names the
/// value once, and not itself.
pub proof fn lemma_updated_steps(v: PoolView, n: NodeView, tx_id: usize, idx: int, value: Seq<u8>)
    requires
        v.wf(),
        n.fits(),
        0 <= idx < n.children.len(),
        handles_valid(v, n.keys),
        handles_valid(v, n.children.remove(idx)),
        update_fits(v, value),
        value.len() <= usize::MAX,
    ensures
        ({
            let vx = v.alloc_place(value.len() as int);
            let v1 = v.after_alloc(value);
            let m = updated_node(v, n, tx_id, idx, value);
            let place = v1.alloc_place(NODE_SIZE as int);
            let c = committed(v1, m);
            let w = updated(v, n, tx_id, idx, value);
            &&& v1.wf()
            &&& c.wf()
            &&& w.wf()
            &&& m.fits()
            &&& m.valid_in(v1)
            &&& v1.can_alloc(NODE_SIZE as int)
            &&& !v.is_live(vx)
            &&& !v.is_live(place)
            &&& vx != place
            &&& v1.is_live(vx)
            &&& c.is_live(vx)
            &&& m.refs(vx) == 1
            &&& m.refs(place) == 0
            &&& w.is_live(vx)
            &&& w.is_live(place)
            &&& w.object(vx).strong >= 1
            &&& w.object(place).strong >= 1
            &&& next_handle(v, value.len() as int).arc_inner_index == vx
        }),
{
    let vh = next_handle(v, value.len() as int);
    let vx = v.alloc_place(value.len() as int);
    let v1 = v.after_alloc(value);
    let m = updated_node(v, n, tx_id, idx, value);
    let place = v1.alloc_place(NODE_SIZE as int);
    let rest = n.children.remove(idx);
    let i1 = v.first_fit(chunk_size(value.len() as int));
    v.lemma_first_fit(chunk_size(value.len() as int), 0);
    lemma_malloc_keeps_all(v, i1, value.len() as usize, value);
    v.lemma_malloc_keeps(i1, value.len() as usize, value, vx);
    lemma_kept_row(v, v1, n.keys);
    lemma_kept_row(v, v1, rest);
    assert(vh.arc_inner_index == vx);
    assert(handle_valid(v1, vh));
    assert(m.children =~= rest.insert(idx, vh));
    assert forall|i: int| 0 <= i < m.children.len() implies handle_valid(
        v1,
        #[trigger] m.children[i],
    ) by {
        if i < idx {
            assert(m.children[i] == rest[i]);
        } else if i > idx {
            assert(m.children[i] == rest[i - 1]);
        }
    }
    let c = committed(v1, m);
    m.lemma_committed(v1);
    lemma_committed_place(v1, m);
    if v.is_live(place) {
        assert(v.same_payload(v1, place));
    }
    if occ(n.keys, vx) >= 1 {
        lemma_named_live(v, n.keys, vx);
    }
    if occ(rest, vx) >= 1 {
        lemma_named_live(v, rest, vx);
    }
    lemma_occ_bounds(n.keys, vx);
    lemma_occ_bounds(rest, vx);
    lemma_occ_insert(rest, idx, vh, vx);
    lemma_committed_count(v1, m, vx, 1);
    lemma_release_count(c, vx, vx, 1);
    lemma_release_count(c, vx, place, 1);
    let w = c.after_release(vx);
    w.law_live_is_counted(vx);
    w.law_live_is_counted(place);
}

/// What putting another value under a key does to an object that was there
/// before: its payload stays, and its count rises by the number of times
/// that the new node names it.
pub proof fn lemma_updated_old(
    v: PoolView,
    n: NodeView,
    tx_id: usize,
    idx: int,
    value: Seq<u8>,
    x: int,
    base: int,
)
    requires
        v.wf(),
        n.fits(),
        0 <= idx < n.children.len(),
        handles_valid(v, n.keys),
        handles_valid(v, n.children.remove(idx)),
        update_fits(v, value),
        value.len() <= usize::MAX,
        v.is_live(x),
        count_ok(v.object(x).strong, base),
    ensures
        updated(v, n, tx_id, idx, value).wf(),
        v.same_payload(updated(v, n, tx_id, idx, value), x),
        count_ok(
            updated(v, n, tx_id, idx, value).object(x).strong,
            base + updated_node(v, n, tx_id, idx, value).refs(x),
        ),
        updated_node(v, n, tx_id, idx, value).refs(x) == n.refs(x) - one_if(
            x,
            n.children[idx].arc_inner_index as int,
        ),
        x != v.after_alloc(value).alloc_place(NODE_SIZE as int),
{
    let vh = next_handle(v, value.len() as int);
    let vx = vh.arc_inner_index as int;
    let v1 = v.after_alloc(value);
    let m = updated_node(v, n, tx_id, idx, value);
    lemma_updated_steps(v, n, tx_id, idx, value);
    let i1 = v.first_fit(chunk_size(value.len() as int));
    v.lemma_first_fit(chunk_size(value.len() as int), 0);
    v.lemma_malloc_keeps(i1, value.len() as usize, value, x);
    lemma_occ_update(n.children, idx, vh, x);
    let c = committed(v1, m);
    lemma_committed_count(v1, m, x, base);
    c.lemma_after_release(vx);
    c.lemma_release_keeps(vx, x);
}

/// The node without the entry at `idx` names the key and the child of that
/// entry once less each.
pub proof fn lemma_removed_refs(n: NodeView, tx_id: usize, idx: int, x: int)
    requires
        0 <= idx < n.keys.len(),
        idx < n.children.len(),
    ensures
        n.without_entry(tx_id, idx).refs(x) == n.refs(x) - one_if(
            x,
            n.keys[idx].arc_inner_index as int,
        ) - one_if(x, n.children[idx].arc_inner_index as int),
{
    lemma_occ_remove(n.keys, idx, x);
    lemma_occ_remove(n.children, idx, x);
}

/// Two pools that differ in the tag counter at most hold the same objects.
pub proof fn lemma_same_layout(v: PoolView, w: PoolView)
    requires
        v.wf(),
        w.wf(),
        w.same_layout(v),
    ensures
        keeps_all(v, w),
        forall|x: int| v.is_live(x) ==> #[trigger] v.same_object(w, x),
{
    assert forall|x: int| v.is_live(x) implies #[trigger] v.same_object(w, x) by {
        let i = v.index_of(x);
        assert(v.has_object(i, x));
        assert(w.has_object(i, x));
        w.lemma_index_of(i, x);
    }
    assert forall|x: int| v.is_live(x) implies #[trigger] v.same_payload(w, x) by {
        assert(v.same_object(w, x));
    }
}

/// The node that an insertion writes names the new key and the new value
/// once more each than the old node, and every other object as often.
pub proof fn lemma_inserted_refs(
    v: PoolView,
    n: NodeView,
    tx_id: usize,
    idx: int,
    key: Seq<u8>,
    value: Seq<u8>,
    x: int,
)
    requires
        0 <= idx <= n.keys.len(),
        idx <= n.children.len(),
    ensures
        inserted_node(v, n, tx_id, idx, key, value).refs(x) == n.refs(x) + one_if(
            x,
            next_handle(v, key.len() as int).arc_inner_index as int,
        ) + one_if(x, next_handle(v.after_alloc(key), value.len() as int).arc_inner_index as int),
{
    lemma_occ_insert(n.keys, idx, next_handle(v, key.len() as int), x);
    lemma_occ_insert(
        n.children,
        idx,
        next_handle(v.after_alloc(key), value.len() as int),
        x,
    );
}

/// The node that putting another value under a key writes names the old
/// value once less and the new one once more than the old node.
pub proof fn lemma_updated_refs(
    v: PoolView,
    n: NodeView,
    tx_id: usize,
    idx: int,
    value: Seq<u8>,
    x: int,
)
    requires
        0 <= idx < n.children.len(),
    ensures
        updated_node(v, n, tx_id, idx, value).refs(x) == n.refs(x) - one_if(
            x,
            n.children[idx].arc_inner_index as int,
        ) + one_if(x, next_handle(v, value.len() as int).arc_inner_index as int),
{
    lemma_occ_update(n.children, idx, next_handle(v, value.len() as int), x);
}

} // verus!
