//! A node of the tree: a type, the transaction that wrote it, and two rows
//! of handles, keys and children. A node is never changed once it is
//! written: every operation writes a new node into the pool.

use crate::allocator::arc::{ArcByteSlice, PersistedArcByteSlice};
use crate::allocator::pool::{Pool, BUFFER_END};
use crate::allocator::view::{chunk_size, PoolView};
use crate::allocator::words::{
    lemma_words_bytes, read_word_in, word_at, words_bytes, words_to_bytes,
};
use crate::slicebtree::handles::{
    all_valid, handle_valid, handles_valid, keeps_all, lemma_kept_row, lemma_keeps_all_trans,
    lemma_malloc_keeps_all, lemma_release_keeps_all, lemma_retain_keeps_all, lemma_retained,
    lemma_retained_strong, retain_all, retained, row_bytes,
};
use crate::slicebtree::order::{
    compare_keys, lemma_lex_total, lemma_lex_trans, lex_lt, strictly_sorted, KeyOrder,
};
use crate::LodestoneError;
use vstd::prelude::*;

verus! {

/// How many keys, and how many children, a node can hold.
pub const B: usize = 100;

/// The words of a stored node: type, transaction, the number of keys, the
/// keys, the number of children, the children.
pub const NODE_WORDS: usize = 404;

/// The bytes of a stored node.
pub const NODE_SIZE: usize = 3232;

/// What the children of a node are: other nodes below a root or an internal
/// node, values below a leaf.
#[derive(Debug, Clone, Copy, PartialEq, Eq, Structural)]
pub enum NodeType {
    Root,
    Internal,
    Leaf,
}

/// A node as it is worked on: read from the pool, or about to be written.
pub struct Node {
    pub node_type: NodeType,
    pub tx_id: usize,
    pub keys: Vec<PersistedArcByteSlice>,
    pub children: Vec<PersistedArcByteSlice>,
}

/// What a node holds.
pub struct NodeView {
    pub node_type: NodeType,
    pub tx_id: usize,
    pub keys: Seq<PersistedArcByteSlice>,
    pub children: Seq<PersistedArcByteSlice>,
}

impl View for Node {
    type V = NodeView;

    open spec fn view(&self) -> NodeView {
        NodeView {
            node_type: self.node_type,
            tx_id: self.tx_id,
            keys: self.keys@,
            children: self.children@,
        }
    }
}

/// The word that stands for a node type in a stored node.
pub open spec fn type_code(t: NodeType) -> usize {
    match t {
        NodeType::Root => 11,
        NodeType::Internal => 12,
        NodeType::Leaf => 13,
    }
}

/// Word `m` of a row of handles: the offset and the tag of one handle after
/// those of another, and the handle that denotes nothing where the row has
/// ended.
pub open spec fn row_word(row: Seq<PersistedArcByteSlice>, m: int) -> usize {
    if m / 2 < row.len() {
        if m % 2 == 0 {
            row[m / 2].arc_inner_index
        } else {
            row[m / 2].id_tag
        }
    } else {
        if m % 2 == 0 {
            BUFFER_END
        } else {
            0
        }
    }
}

/// Word `k` of a stored node.
pub open spec fn node_word(n: NodeView, k: int) -> usize {
    if k == 0 {
        type_code(n.node_type)
    } else if k == 1 {
        n.tx_id
    } else if k == 2 {
        n.keys.len() as usize
    } else if k < 203 {
        row_word(n.keys, k - 3)
    } else if k == 203 {
        n.children.len() as usize
    } else {
        row_word(n.children, k - 204)
    }
}

/// The bytes of a stored node.
pub open spec fn encoding(n: NodeView) -> Seq<u8> {
    words_bytes(Seq::new(NODE_WORDS as nat, |k: int| node_word(n, k)))
}

/// The handle stored in the two words from word `k` of `bytes`.
pub open spec fn handle_at(bytes: Seq<u8>, k: int) -> PersistedArcByteSlice {
    PersistedArcByteSlice {
        arc_inner_index: word_at(bytes, 8 * k),
        id_tag: word_at(bytes, 8 * k + 8),
    }
}

/// `bytes` can be read as a node: they have the size of one, start with the
/// word of a node type, and name no more keys and children than fit.
pub open spec fn parsable(bytes: Seq<u8>) -> bool {
    &&& bytes.len() == NODE_SIZE
    &&& 11 <= word_at(bytes, 0) <= 13
    &&& word_at(bytes, 16) <= B
    &&& word_at(bytes, 1624) <= B
}

/// The node that `bytes` hold, if they can be read as one.
pub open spec fn decoding(bytes: Seq<u8>) -> NodeView {
    NodeView {
        node_type: if word_at(bytes, 0) == 11 {
            NodeType::Root
        } else if word_at(bytes, 0) == 12 {
            NodeType::Internal
        } else {
            NodeType::Leaf
        },
        tx_id: word_at(bytes, 8),
        keys: Seq::new(word_at(bytes, 16) as nat, |i: int| handle_at(bytes, 3 + 2 * i)),
        children: Seq::new(word_at(bytes, 1624) as nat, |i: int| handle_at(bytes, 204 + 2 * i)),
    }
}

impl NodeView {
    /// A node holds no more keys and children than fit, and a leaf as many
    /// children as keys.
    pub open spec fn wf(self) -> bool {
        &&& self.keys.len() <= B
        &&& self.children.len() <= B
        &&& self.node_type == NodeType::Leaf ==> self.keys.len() == self.children.len()
    }

    /// A node that is written down and read again is the same node.
    pub proof fn law_encoding_round_trip(self)
        requires
            self.keys.len() <= B,
            self.children.len() <= B,
        ensures
            parsable(encoding(self)),
            decoding(encoding(self)) == self,
    {
        let ws = Seq::new(NODE_WORDS as nat, |k: int| node_word(self, k));
        let bytes = encoding(self);
        lemma_words_bytes(ws, 0);
        lemma_words_bytes(ws, 1);
        lemma_words_bytes(ws, 2);
        lemma_words_bytes(ws, 203);
        let d = decoding(bytes);
        assert forall|i: int| 0 <= i < self.keys.len() implies d.keys[i] == self.keys[i] by {
            lemma_words_bytes(ws, 3 + 2 * i);
            lemma_words_bytes(ws, 4 + 2 * i);
            assert((2 * i) / 2 == i && (2 * i) % 2 == 0);
            assert((2 * i + 1) / 2 == i && (2 * i + 1) % 2 == 1);
        }
        assert forall|i: int| 0 <= i < self.children.len() implies d.children[i]
            == self.children[i] by {
            lemma_words_bytes(ws, 204 + 2 * i);
            lemma_words_bytes(ws, 205 + 2 * i);
            assert((2 * i) / 2 == i && (2 * i) % 2 == 0);
            assert((2 * i + 1) / 2 == i && (2 * i + 1) % 2 == 1);
        }
        assert(d.keys =~= self.keys);
        assert(d.children =~= self.children);
    }
}

/// Appends to `ws` the words of the row of handles `row`, filled up to `B`
/// handles with the handle that denotes nothing.
fn push_row(ws: &mut Vec<usize>, row: &Vec<PersistedArcByteSlice>)
    requires
        row@.len() <= B,
        old(ws)@.len() <= NODE_WORDS,
    ensures
        final(ws)@.len() == old(ws)@.len() + 2 * B,
        forall|j: int| 0 <= j < old(ws)@.len() ==> final(ws)@[j] == old(ws)@[j],
        forall|m: int| 0 <= m < 2 * B ==> final(ws)@[old(ws)@.len() + m] == row_word(row@, m),
{
    let ghost base = ws@.len();
    let mut i: usize = 0;
    while i < B
        invariant
            i <= B,
            row@.len() <= B,
            base == old(ws)@.len(),
            base <= NODE_WORDS,
            ws@.len() == base + 2 * i,
            forall|j: int| 0 <= j < base ==> ws@[j] == old(ws)@[j],
            forall|m: int| 0 <= m < 2 * i ==> ws@[base + m] == row_word(row@, m),
        decreases B - i,
    {
        proof {
            assert((2 * i) / 2 == i as int && (2 * i) % 2 == 0);
            assert((2 * i + 1) / 2 == i as int && (2 * i + 1) % 2 == 1);
        }
        if i < row.len() {
            ws.push(row[i].arc_inner_index);
            ws.push(row[i].id_tag);
        } else {
            ws.push(BUFFER_END);
            ws.push(0);
        }
        i += 1;
    }
}

/// Reads the first `n` handles of the row that starts at word `k` of
/// `bytes`.
fn read_row(bytes: &[u8], k: usize, n: usize) -> (row: Vec<PersistedArcByteSlice>)
    requires
        n <= B,
        8 * (k + 2 * n) <= bytes@.len(),
        k <= NODE_WORDS,
    ensures
        row@ == Seq::new(n as nat, |i: int| handle_at(bytes@, k + 2 * i)),
{
    let mut row: Vec<PersistedArcByteSlice> = Vec::new();
    let mut i: usize = 0;
    while i < n
        invariant
            i <= n,
            n <= B,
            k <= NODE_WORDS,
            8 * (k + 2 * n) <= bytes@.len(),
            row@.len() == i,
            forall|j: int| 0 <= j < i ==> row@[j] == handle_at(bytes@, k + 2 * j),
        decreases n - i,
    {
        let at = 8 * (k + 2 * i);
        row.push(
            PersistedArcByteSlice {
                arc_inner_index: read_word_in(bytes, at),
                id_tag: read_word_in(bytes, at + 8),
            },
        );
        i += 1;
    }
    assert(row@ =~= Seq::new(n as nat, |i: int| handle_at(bytes@, k + 2 * i)));
    row
}

impl Node {
    /// A node holds no more keys and children than fit, and a leaf as many
    /// children as keys.
    pub open spec fn wf(&self) -> bool {
        self@.wf()
    }

    /// A node of type `node_type` without keys and children.
    pub fn new(tx: usize, node_type: NodeType) -> (node: Node)
        ensures
            node.wf(),
            node@ == (NodeView { node_type, tx_id: tx, keys: Seq::empty(), children: Seq::empty() }),
    {
        Node { node_type, tx_id: tx, keys: Vec::new(), children: Vec::new() }
    }

    /// Makes this node one of type `node_type`, written by transaction `tx`,
    /// without keys and children.
    pub fn init(&mut self, tx: usize, node_type: NodeType)
        ensures
            final(self).wf(),
            final(self)@ == (NodeView {
                node_type,
                tx_id: tx,
                keys: Seq::empty(),
                children: Seq::empty(),
            }),
    {
        self.keys = Vec::new();
        self.children = Vec::new();
        self.node_type = node_type;
        self.tx_id = tx;
    }

    /// How many keys the node holds.
    pub fn num_keys(&self) -> (n: usize)
        ensures
            n == self@.keys.len(),
    {
        self.keys.len()
    }

    /// How many children the node holds.
    pub fn num_children(&self) -> (n: usize)
        ensures
            n == self@.children.len(),
    {
        self.children.len()
    }

    /// The bytes of this node as it is stored.
    pub fn encode(&self) -> (bytes: Vec<u8>)
        requires
            self@.keys.len() <= B,
            self@.children.len() <= B,
        ensures
            bytes@ == encoding(self@),
            bytes@.len() == NODE_SIZE,
    {
        let mut ws: Vec<usize> = Vec::new();
        ws.push(
            match self.node_type {
                NodeType::Root => 11,
                NodeType::Internal => 12,
                NodeType::Leaf => 13,
            },
        );
        ws.push(self.tx_id);
        ws.push(self.keys.len());
        push_row(&mut ws, &self.keys);
        ws.push(self.children.len());
        push_row(&mut ws, &self.children);
        proof {
            assert(ws@ =~= Seq::new(NODE_WORDS as nat, |k: int| node_word(self@, k)));
        }
        words_to_bytes(&ws)
    }

    /// Reads a node from the bytes it is stored in. Returns nothing where
    /// the bytes cannot be read as a node.
    pub fn decode(bytes: &[u8]) -> (res: Option<Node>)
        ensures
            res is Some <==> parsable(bytes@),
            res matches Some(node) ==> node@ == decoding(bytes@) && node@.keys.len() <= B
                && node@.children.len() <= B,
    {
        if bytes.len() != NODE_SIZE {
            return None;
        }
        let code = read_word_in(bytes, 0);
        let num_keys = read_word_in(bytes, 16);
        let num_children = read_word_in(bytes, 1624);
        if code < 11 || code > 13 || num_keys > B || num_children > B {
            return None;
        }
        let node_type = if code == 11 {
            NodeType::Root
        } else if code == 12 {
            NodeType::Internal
        } else {
            NodeType::Leaf
        };
        let tx_id = read_word_in(bytes, 8);
        let keys = read_row(bytes, 3, num_keys);
        let children = read_row(bytes, 204, num_children);
        Some(Node { node_type, tx_id, keys, children })
    }
}

/// The pool `v` after the node `n` has been written into it as a new
/// allocation that holds a strong reference to each of its keys and
/// children.
pub open spec fn committed(v: PoolView, n: NodeView) -> PoolView {
    retained(retained(v.after_alloc(encoding(n)), n.keys), n.children)
}

impl NodeView {
    /// Every key and every child of the node denotes an allocation of `v`.
    pub open spec fn valid_in(self, v: PoolView) -> bool {
        handles_valid(v, self.keys) && handles_valid(v, self.children)
    }

    /// The keys of the node in `v`, as bytes.
    pub open spec fn key_bytes(self, v: PoolView) -> Seq<Seq<u8>> {
        row_bytes(v, self.keys)
    }

    /// The children of the node in `v`, as bytes.
    pub open spec fn child_bytes(self, v: PoolView) -> Seq<Seq<u8>> {
        row_bytes(v, self.children)
    }

    /// The keys of the node denote allocations of `v` and rise strictly.
    pub open spec fn keyed_in(self, v: PoolView) -> bool {
        handles_valid(v, self.keys) && strictly_sorted(self.key_bytes(v))
    }

    /// The object at `x` of `v` holds this node.
    pub open spec fn stored_at(self, v: PoolView, x: int) -> bool {
        v.is_live(x) && v.object(x).data == encoding(self)
    }

    /// Where `key` stands among the keys of the node in `v`, or would have
    /// to be put: behind the keys that come before it.
    pub open spec fn is_place_of(self, v: PoolView, key: Seq<u8>, idx: int) -> bool {
        &&& 0 <= idx <= self.keys.len()
        &&& forall|j: int| 0 <= j < idx ==> lex_lt(#[trigger] self.key_bytes(v)[j], key)
        &&& forall|j: int|
            idx <= j < self.keys.len() ==> !lex_lt(#[trigger] self.key_bytes(v)[j], key)
    }

    /// The node holds `key` at `idx`.
    pub open spec fn has_key_at(self, v: PoolView, key: Seq<u8>, idx: int) -> bool {
        0 <= idx < self.keys.len() && self.key_bytes(v)[idx] == key
    }

    /// Writing a node into a well-formed pool with room for it, where its
    /// handles are valid, leaves the pool well-formed and keeps every
    /// allocation; the node stands where the allocation was made.
    pub proof fn lemma_committed(self, v: PoolView)
        requires
            v.wf(),
            self.keys.len() <= B,
            self.children.len() <= B,
            self.valid_in(v),
            v.can_alloc(NODE_SIZE as int),
        ensures
            committed(v, self).wf(),
            keeps_all(v, committed(v, self)),
            self.stored_at(committed(v, self), v.alloc_place(NODE_SIZE as int)),
            self.valid_in(committed(v, self)),
            !v.is_live(v.alloc_place(NODE_SIZE as int)),
    {
        let bytes = encoding(self);
        let i = v.first_fit(chunk_size(NODE_SIZE as int));
        let x = v.alloc_place(NODE_SIZE as int);
        self.law_encoding_round_trip();
        v.lemma_first_fit(chunk_size(NODE_SIZE as int), 0);
        let v1 = v.after_alloc(bytes);
        lemma_malloc_keeps_all(v, i, NODE_SIZE, bytes);
        v.lemma_malloc_keeps(i, NODE_SIZE, bytes, x);
        lemma_kept_row(v, v1, self.keys);
        lemma_kept_row(v, v1, self.children);
        let v2 = retained(v1, self.keys);
        lemma_retained(v1, self.keys);
        lemma_kept_row(v1, v2, self.children);
        lemma_kept_row(v1, v2, self.keys);
        let v3 = retained(v2, self.children);
        lemma_retained(v2, self.children);
        lemma_kept_row(v2, v3, self.children);
        lemma_kept_row(v2, v3, self.keys);
        lemma_keeps_all_trans(v1, v2, v3);
        lemma_keeps_all_trans(v, v1, v3);
        assert(v1.same_payload(v3, x));
    }
}

impl Node {
    /// Copies the handles of `src` from `from` up to `to` to the end of
    /// `out`. No reference is taken.
    fn append_range(
        out: &mut Vec<PersistedArcByteSlice>,
        src: &Vec<PersistedArcByteSlice>,
        from: usize,
        to: usize,
    )
        requires
            from <= to <= src@.len(),
        ensures
            final(out)@ == old(out)@ + src@.subrange(from as int, to as int),
    {
        let mut k: usize = from;
        while k < to
            invariant
                from <= k <= to,
                to <= src@.len(),
                out@ == old(out)@ + src@.subrange(from as int, k as int),
            decreases to - k,
        {
            out.push(
                PersistedArcByteSlice {
                    arc_inner_index: src[k].arc_inner_index,
                    id_tag: src[k].id_tag,
                },
            );
            assert(out@ =~= old(out)@ + src@.subrange(from as int, k + 1));
            k += 1;
        }
        assert(out@ =~= old(out)@ + src@.subrange(from as int, to as int));
    }

    /// Reads the node that `arc` denotes. Returns nothing where the payload
    /// cannot be read as a node.
    pub fn load(pool: &Pool, arc: &ArcByteSlice) -> (res: Option<Node>)
        requires
            pool.inv(),
            pool.holds(arc),
        ensures
            res is Some <==> parsable(pool@.object(arc.arc_inner_index as int).data),
            res matches Some(node) ==> node@ == decoding(
                pool@.object(arc.arc_inner_index as int).data,
            ) && node@.keys.len() <= B && node@.children.len() <= B,
    {
        Node::decode(pool.deref(arc))
    }

    /// Writes this node into the pool as a new allocation, and takes a
    /// strong reference to each of its keys and children. Returns a live
    /// handle to the new node.
    pub fn clone(&self, pool: &mut Pool) -> (res: Result<ArcByteSlice, LodestoneError>)
        requires
            old(pool).wf(),
            self.wf(),
        ensures
            final(pool).wf(),
            match res {
                Ok(arc) => {
                    &&& self@.valid_in(old(pool)@)
                    &&& old(pool)@.can_alloc(NODE_SIZE as int)
                    &&& arc.arc_inner_index == old(pool)@.alloc_place(NODE_SIZE as int)
                    &&& final(pool).holds(&arc)
                    &&& final(pool)@ == committed(old(pool)@, self@)
                    &&& self@.stored_at(final(pool)@, arc.arc_inner_index as int)
                    &&& keeps_all(old(pool)@, final(pool)@)
                },
                Err(e) => {
                    &&& final(pool)@ == old(pool)@
                    &&& if self@.valid_in(old(pool)@) {
                        e == LodestoneError::OutOfMemory && !old(pool)@.can_alloc(NODE_SIZE as int)
                    } else {
                        e == LodestoneError::InvalidReference
                    }
                },
            },
    {
        if !all_valid(pool, &self.keys) || !all_valid(pool, &self.children) {
            return Err(LodestoneError::InvalidReference);
        }
        let bytes = self.encode();
        let arc = match pool.malloc(bytes.as_slice()) {
            Ok(arc) => arc,
            Err(e) => { return Err(e); },
        };
        proof {
            let v = old(pool)@;
            v.lemma_first_fit(chunk_size(NODE_SIZE as int), 0);
            self@.lemma_committed(v);
            lemma_malloc_keeps_all(
                v,
                v.first_fit(chunk_size(NODE_SIZE as int)),
                NODE_SIZE,
                encoding(self@),
            );
            lemma_kept_row(v, pool@, self@.keys);
            lemma_kept_row(v, pool@, self@.children);
        }
        let ghost v1 = pool@;
        retain_all(pool, &self.keys);
        proof {
            lemma_retained(v1, self@.keys);
            lemma_kept_row(v1, pool@, self@.children);
        }
        retain_all(pool, &self.children);
        Ok(arc)
    }

    /// Where `key` stands among the keys of this node, which rise strictly:
    /// whether the node holds it and, if so, at which index; if not, the
    /// index at which it would have to be put.
    pub fn index_or_insertion_of(&self, key: &[u8], pool: &Pool) -> (r: (bool, usize))
        requires
            pool.inv(),
            self@.keyed_in(pool@),
        ensures
            self@.is_place_of(pool@, key@, r.1 as int),
            r.0 == self@.has_key_at(pool@, key@, r.1 as int),
    {
        let n = self.keys.len();
        let ghost ks = self@.key_bytes(pool@);
        if n == 0 {
            return (false, 0);
        }
        let mut bottom: usize = 0;
        let mut top: usize = n;
        proof {
            assert(handle_valid(pool@, self@.keys[n - 1]));
        }
        match pool.peek(&self.keys[n - 1]) {
            None => { return (false, BUFFER_END); },
            Some(last_key) => {
                if compare_keys(key, last_key) == KeyOrder::Greater {
                    proof {
                        assert(ks[n - 1] == last_key@);
                        assert forall|j: int| 0 <= j < n implies lex_lt(#[trigger] ks[j], key@) by {
                            if j < n - 1 {
                                lemma_lex_trans(ks[j], ks[n - 1], key@);
                            }
                        }
                    }
                    return (false, n);
                }
            },
        }
        while bottom < top
            invariant
                bottom <= top <= n,
                n == self@.keys.len(),
                pool.inv(),
                self@.keyed_in(pool@),
                ks == self@.key_bytes(pool@),
                forall|j: int| 0 <= j < bottom ==> lex_lt(#[trigger] ks[j], key@),
                forall|j: int| top <= j < n ==> !lex_lt(#[trigger] ks[j], key@),
            decreases top - bottom,
        {
            let i = bottom + (top - bottom) / 2;
            proof {
                assert(handle_valid(pool@, self@.keys[i as int]));
            }
            match pool.peek(&self.keys[i]) {
                None => { return (false, BUFFER_END); },
                Some(i_key) => {
                    proof {
                        assert(ks[i as int] == i_key@);
                        lemma_lex_total(key@, i_key@);
                    }
                    if compare_keys(key, i_key) == KeyOrder::Greater {
                        proof {
                            assert forall|j: int| 0 <= j < i + 1 implies lex_lt(
                                #[trigger] ks[j],
                                key@,
                            ) by {
                                if j < i {
                                    lemma_lex_trans(ks[j], ks[i as int], key@);
                                }
                            }
                        }
                        bottom = i + 1;
                    } else {
                        proof {
                            assert forall|j: int| i <= j < n implies !lex_lt(
                                #[trigger] ks[j],
                                key@,
                            ) by {
                                if j > i {
                                    if lex_lt(ks[j], key@) {
                                        lemma_lex_trans(ks[i as int], ks[j], key@);
                                    }
                                }
                            }
                        }
                        top = i;
                    }
                },
            }
        }
        if bottom < n {
            proof {
                assert(handle_valid(pool@, self@.keys[bottom as int]));
            }
            match pool.peek(&self.keys[bottom]) {
                None => (false, BUFFER_END),
                Some(i_key) => {
                    proof {
                        assert(ks[bottom as int] == i_key@);
                    }
                    (compare_keys(key, i_key) == KeyOrder::Equal, bottom)
                },
            }
        } else {
            (false, bottom)
        }
    }

    /// Whether this leaf holds `key`.
    pub fn leaf_node_contains_key(&self, key: &[u8], pool: &Pool) -> (found: bool)
        requires
            pool.inv(),
            self.node_type == NodeType::Leaf,
            self@.keyed_in(pool@),
        ensures
            found == exists|i: int| self@.has_key_at(pool@, key@, i),
    {
        let r = self.index_or_insertion_of(key, pool);
        proof {
            self@.lemma_place_is_unique(pool@, key@, r.1 as int);
        }
        r.0
    }

    /// A live handle to the value that this node holds for `key`, or nothing
    /// where it holds none.
    pub fn value_for_key(&self, key: &[u8], pool: &mut Pool) -> (res: Option<ArcByteSlice>)
        requires
            old(pool).wf(),
            self@.keyed_in(old(pool)@),
        ensures
            final(pool).wf(),
            match res {
                Some(arc) => {
                    exists|i: int|
                        {
                            &&& #[trigger] self@.has_key_at(old(pool)@, key@, i)
                            &&& i < self@.children.len()
                            &&& handle_valid(old(pool)@, self@.children[i])
                            &&& arc.arc_inner_index == self@.children[i].arc_inner_index
                            &&& final(pool)@ == old(pool)@.after_retain(arc.arc_inner_index as int)
                            &&& final(pool).holds(&arc)
                        }
                },
                None => {
                    &&& final(pool)@ == old(pool)@
                    &&& forall|i: int|
                        #[trigger] self@.has_key_at(old(pool)@, key@, i) ==> !(i
                            < self@.children.len() && handle_valid(
                            old(pool)@,
                            self@.children[i],
                        ))
                },
            },
    {
        let (found, idx) = self.index_or_insertion_of(key, pool);
        proof {
            self@.lemma_place_is_unique(pool@, key@, idx as int);
        }
        if found && idx < self.children.len() {
            match self.children[idx].clone_to_arc_byte_slice(pool) {
                Ok(arc) => {
                    assert(self@.has_key_at(old(pool)@, key@, idx as int));
                    Some(arc)
                },
                Err(_) => None,
            }
        } else {
            None
        }
    }
}

impl NodeView {
    /// Among keys that rise strictly a key stands at one index at most, and
    /// that is the place that the search names.
    pub proof fn lemma_place_is_unique(self, v: PoolView, key: Seq<u8>, idx: int)
        requires
            self.keyed_in(v),
            self.is_place_of(v, key, idx),
        ensures
            forall|i: int| self.has_key_at(v, key, i) ==> i == idx,
    {
        let ks = self.key_bytes(v);
        assert forall|i: int| self.has_key_at(v, key, i) implies i == idx by {
            lemma_lex_total(key, key);
            if i < idx {
                assert(lex_lt(ks[i], key));
            } else if i > idx {
                assert(!lex_lt(ks[idx], key));
                assert(lex_lt(ks[idx], ks[i]));
            }
        }
    }
}

/// The handle to the next allocation of `size` bytes in the pool `v`.
pub open spec fn next_handle(v: PoolView, size: int) -> PersistedArcByteSlice {
    PersistedArcByteSlice { arc_inner_index: v.alloc_place(size) as usize, id_tag: v.next_id_tag }
}

/// The three halves of a split: two new nodes, and the key at which the old
/// node was cut.
pub struct Split {
    pub bottom_half: ArcByteSlice,
    pub top_half: ArcByteSlice,
    pub mid_key: ArcByteSlice,
}

impl NodeView {
    /// This node, written by `tx_id`, with the key `k` and the child `c` put
    /// in at `idx`.
    pub open spec fn with_entry(
        self,
        tx_id: usize,
        idx: int,
        k: PersistedArcByteSlice,
        c: PersistedArcByteSlice,
    ) -> NodeView {
        NodeView {
            node_type: self.node_type,
            tx_id,
            keys: self.keys.insert(idx, k),
            children: self.children.insert(idx, c),
        }
    }

    /// This node, written by `tx_id`, without the key and the child at
    /// `idx`.
    pub open spec fn without_entry(self, tx_id: usize, idx: int) -> NodeView {
        NodeView {
            node_type: self.node_type,
            tx_id,
            keys: self.keys.remove(idx),
            children: self.children.remove(idx),
        }
    }

    /// Where a split cuts the node: at half its keys.
    pub open spec fn midpoint(self) -> int {
        self.keys.len() as int / 2
    }

    /// The keys and children below the midpoint, as a node written by
    /// `tx_id`.
    pub open spec fn lower_half(self, tx_id: usize) -> NodeView {
        NodeView {
            node_type: self.node_type,
            tx_id,
            keys: self.keys.subrange(0, self.midpoint()),
            children: self.children.subrange(0, self.midpoint()),
        }
    }

    /// The keys and children from the midpoint on, as a node written by
    /// `tx_id`.
    pub open spec fn upper_half(self, tx_id: usize) -> NodeView {
        NodeView {
            node_type: self.node_type,
            tx_id,
            keys: self.keys.subrange(self.midpoint(), self.keys.len() as int),
            children: self.children.subrange(self.midpoint(), self.children.len() as int),
        }
    }

    /// The keys and children of this node followed by those of `top`, as a
    /// node written by `tx_id`.
    pub open spec fn joined(self, top: NodeView, tx_id: usize) -> NodeView {
        NodeView {
            node_type: self.node_type,
            tx_id,
            keys: self.keys + top.keys,
            children: self.children + top.children,
        }
    }
}

/// The pool `v` has room for a key, a value and a node, one after the other.
pub open spec fn insert_fits(v: PoolView, key: Seq<u8>, value: Seq<u8>) -> bool {
    &&& v.can_alloc(key.len() as int)
    &&& v.after_alloc(key).can_alloc(value.len() as int)
    &&& v.after_alloc(key).after_alloc(value).can_alloc(NODE_SIZE as int)
}

/// The node that an insertion of `key` and `value` at `idx` writes.
pub open spec fn inserted_node(
    v: PoolView,
    n: NodeView,
    tx_id: usize,
    idx: int,
    key: Seq<u8>,
    value: Seq<u8>,
) -> NodeView {
    n.with_entry(
        tx_id,
        idx,
        next_handle(v, key.len() as int),
        next_handle(v.after_alloc(key), value.len() as int),
    )
}

/// The pool `v` after `key` and `value` have been allocated and the node `n`
/// with the two put in at `idx` has been written: the new node holds the
/// only reference to the two.
pub open spec fn inserted(
    v: PoolView,
    n: NodeView,
    tx_id: usize,
    idx: int,
    key: Seq<u8>,
    value: Seq<u8>,
) -> PoolView {
    let v2 = v.after_alloc(key).after_alloc(value);
    committed(v2, inserted_node(v, n, tx_id, idx, key, value)).after_release(
        v.alloc_place(key.len() as int),
    ).after_release(v.after_alloc(key).alloc_place(value.len() as int))
}

/// The pool `v` has room for two nodes, one after the other.
pub open spec fn split_fits(v: PoolView, n: NodeView, tx_id: usize) -> bool {
    &&& v.can_alloc(NODE_SIZE as int)
    &&& v.after_alloc(encoding(n.lower_half(tx_id))).can_alloc(NODE_SIZE as int)
}

/// The pool `v` after the two halves of the node `n` have been written, and
/// references have been taken to the first `k` of their four rows: the keys
/// and the children of the lower half, then those of the upper half.
pub open spec fn split_step(v: PoolView, n: NodeView, tx_id: usize, k: int) -> PoolView
    decreases k,
{
    let lower = n.lower_half(tx_id);
    let upper = n.upper_half(tx_id);
    if k <= 0 {
        v.after_alloc(encoding(lower)).after_alloc(encoding(upper))
    } else {
        retained(
            split_step(v, n, tx_id, k - 1),
            if k == 1 {
                lower.keys
            } else if k == 2 {
                lower.children
            } else if k == 3 {
                upper.keys
            } else {
                upper.children
            },
        )
    }
}

/// The pool `v` after the two halves of the node `n` have been written and
/// a reference to the key at the midpoint has been taken.
pub open spec fn split_up(v: PoolView, n: NodeView, tx_id: usize) -> PoolView {
    split_step(v, n, tx_id, 4).after_retain(n.keys[n.midpoint()].arc_inner_index as int)
}

impl NodeView {
    /// The halves of a node whose handles are valid hold valid handles.
    pub proof fn lemma_halves_valid(self, v: PoolView, tx_id: usize)
        requires
            self.valid_in(v),
            0 <= self.midpoint() <= self.children.len(),
        ensures
            self.lower_half(tx_id).valid_in(v),
            self.upper_half(tx_id).valid_in(v),
            self.lower_half(tx_id).keys.len() <= self.keys.len(),
            self.upper_half(tx_id).keys.len() <= self.keys.len(),
            self.lower_half(tx_id).children.len() <= self.children.len(),
            self.upper_half(tx_id).children.len() <= self.children.len(),
    {
        let lower = self.lower_half(tx_id);
        let upper = self.upper_half(tx_id);
        assert forall|i: int| 0 <= i < lower.keys.len() implies handle_valid(
            v,
            #[trigger] lower.keys[i],
        ) by {
            assert(lower.keys[i] == self.keys[i]);
        }
        assert forall|i: int| 0 <= i < lower.children.len() implies handle_valid(
            v,
            #[trigger] lower.children[i],
        ) by {
            assert(lower.children[i] == self.children[i]);
        }
        assert forall|i: int| 0 <= i < upper.keys.len() implies handle_valid(
            v,
            #[trigger] upper.keys[i],
        ) by {
            assert(upper.keys[i] == self.keys[i + self.midpoint()]);
        }
        assert forall|i: int| 0 <= i < upper.children.len() implies handle_valid(
            v,
            #[trigger] upper.children[i],
        ) by {
            assert(upper.children[i] == self.children[i + self.midpoint()]);
        }
    }

    /// Writing the two halves of a node keeps every allocation; the halves
    /// stand where the two allocations were made.
    pub proof fn lemma_split_placed(self, v: PoolView, tx_id: usize)
        requires
            v.wf(),
            self.keys.len() <= B,
            self.children.len() <= B,
            0 <= self.midpoint() <= self.children.len(),
            split_fits(v, self, tx_id),
        ensures
            split_step(v, self, tx_id, 0).wf(),
            keeps_all(v, split_step(v, self, tx_id, 0)),
            self.lower_half(tx_id).stored_at(
                split_step(v, self, tx_id, 0),
                v.alloc_place(NODE_SIZE as int),
            ),
            self.upper_half(tx_id).stored_at(
                split_step(v, self, tx_id, 0),
                v.after_alloc(encoding(self.lower_half(tx_id))).alloc_place(NODE_SIZE as int),
            ),
    {
        let lower = self.lower_half(tx_id);
        let upper = self.upper_half(tx_id);
        lower.law_encoding_round_trip();
        upper.law_encoding_round_trip();
        let v1 = v.after_alloc(encoding(lower));
        let v2 = v1.after_alloc(encoding(upper));
        let i1 = v.first_fit(chunk_size(NODE_SIZE as int));
        let i2 = v1.first_fit(chunk_size(NODE_SIZE as int));
        let bx = v.alloc_place(NODE_SIZE as int);
        let tx = v1.alloc_place(NODE_SIZE as int);
        v.lemma_first_fit(chunk_size(NODE_SIZE as int), 0);
        lemma_malloc_keeps_all(v, i1, NODE_SIZE, encoding(lower));
        v.lemma_malloc_keeps(i1, NODE_SIZE, encoding(lower), bx);
        v1.lemma_first_fit(chunk_size(NODE_SIZE as int), 0);
        lemma_malloc_keeps_all(v1, i2, NODE_SIZE, encoding(upper));
        v1.lemma_malloc_keeps(i2, NODE_SIZE, encoding(upper), tx);
        lemma_keeps_all_trans(v, v1, v2);
        assert(v1.same_payload(v2, bx));
    }

    /// Each step of a split leaves the pool well-formed and keeps every
    /// allocation.
    pub proof fn lemma_split_step(self, v: PoolView, tx_id: usize, k: int)
        requires
            v.wf(),
            self.keys.len() <= B,
            self.children.len() <= B,
            0 <= self.midpoint() <= self.children.len(),
            self.valid_in(v),
            split_fits(v, self, tx_id),
            0 <= k <= 4,
        ensures
            split_step(v, self, tx_id, k).wf(),
            keeps_all(v, split_step(v, self, tx_id, k)),
            keeps_all(split_step(v, self, tx_id, 0), split_step(v, self, tx_id, k)),
            self.lower_half(tx_id).valid_in(split_step(v, self, tx_id, k)),
            self.upper_half(tx_id).valid_in(split_step(v, self, tx_id, k)),
            handles_valid(split_step(v, self, tx_id, k), self.keys),
            row_bytes(split_step(v, self, tx_id, k), self.keys) == row_bytes(v, self.keys),
        decreases k,
    {
        let lower = self.lower_half(tx_id);
        let upper = self.upper_half(tx_id);
        let w = split_step(v, self, tx_id, k);
        self.lemma_halves_valid(v, tx_id);
        self.lemma_split_placed(v, tx_id);
        if k > 0 {
            let u = split_step(v, self, tx_id, k - 1);
            self.lemma_split_step(v, tx_id, k - 1);
            let row = if k == 1 {
                lower.keys
            } else if k == 2 {
                lower.children
            } else if k == 3 {
                upper.keys
            } else {
                upper.children
            };
            lemma_retained(u, row);
            lemma_keeps_all_trans(v, u, w);
            lemma_keeps_all_trans(split_step(v, self, tx_id, 0), u, w);
        } else {
            assert forall|x: int| w.is_live(x) implies #[trigger] w.same_payload(w, x) by {}
        }
        lemma_kept_row(v, w, lower.keys);
        lemma_kept_row(v, w, lower.children);
        lemma_kept_row(v, w, upper.keys);
        lemma_kept_row(v, w, upper.children);
        lemma_kept_row(v, w, self.keys);
    }

    /// A split leaves the pool well-formed and keeps every allocation; the
    /// halves stand where the two allocations were made, and their keys are
    /// the keys of the node.
    pub proof fn lemma_split_up(self, v: PoolView, tx_id: usize)
        requires
            v.wf(),
            self.keys.len() <= B,
            self.children.len() <= B,
            self.keys.len() > 0,
            0 <= self.midpoint() <= self.children.len(),
            self.valid_in(v),
            split_fits(v, self, tx_id),
        ensures
            split_up(v, self, tx_id).wf(),
            keeps_all(v, split_up(v, self, tx_id)),
            self.lower_half(tx_id).stored_at(
                split_up(v, self, tx_id),
                v.alloc_place(NODE_SIZE as int),
            ),
            self.upper_half(tx_id).stored_at(
                split_up(v, self, tx_id),
                v.after_alloc(encoding(self.lower_half(tx_id))).alloc_place(NODE_SIZE as int),
            ),
            self.lower_half(tx_id).valid_in(split_up(v, self, tx_id)),
            self.upper_half(tx_id).valid_in(split_up(v, self, tx_id)),
            self.lower_half(tx_id).key_bytes(split_up(v, self, tx_id)) + self.upper_half(
                tx_id,
            ).key_bytes(split_up(v, self, tx_id)) == self.key_bytes(v),
    {
        let lower = self.lower_half(tx_id);
        let upper = self.upper_half(tx_id);
        let s0 = split_step(v, self, tx_id, 0);
        let s4 = split_step(v, self, tx_id, 4);
        let w = split_up(v, self, tx_id);
        let mx = self.keys[self.midpoint()].arc_inner_index as int;
        self.lemma_split_placed(v, tx_id);
        self.lemma_split_step(v, tx_id, 4);
        self.lemma_halves_valid(v, tx_id);
        assert(handle_valid(s4, self.keys[self.midpoint()]));
        lemma_retain_keeps_all(s4, mx);
        lemma_keeps_all_trans(v, s4, w);
        lemma_keeps_all_trans(s0, s4, w);
        lemma_kept_row(v, w, lower.keys);
        lemma_kept_row(v, w, lower.children);
        lemma_kept_row(v, w, upper.keys);
        lemma_kept_row(v, w, upper.children);
        lemma_kept_row(v, w, self.keys);
        assert(s0.same_payload(w, v.alloc_place(NODE_SIZE as int)));
        assert(s0.same_payload(
            w,
            v.after_alloc(encoding(lower)).alloc_place(NODE_SIZE as int),
        ));
        assert(lower.key_bytes(w) + upper.key_bytes(w) =~= self.key_bytes(v));
    }
}

/// Keys that rise strictly still do with a key put in at its place.
pub proof fn lemma_insert_sorted(ks: Seq<Seq<u8>>, key: Seq<u8>, idx: int)
    requires
        strictly_sorted(ks),
        0 <= idx <= ks.len(),
        forall|j: int| 0 <= j < idx ==> lex_lt(#[trigger] ks[j], key),
        forall|j: int| idx <= j < ks.len() ==> !lex_lt(#[trigger] ks[j], key),
        forall|j: int| 0 <= j < ks.len() ==> #[trigger] ks[j] != key,
    ensures
        strictly_sorted(ks.insert(idx, key)),
{
    let t = ks.insert(idx, key);
    assert forall|i: int, j: int| 0 <= i < j < t.len() implies lex_lt(
        #[trigger] t[i],
        #[trigger] t[j],
    ) by {
        if j == idx {
            assert(t[i] == ks[i]);
        } else if i == idx {
            assert(t[j] == ks[j - 1]);
            lemma_lex_total(ks[j - 1], key);
        } else {
            let i0 = if i < idx {
                i
            } else {
                i - 1
            };
            let j0 = if j < idx {
                j
            } else {
                j - 1
            };
            assert(t[i] == ks[i0] && t[j] == ks[j0]);
        }
    }
}

/// Keys that rise strictly still do with one of them taken out.
pub proof fn lemma_remove_sorted(ks: Seq<Seq<u8>>, idx: int)
    requires
        strictly_sorted(ks),
        0 <= idx < ks.len(),
    ensures
        strictly_sorted(ks.remove(idx)),
{
    let t = ks.remove(idx);
    assert forall|i: int, j: int| 0 <= i < j < t.len() implies lex_lt(
        #[trigger] t[i],
        #[trigger] t[j],
    ) by {
        let i0 = if i < idx {
            i
        } else {
            i + 1
        };
        let j0 = if j < idx {
            j
        } else {
            j + 1
        };
        assert(t[i] == ks[i0] && t[j] == ks[j0]);
    }
}

impl Node {
    /// A node of the type of this one, written by `tx_id`, with the keys
    /// and children that `keys` and `children` are copied from.
    fn rebuilt(
        &self,
        tx_id: usize,
        keys: Vec<PersistedArcByteSlice>,
        children: Vec<PersistedArcByteSlice>,
    ) -> (node: Node)
        ensures
            node@ == (NodeView {
                node_type: self.node_type,
                tx_id,
                keys: keys@,
                children: children@,
            }),
    {
        Node { node_type: self.node_type, tx_id, keys, children }
    }

    /// Gives back the allocation that `arc` denotes, which was the last one
    /// made and has no reference but `arc`.
    fn undo_alloc(
        pool: &mut Pool,
        arc: ArcByteSlice,
        Ghost(v): Ghost<PoolView>,
        Ghost(data): Ghost<Seq<u8>>,
    )
        requires
            old(pool).wf(),
            v.wf(),
            v.can_alloc(data.len() as int),
            data.len() <= usize::MAX,
            old(pool)@ == v.after_alloc(data).with_next_tag(old(pool)@.next_id_tag),
            arc.arc_inner_index == v.alloc_place(data.len() as int),
        ensures
            final(pool).wf(),
            final(pool)@ == v.with_next_tag(old(pool)@.next_id_tag),
    {
        proof {
            let size = data.len() as usize;
            let i = v.first_fit(chunk_size(data.len() as int));
            let x = v.alloc_place(data.len() as int);
            v.lemma_first_fit(chunk_size(data.len() as int), 0);
            v.lemma_malloc_keeps(i, size, data, x);
            v.lemma_after_malloc(i, size, data);
            let m = v.after_alloc(data);
            assert(m.has_object(i, x));
            assert(pool@.has_object(i, x));
            pool@.lemma_index_of(i, x);
            v.lemma_malloc_free(i, size, data, pool@.next_id_tag);
        }
        arc.release(pool);
    }

    /// Writes a new leaf that holds what this leaf holds and `value` for
    /// `key` besides. The key and the value are copied into the pool.
    #[verifier::rlimit(60)]
    pub fn leaf_node_insert_non_full(
        &self,
        tx_id: usize,
        key: &[u8],
        value: &[u8],
        pool: &mut Pool,
    ) -> (res: Result<ArcByteSlice, LodestoneError>)
        requires
            old(pool).wf(),
            self.wf(),
            self.node_type == NodeType::Leaf,
            self@.keyed_in(old(pool)@),
        ensures
            final(pool).wf(),
            match res {
                Ok(arc) => {
                    let v = old(pool)@;
                    let idx = choose|idx: int| self@.is_place_of(v, key@, idx);
                    let node = inserted_node(v, self@, tx_id, idx, key@, value@);
                    &&& self@.is_place_of(v, key@, idx)
                    &&& !self@.has_key_at(v, key@, idx)
                    &&& self@.keys.len() < B
                    &&& handles_valid(v, self@.children)
                    &&& insert_fits(v, key@, value@)
                    &&& final(pool)@ == inserted(v, self@, tx_id, idx, key@, value@)
                    &&& final(pool).holds(&arc)
                    &&& arc.arc_inner_index == v.after_alloc(key@).after_alloc(value@).alloc_place(
                        NODE_SIZE as int,
                    )
                    &&& node.stored_at(final(pool)@, arc.arc_inner_index as int)
                    &&& node.wf()
                    &&& node.valid_in(final(pool)@)
                    &&& node.keyed_in(final(pool)@)
                    &&& node.key_bytes(final(pool)@) == self@.key_bytes(v).insert(idx, key@)
                    &&& node.child_bytes(final(pool)@) == self@.child_bytes(v).insert(idx, value@)
                    &&& keeps_all(v, final(pool)@)
                },
                Err(e) => {
                    let v = old(pool)@;
                    let found = exists|i: int| self@.has_key_at(v, key@, i);
                    &&& final(pool)@.same_layout(v)
                    &&& e != LodestoneError::OutOfMemory ==> final(pool)@ == v
                    &&& if found {
                        e == LodestoneError::KeyAlreadyExists
                    } else if self@.children.len() == B {
                        e == LodestoneError::NodeFull
                    } else if !handles_valid(v, self@.children) {
                        e == LodestoneError::InvalidReference
                    } else {
                        e == LodestoneError::OutOfMemory && !insert_fits(v, key@, value@)
                    }
                },
            },
    {
        let ghost v = pool@;
        let (found, idx) = self.index_or_insertion_of(key, pool);
        proof {
            self@.lemma_place_is_unique(v, key@, idx as int);
            self@.lemma_place_is_the_place(v, key@, idx as int);
        }
        if found {
            return Err(LodestoneError::KeyAlreadyExists);
        }
        if self.children.len() == B {
            return Err(LodestoneError::NodeFull);
        }
        if !all_valid(pool, &self.children) {
            return Err(LodestoneError::InvalidReference);
        }
        let key_arc = match pool.malloc(key) {
            Ok(arc) => arc,
            Err(e) => { return Err(e); },
        };
        let ghost v1 = pool@;
        proof {
            v.lemma_first_fit(chunk_size(key@.len() as int), 0);
            lemma_malloc_keeps_all(
                v,
                v.first_fit(chunk_size(key@.len() as int)),
                key@.len() as usize,
                key@,
            );
        }
        let value_arc = match pool.malloc(value) {
            Ok(arc) => arc,
            Err(e) => {
                Node::undo_alloc(pool, key_arc, Ghost(v), Ghost(key@));
                return Err(e);
            },
        };
        let ghost v2 = pool@;
        proof {
            let kx = v.alloc_place(key@.len() as int);
            let i1 = v.first_fit(chunk_size(key@.len() as int));
            let i2 = v1.first_fit(chunk_size(value@.len() as int));
            v1.lemma_first_fit(chunk_size(value@.len() as int), 0);
            v.lemma_malloc_keeps(i1, key@.len() as usize, key@, kx);
            lemma_malloc_keeps_all(v1, i2, value@.len() as usize, value@);
            assert(v1.same_payload(v2, kx));
        }
        let key_handle = PersistedArcByteSlice {
            arc_inner_index: key_arc.arc_inner_index,
            id_tag: pool._get_id_tag(&key_arc),
        };
        let value_handle = PersistedArcByteSlice {
            arc_inner_index: value_arc.arc_inner_index,
            id_tag: pool._get_id_tag(&value_arc),
        };
        let mut keys: Vec<PersistedArcByteSlice> = Vec::new();
        Node::append_range(&mut keys, &self.keys, 0, idx);
        keys.push(key_handle);
        Node::append_range(&mut keys, &self.keys, idx, self.keys.len());
        let mut children: Vec<PersistedArcByteSlice> = Vec::new();
        Node::append_range(&mut children, &self.children, 0, idx);
        children.push(value_handle);
        Node::append_range(&mut children, &self.children, idx, self.children.len());
        let node = self.rebuilt(tx_id, keys, children);
        let ghost m = inserted_node(v, self@, tx_id, idx as int, key@, value@);
        proof {
            let kx = v.alloc_place(key@.len() as int);
            let vx = v1.alloc_place(value@.len() as int);
            v1.lemma_first_fit(chunk_size(value@.len() as int), 0);
            let i1 = v.first_fit(chunk_size(key@.len() as int));
            let i2 = v1.first_fit(chunk_size(value@.len() as int));
            v.lemma_malloc_keeps(i1, key@.len() as usize, key@, kx);
            v1.lemma_malloc_keeps(i2, value@.len() as usize, value@, vx);
            v1.lemma_malloc_keeps(i2, value@.len() as usize, value@, kx);
            lemma_malloc_keeps_all(v1, i2, value@.len() as usize, value@);
            lemma_keeps_all_trans(v, v1, v2);
            assert(node@.keys =~= m.keys);
            assert(node@.children =~= m.children);
            assert(node@ == m);
            lemma_kept_row(v, v2, self@.keys);
            lemma_kept_row(v, v2, self@.children);
            assert(handle_valid(v2, m.keys[idx as int]));
            assert(handle_valid(v2, m.children[idx as int]));
            assert forall|i: int| 0 <= i < m.keys.len() implies handle_valid(
                v2,
                #[trigger] m.keys[i],
            ) by {
                if i < idx {
                    assert(m.keys[i] == self@.keys[i]);
                } else if i > idx {
                    assert(m.keys[i] == self@.keys[i - 1]);
                }
            }
            assert forall|i: int| 0 <= i < m.children.len() implies handle_valid(
                v2,
                #[trigger] m.children[i],
            ) by {
                if i < idx {
                    assert(m.children[i] == self@.children[i]);
                } else if i > idx {
                    assert(m.children[i] == self@.children[i - 1]);
                }
            }
        }
        let node_arc = match node.clone(pool) {
            Ok(arc) => arc,
            Err(e) => {
                Node::undo_alloc(pool, value_arc, Ghost(v1), Ghost(value@));
                proof {
                    v1.lemma_with_next_tag(pool@.next_id_tag);
                }
                Node::undo_alloc(pool, key_arc, Ghost(v), Ghost(key@));
                return Err(e);
            },
        };
        let ghost v3 = pool@;
        proof {
            let kx = key_arc.arc_inner_index as int;
            let vx = value_arc.arc_inner_index as int;
            m.lemma_committed(v2);
            m.lemma_entry_counts(v2, idx as int);
            lemma_release_keeps_all(v3, kx);
            let v4 = v3.after_release(kx);
            assert(v3.same_payload(v4, vx));
            v3.lemma_release_keeps(kx, vx);
            lemma_release_keeps_all(v4, vx);
            let v5 = v4.after_release(vx);
            lemma_keeps_all_trans(v3, v4, v5);
            lemma_keeps_all_trans(v2, v3, v5);
            lemma_keeps_all_trans(v, v2, v5);
            lemma_kept_row(v3, v5, m.keys);
            lemma_kept_row(v3, v5, m.children);
            lemma_kept_row(v2, v5, m.keys);
            lemma_kept_row(v2, v5, m.children);
            lemma_kept_row(v, v2, self@.keys);
            lemma_kept_row(v, v2, self@.children);
            assert(v3.same_payload(v5, node_arc.arc_inner_index as int));
            assert(v2.same_payload(v5, kx));
            assert(v2.same_payload(v5, vx));
            assert(m.key_bytes(v5) =~= self@.key_bytes(v).insert(idx as int, key@)) by {
                assert forall|i: int| 0 <= i < m.keys.len() implies m.key_bytes(v5)[i]
                    == self@.key_bytes(v).insert(idx as int, key@)[i] by {
                    assert(m.key_bytes(v5)[i] == m.key_bytes(v2)[i]);
                    if i < idx {
                        assert(m.keys[i] == self@.keys[i]);
                        assert(self@.key_bytes(v2)[i] == self@.key_bytes(v)[i]);
                    } else if i > idx {
                        assert(m.keys[i] == self@.keys[i - 1]);
                        assert(self@.key_bytes(v2)[i - 1] == self@.key_bytes(v)[i - 1]);
                    }
                }
            }
            assert(m.child_bytes(v5) =~= self@.child_bytes(v).insert(idx as int, value@)) by {
                assert forall|i: int| 0 <= i < m.children.len() implies m.child_bytes(v5)[i]
                    == self@.child_bytes(v).insert(idx as int, value@)[i] by {
                    assert(m.child_bytes(v5)[i] == m.child_bytes(v2)[i]);
                    if i < idx {
                        assert(m.children[i] == self@.children[i]);
                        assert(self@.child_bytes(v2)[i] == self@.child_bytes(v)[i]);
                    } else if i > idx {
                        assert(m.children[i] == self@.children[i - 1]);
                        assert(self@.child_bytes(v2)[i - 1] == self@.child_bytes(v)[i - 1]);
                    }
                }
            }
            assert forall|j: int| 0 <= j < self@.keys.len() implies #[trigger] self@.key_bytes(
                v,
            )[j] != key@ by {
                if self@.key_bytes(v)[j] == key@ {
                    assert(self@.has_key_at(v, key@, j));
                }
            }
            lemma_insert_sorted(self@.key_bytes(v), key@, idx as int);
        }
        key_arc.release(pool);
        value_arc.release(pool);
        Ok(node_arc)
    }
}

impl NodeView {
    /// The place that a search names is the place of the key.
    pub proof fn lemma_place_is_the_place(self, v: PoolView, key: Seq<u8>, idx: int)
        requires
            self.keyed_in(v),
            self.is_place_of(v, key, idx),
        ensures
            (choose|i: int| self.is_place_of(v, key, i)) == idx,
            (exists|i: int| self.has_key_at(v, key, i)) == self.has_key_at(v, key, idx),
    {
        let c = choose|i: int| self.is_place_of(v, key, i);
        assert(self.is_place_of(v, key, c));
        let ks = self.key_bytes(v);
        if c < idx {
            assert(lex_lt(ks[c], key));
            assert(!lex_lt(ks[c], key));
        } else if idx < c {
            assert(lex_lt(ks[idx], key));
            assert(!lex_lt(ks[idx], key));
        }
        self.lemma_place_is_unique(v, key, idx);
    }

    /// After a node whose key and child at `idx` are held by a single
    /// reference each has been written, the two are held by two at least
    /// and by far fewer than can be counted.
    pub proof fn lemma_entry_counts(self, v: PoolView, idx: int)
        requires
            v.wf(),
            self.keys.len() <= B,
            self.children.len() <= B,
            self.valid_in(v),
            v.can_alloc(NODE_SIZE as int),
            0 <= idx < self.keys.len(),
            idx < self.children.len(),
            v.object(self.keys[idx].arc_inner_index as int).strong == 1,
            v.object(self.children[idx].arc_inner_index as int).strong == 1,
        ensures
            !committed(v, self).frees(self.keys[idx].arc_inner_index as int),
            committed(v, self).object(self.keys[idx].arc_inner_index as int).strong < usize::MAX,
            committed(v, self).object(self.children[idx].arc_inner_index as int).strong >= 2,
            committed(v, self).object(self.children[idx].arc_inner_index as int).strong
                < usize::MAX,
    {
        let kx = self.keys[idx].arc_inner_index as int;
        let cx = self.children[idx].arc_inner_index as int;
        let bytes = encoding(self);
        let i = v.first_fit(chunk_size(NODE_SIZE as int));
        self.law_encoding_round_trip();
        v.lemma_first_fit(chunk_size(NODE_SIZE as int), 0);
        let v1 = v.after_alloc(bytes);
        assert(handle_valid(v, self.keys[idx]));
        assert(handle_valid(v, self.children[idx]));
        lemma_malloc_keeps_all(v, i, NODE_SIZE, bytes);
        v.lemma_malloc_keeps(i, NODE_SIZE, bytes, kx);
        v.lemma_malloc_keeps(i, NODE_SIZE, bytes, cx);
        lemma_kept_row(v, v1, self.keys);
        lemma_kept_row(v, v1, self.children);
        let v2 = retained(v1, self.keys);
        lemma_retained(v1, self.keys);
        assert(v.same_payload(v1, kx));
        assert(v.same_payload(v1, cx));
        lemma_retained_strong(v1, self.keys, kx);
        lemma_retained_strong(v1, self.keys, cx);
        lemma_kept_row(v1, v2, self.children);
        assert(v1.same_payload(v2, kx));
        assert(v1.same_payload(v2, cx));
        lemma_retained_strong(v2, self.children, kx);
        lemma_retained_strong(v2, self.children, cx);
    }
}

impl Node {
    /// Writes a new leaf that holds what this leaf holds but for `key` and
    /// its value.
    #[verifier::rlimit(60)]
    pub fn leaf_node_remove(&self, tx_id: usize, key: &[u8], pool: &mut Pool) -> (res: Result<
        ArcByteSlice,
        LodestoneError,
    >)
        requires
            old(pool).wf(),
            self.wf(),
            self.node_type == NodeType::Leaf,
            self@.keyed_in(old(pool)@),
        ensures
            final(pool).wf(),
            match res {
                Ok(arc) => {
                    let v = old(pool)@;
                    let idx = choose|idx: int| self@.is_place_of(v, key@, idx);
                    let node = self@.without_entry(tx_id, idx);
                    &&& self@.has_key_at(v, key@, idx)
                    &&& node.valid_in(v)
                    &&& v.can_alloc(NODE_SIZE as int)
                    &&& final(pool)@ == committed(v, node)
                    &&& final(pool).holds(&arc)
                    &&& arc.arc_inner_index == v.alloc_place(NODE_SIZE as int)
                    &&& node.stored_at(final(pool)@, arc.arc_inner_index as int)
                    &&& node.wf()
                    &&& node.valid_in(final(pool)@)
                    &&& node.keyed_in(final(pool)@)
                    &&& node.key_bytes(final(pool)@) == self@.key_bytes(v).remove(idx)
                    &&& node.child_bytes(final(pool)@) == self@.child_bytes(v).remove(idx)
                    &&& keeps_all(v, final(pool)@)
                },
                Err(e) => {
                    let v = old(pool)@;
                    let idx = choose|idx: int| self@.is_place_of(v, key@, idx);
                    &&& final(pool)@ == v
                    &&& if !self@.has_key_at(v, key@, idx) {
                        e == LodestoneError::KeyNotFound
                    } else if !self@.without_entry(tx_id, idx).valid_in(v) {
                        e == LodestoneError::InvalidReference
                    } else {
                        e == LodestoneError::OutOfMemory && !v.can_alloc(NODE_SIZE as int)
                    }
                },
            },
    {
        let ghost v = pool@;
        let (found, idx) = self.index_or_insertion_of(key, pool);
        proof {
            self@.lemma_place_is_the_place(v, key@, idx as int);
        }
        if !found {
            return Err(LodestoneError::KeyNotFound);
        }
        let mut keys: Vec<PersistedArcByteSlice> = Vec::new();
        Node::append_range(&mut keys, &self.keys, 0, idx);
        Node::append_range(&mut keys, &self.keys, idx + 1, self.keys.len());
        let mut children: Vec<PersistedArcByteSlice> = Vec::new();
        Node::append_range(&mut children, &self.children, 0, idx);
        Node::append_range(&mut children, &self.children, idx + 1, self.children.len());
        let node = self.rebuilt(tx_id, keys, children);
        let ghost m = self@.without_entry(tx_id, idx as int);
        proof {
            assert(node@.keys =~= m.keys);
            assert(node@.children =~= m.children);
        }
        let res = node.clone(pool);
        proof {
            if res is Ok {
                let w = pool@;
                m.lemma_committed(v);
                assert forall|i: int| 0 <= i < m.keys.len() implies m.key_bytes(w)[i]
                    == self@.key_bytes(v).remove(idx as int)[i] by {
                    assert(handle_valid(v, m.keys[i]));
                    assert(v.same_payload(w, m.keys[i].arc_inner_index as int));
                }
                assert(m.key_bytes(w) =~= self@.key_bytes(v).remove(idx as int));
                assert forall|i: int| 0 <= i < m.children.len() implies m.child_bytes(w)[i]
                    == self@.child_bytes(v).remove(idx as int)[i] by {
                    assert(handle_valid(v, m.children[i]));
                    assert(v.same_payload(w, m.children[i].arc_inner_index as int));
                }
                assert(m.child_bytes(w) =~= self@.child_bytes(v).remove(idx as int));
                lemma_remove_sorted(self@.key_bytes(v), idx as int);
            }
        }
        res
    }

    /// Writes the two halves of this node as two new nodes, and takes a
    /// reference to the key at which it is cut: the first key of the upper
    /// half.
    #[verifier::rlimit(60)]
    pub fn split(&self, tx_id: usize, pool: &mut Pool) -> (res: Result<Split, LodestoneError>)
        requires
            old(pool).wf(),
            self.wf(),
            self@.keys.len() > 0,
            self@.children.len() > 0,
            self@.midpoint() <= self@.children.len(),
        ensures
            final(pool).wf(),
            match res {
                Ok(split) => {
                    let v = old(pool)@;
                    let lower = self@.lower_half(tx_id);
                    let upper = self@.upper_half(tx_id);
                    &&& self@.valid_in(v)
                    &&& split_fits(v, self@, tx_id)
                    &&& final(pool)@ == split_up(v, self@, tx_id)
                    &&& split.bottom_half.arc_inner_index == v.alloc_place(NODE_SIZE as int)
                    &&& split.top_half.arc_inner_index == v.after_alloc(
                        encoding(lower),
                    ).alloc_place(NODE_SIZE as int)
                    &&& split.mid_key.arc_inner_index == self@.keys[self@.midpoint()].arc_inner_index
                    &&& final(pool).holds(&split.bottom_half)
                    &&& final(pool).holds(&split.top_half)
                    &&& final(pool).holds(&split.mid_key)
                    &&& lower.stored_at(final(pool)@, split.bottom_half.arc_inner_index as int)
                    &&& upper.stored_at(final(pool)@, split.top_half.arc_inner_index as int)
                    &&& lower.valid_in(final(pool)@)
                    &&& upper.valid_in(final(pool)@)
                    &&& lower.key_bytes(final(pool)@) + upper.key_bytes(final(pool)@)
                        == self@.key_bytes(v)
                    &&& keeps_all(v, final(pool)@)
                },
                Err(e) => {
                    let v = old(pool)@;
                    &&& final(pool)@.same_layout(v)
                    &&& e != LodestoneError::OutOfMemory ==> final(pool)@ == v
                    &&& if !self@.valid_in(v) {
                        e == LodestoneError::InvalidReference
                    } else {
                        e == LodestoneError::OutOfMemory && !split_fits(v, self@, tx_id)
                    }
                },
            },
    {
        let ghost v = pool@;
        if !all_valid(pool, &self.keys) || !all_valid(pool, &self.children) {
            return Err(LodestoneError::InvalidReference);
        }
        let midpoint = self.keys.len() / 2;
        let mut keys: Vec<PersistedArcByteSlice> = Vec::new();
        Node::append_range(&mut keys, &self.keys, 0, midpoint);
        let mut children: Vec<PersistedArcByteSlice> = Vec::new();
        Node::append_range(&mut children, &self.children, 0, midpoint);
        let bottom = self.rebuilt(tx_id, keys, children);
        let mut keys: Vec<PersistedArcByteSlice> = Vec::new();
        Node::append_range(&mut keys, &self.keys, midpoint, self.keys.len());
        let mut children: Vec<PersistedArcByteSlice> = Vec::new();
        Node::append_range(&mut children, &self.children, midpoint, self.children.len());
        let top = self.rebuilt(tx_id, keys, children);
        let ghost lower = self@.lower_half(tx_id);
        let ghost upper = self@.upper_half(tx_id);
        proof {
            assert(bottom@.keys =~= lower.keys);
            assert(bottom@.children =~= lower.children);
            assert(top@.keys =~= upper.keys);
            assert(top@.children =~= upper.children);
        }
        let bottom_bytes = bottom.encode();
        let top_bytes = top.encode();
        let bottom_arc = match pool.malloc(bottom_bytes.as_slice()) {
            Ok(arc) => arc,
            Err(e) => { return Err(e); },
        };
        let top_arc = match pool.malloc(top_bytes.as_slice()) {
            Ok(arc) => arc,
            Err(e) => {
                Node::undo_alloc(pool, bottom_arc, Ghost(v), Ghost(encoding(lower)));
                return Err(e);
            },
        };
        proof {
            assert(pool@ == split_step(v, self@, tx_id, 0));
            self@.lemma_split_step(v, tx_id, 0);
        }
        retain_all(pool, &bottom.keys);
        proof {
            assert(pool@ == split_step(v, self@, tx_id, 1));
            self@.lemma_split_step(v, tx_id, 1);
        }
        retain_all(pool, &bottom.children);
        proof {
            assert(pool@ == split_step(v, self@, tx_id, 2));
            self@.lemma_split_step(v, tx_id, 2);
        }
        retain_all(pool, &top.keys);
        proof {
            assert(pool@ == split_step(v, self@, tx_id, 3));
            self@.lemma_split_step(v, tx_id, 3);
        }
        retain_all(pool, &top.children);
        proof {
            assert(pool@ == split_step(v, self@, tx_id, 4));
            self@.lemma_split_step(v, tx_id, 4);
            assert(handle_valid(pool@, self@.keys[midpoint as int]));
        }
        let mid_key = match self.keys[midpoint].clone_to_arc_byte_slice(pool) {
            Ok(arc) => arc,
            Err(e) => {
                // every key is valid, so this does not happen
                return Err(e);
            },
        };
        proof {
            self@.lemma_split_up(v, tx_id);
        }
        Ok(Split { bottom_half: bottom_arc, top_half: top_arc, mid_key })
    }

    /// Writes a new node that holds the keys and children of `bottom`
    /// followed by those of `top`.
    #[verifier::rlimit(60)]
    pub fn join(bottom: &Node, top: &Node, tx_id: usize, pool: &mut Pool) -> (res: Result<
        ArcByteSlice,
        LodestoneError,
    >)
        requires
            old(pool).wf(),
            bottom.wf(),
            top.wf(),
            bottom@.keys.len() + top@.keys.len() < B,
            bottom@.children.len() + top@.children.len() < B,
            bottom.node_type == top.node_type,
        ensures
            final(pool).wf(),
            match res {
                Ok(arc) => {
                    let v = old(pool)@;
                    let node = bottom@.joined(top@, tx_id);
                    &&& bottom@.valid_in(v)
                    &&& top@.valid_in(v)
                    &&& v.can_alloc(NODE_SIZE as int)
                    &&& arc.arc_inner_index == v.alloc_place(NODE_SIZE as int)
                    &&& final(pool).holds(&arc)
                    &&& final(pool)@ == committed(v, node)
                    &&& node.stored_at(final(pool)@, arc.arc_inner_index as int)
                    &&& node.wf()
                    &&& node.valid_in(final(pool)@)
                    &&& node.key_bytes(final(pool)@) == bottom@.key_bytes(v) + top@.key_bytes(v)
                    &&& node.child_bytes(final(pool)@) == bottom@.child_bytes(v) + top@.child_bytes(
                        v,
                    )
                    &&& keeps_all(v, final(pool)@)
                },
                Err(e) => {
                    let v = old(pool)@;
                    &&& final(pool)@ == v
                    &&& if bottom@.valid_in(v) && top@.valid_in(v) {
                        e == LodestoneError::OutOfMemory && !v.can_alloc(NODE_SIZE as int)
                    } else {
                        e == LodestoneError::InvalidReference
                    }
                },
            },
    {
        let ghost v = pool@;
        let mut keys: Vec<PersistedArcByteSlice> = Vec::new();
        Node::append_range(&mut keys, &bottom.keys, 0, bottom.keys.len());
        Node::append_range(&mut keys, &top.keys, 0, top.keys.len());
        let mut children: Vec<PersistedArcByteSlice> = Vec::new();
        Node::append_range(&mut children, &bottom.children, 0, bottom.children.len());
        Node::append_range(&mut children, &top.children, 0, top.children.len());
        let node = bottom.rebuilt(tx_id, keys, children);
        let ghost m = bottom@.joined(top@, tx_id);
        proof {
            assert(node@.keys =~= m.keys);
            assert(node@.children =~= m.children);
            if bottom@.valid_in(v) && top@.valid_in(v) {
                assert forall|i: int| 0 <= i < m.keys.len() implies handle_valid(
                    v,
                    #[trigger] m.keys[i],
                ) by {
                    if i < bottom@.keys.len() {
                        assert(m.keys[i] == bottom@.keys[i]);
                    } else {
                        assert(m.keys[i] == top@.keys[i - bottom@.keys.len()]);
                    }
                }
                assert forall|i: int| 0 <= i < m.children.len() implies handle_valid(
                    v,
                    #[trigger] m.children[i],
                ) by {
                    if i < bottom@.children.len() {
                        assert(m.children[i] == bottom@.children[i]);
                    } else {
                        assert(m.children[i] == top@.children[i - bottom@.children.len()]);
                    }
                }
            }
            if m.valid_in(v) {
                assert forall|i: int| 0 <= i < bottom@.keys.len() implies handle_valid(
                    v,
                    #[trigger] bottom@.keys[i],
                ) by {
                    assert(m.keys[i] == bottom@.keys[i]);
                }
                assert forall|i: int| 0 <= i < top@.keys.len() implies handle_valid(
                    v,
                    #[trigger] top@.keys[i],
                ) by {
                    assert(m.keys[i + bottom@.keys.len()] == top@.keys[i]);
                }
                assert forall|i: int| 0 <= i < bottom@.children.len() implies handle_valid(
                    v,
                    #[trigger] bottom@.children[i],
                ) by {
                    assert(m.children[i] == bottom@.children[i]);
                }
                assert forall|i: int| 0 <= i < top@.children.len() implies handle_valid(
                    v,
                    #[trigger] top@.children[i],
                ) by {
                    assert(m.children[i + bottom@.children.len()] == top@.children[i]);
                }
            }
        }
        let res = node.clone(pool);
        proof {
            if res is Ok {
                let w = pool@;
                m.lemma_committed(v);
                lemma_kept_row(v, w, bottom@.keys);
                lemma_kept_row(v, w, top@.keys);
                lemma_kept_row(v, w, bottom@.children);
                lemma_kept_row(v, w, top@.children);
                assert(m.key_bytes(w) =~= bottom@.key_bytes(w) + top@.key_bytes(w));
                assert(m.child_bytes(w) =~= bottom@.child_bytes(w) + top@.child_bytes(w));
            }
        }
        res
    }
}

/// The node that putting another value under the key at `idx` writes.
pub open spec fn updated_node(v: PoolView, n: NodeView, tx_id: usize, idx: int, value: Seq<u8>)
    -> NodeView {
    NodeView {
        node_type: n.node_type,
        tx_id,
        keys: n.keys,
        children: n.children.update(idx, next_handle(v, value.len() as int)),
    }
}

/// The pool `v` has room for a value and a node, one after the other.
pub open spec fn update_fits(v: PoolView, value: Seq<u8>) -> bool {
    v.can_alloc(value.len() as int) && v.after_alloc(value).can_alloc(NODE_SIZE as int)
}

/// The pool `v` after `value` has been allocated and the node `n` with the
/// value under the key at `idx` has been written: the new node holds the
/// only reference to the value.
pub open spec fn updated(v: PoolView, n: NodeView, tx_id: usize, idx: int, value: Seq<u8>)
    -> PoolView {
    committed(v.after_alloc(value), updated_node(v, n, tx_id, idx, value)).after_release(
        v.alloc_place(value.len() as int),
    )
}

impl NodeView {
    /// A node whose child at `idx` is held by a single reference holds it
    /// by two at least once the node has been written.
    pub proof fn lemma_child_counts(self, v: PoolView, idx: int)
        requires
            v.wf(),
            self.keys.len() <= B,
            self.children.len() <= B,
            self.valid_in(v),
            v.can_alloc(NODE_SIZE as int),
            0 <= idx < self.children.len(),
            v.object(self.children[idx].arc_inner_index as int).strong == 1,
        ensures
            !committed(v, self).frees(self.children[idx].arc_inner_index as int),
            committed(v, self).object(self.children[idx].arc_inner_index as int).strong
                < usize::MAX,
    {
        let cx = self.children[idx].arc_inner_index as int;
        let bytes = encoding(self);
        let i = v.first_fit(chunk_size(NODE_SIZE as int));
        self.law_encoding_round_trip();
        v.lemma_first_fit(chunk_size(NODE_SIZE as int), 0);
        let v1 = v.after_alloc(bytes);
        assert(handle_valid(v, self.children[idx]));
        lemma_malloc_keeps_all(v, i, NODE_SIZE, bytes);
        v.lemma_malloc_keeps(i, NODE_SIZE, bytes, cx);
        lemma_kept_row(v, v1, self.keys);
        lemma_kept_row(v, v1, self.children);
        let v2 = retained(v1, self.keys);
        lemma_retained(v1, self.keys);
        assert(v.same_payload(v1, cx));
        lemma_retained_strong(v1, self.keys, cx);
        lemma_kept_row(v1, v2, self.children);
        assert(v1.same_payload(v2, cx));
        lemma_retained_strong(v2, self.children, cx);
    }
}

impl Node {
    /// Writes a new leaf that holds what this leaf holds, but `value` for
    /// `key`, which this leaf holds already. The value is copied into the
    /// pool.
    #[verifier::rlimit(60)]
    pub fn leaf_node_update(&self, tx_id: usize, key: &[u8], value: &[u8], pool: &mut Pool) -> (res:
        Result<ArcByteSlice, LodestoneError>)
        requires
            old(pool).wf(),
            self.wf(),
            self.node_type == NodeType::Leaf,
            self@.keyed_in(old(pool)@),
        ensures
            final(pool).wf(),
            match res {
                Ok(arc) => {
                    let v = old(pool)@;
                    let idx = choose|idx: int| self@.is_place_of(v, key@, idx);
                    let node = updated_node(v, self@, tx_id, idx, value@);
                    &&& self@.has_key_at(v, key@, idx)
                    &&& handles_valid(v, self@.children.remove(idx))
                    &&& update_fits(v, value@)
                    &&& final(pool)@ == updated(v, self@, tx_id, idx, value@)
                    &&& final(pool).holds(&arc)
                    &&& arc.arc_inner_index == v.after_alloc(value@).alloc_place(NODE_SIZE as int)
                    &&& node.stored_at(final(pool)@, arc.arc_inner_index as int)
                    &&& node.wf()
                    &&& node.valid_in(final(pool)@)
                    &&& node.keyed_in(final(pool)@)
                    &&& node.key_bytes(final(pool)@) == self@.key_bytes(v)
                    &&& node.child_bytes(final(pool)@) == self@.child_bytes(v).update(idx, value@)
                    &&& forall|x: int|
                        v.is_live(x) ==> #[trigger] v.same_payload(final(pool)@, x)
                },
                Err(e) => {
                    let v = old(pool)@;
                    let idx = choose|idx: int| self@.is_place_of(v, key@, idx);
                    &&& final(pool)@.same_layout(v)
                    &&& e != LodestoneError::OutOfMemory ==> final(pool)@ == v
                    &&& if !self@.has_key_at(v, key@, idx) {
                        e == LodestoneError::KeyNotFound
                    } else if !handles_valid(v, self@.children.remove(idx)) {
                        e == LodestoneError::InvalidReference
                    } else {
                        e == LodestoneError::OutOfMemory && !update_fits(v, value@)
                    }
                },
            },
    {
        let ghost v = pool@;
        let (found, idx) = self.index_or_insertion_of(key, pool);
        proof {
            self@.lemma_place_is_the_place(v, key@, idx as int);
        }
        if !found {
            return Err(LodestoneError::KeyNotFound);
        }
        let mut others: Vec<PersistedArcByteSlice> = Vec::new();
        Node::append_range(&mut others, &self.children, 0, idx);
        Node::append_range(&mut others, &self.children, idx + 1, self.children.len());
        proof {
            assert(others@ =~= self@.children.remove(idx as int));
        }
        if !all_valid(pool, &others) {
            return Err(LodestoneError::InvalidReference);
        }
        let value_arc = match pool.malloc(value) {
            Ok(arc) => arc,
            Err(e) => { return Err(e); },
        };
        let ghost v1 = pool@;
        let value_handle = PersistedArcByteSlice {
            arc_inner_index: value_arc.arc_inner_index,
            id_tag: pool._get_id_tag(&value_arc),
        };
        let mut keys: Vec<PersistedArcByteSlice> = Vec::new();
        Node::append_range(&mut keys, &self.keys, 0, self.keys.len());
        let mut children: Vec<PersistedArcByteSlice> = Vec::new();
        Node::append_range(&mut children, &self.children, 0, idx);
        children.push(value_handle);
        Node::append_range(&mut children, &self.children, idx + 1, self.children.len());
        let node = self.rebuilt(tx_id, keys, children);
        let ghost m = updated_node(v, self@, tx_id, idx as int, value@);
        proof {
            let vx = v.alloc_place(value@.len() as int);
            let i1 = v.first_fit(chunk_size(value@.len() as int));
            v.lemma_first_fit(chunk_size(value@.len() as int), 0);
            v.lemma_malloc_keeps(i1, value@.len() as usize, value@, vx);
            lemma_malloc_keeps_all(v, i1, value@.len() as usize, value@);
            assert(node@.keys =~= m.keys);
            assert(node@.children =~= m.children);
            assert(node@ == m);
            lemma_kept_row(v, v1, self@.keys);
            lemma_kept_row(v, v1, self@.children.remove(idx as int));
            assert forall|i: int| 0 <= i < m.children.len() implies handle_valid(
                v1,
                #[trigger] m.children[i],
            ) by {
                if i < idx {
                    assert(m.children[i] == self@.children.remove(idx as int)[i]);
                } else if i > idx {
                    assert(m.children[i] == self@.children.remove(idx as int)[i - 1]);
                }
            }
        }
        let node_arc = match node.clone(pool) {
            Ok(arc) => arc,
            Err(e) => {
                Node::undo_alloc(pool, value_arc, Ghost(v), Ghost(value@));
                return Err(e);
            },
        };
        let ghost v2 = pool@;
        proof {
            let vx = value_arc.arc_inner_index as int;
            m.lemma_committed(v1);
            m.lemma_child_counts(v1, idx as int);
            lemma_release_keeps_all(v2, vx);
            let v3 = v2.after_release(vx);
            lemma_keeps_all_trans(v1, v2, v3);
            lemma_keeps_all_trans(v, v1, v3);
            lemma_kept_row(v2, v3, m.keys);
            lemma_kept_row(v2, v3, m.children);
            lemma_kept_row(v1, v3, m.keys);
            lemma_kept_row(v1, v3, m.children);
            lemma_kept_row(v, v3, self@.keys);
            assert(v2.same_payload(v3, node_arc.arc_inner_index as int));
            assert(v1.same_payload(v3, vx));
            assert(m.child_bytes(v3) =~= self@.child_bytes(v).update(idx as int, value@)) by {
                assert forall|i: int| 0 <= i < m.children.len() implies m.child_bytes(v3)[i]
                    == self@.child_bytes(v).update(idx as int, value@)[i] by {
                    assert(m.child_bytes(v3)[i] == m.child_bytes(v1)[i]);
                    if i < idx {
                        assert(m.children[i] == self@.children.remove(idx as int)[i]);
                        assert(handle_valid(v, self@.children.remove(idx as int)[i]));
                        assert(v.same_payload(v1, m.children[i].arc_inner_index as int));
                    } else if i > idx {
                        assert(m.children[i] == self@.children.remove(idx as int)[i - 1]);
                        assert(handle_valid(v, self@.children.remove(idx as int)[i - 1]));
                        assert(v.same_payload(v1, m.children[i].arc_inner_index as int));
                    }
                }
            }
        }
        value_arc.release(pool);
        Ok(node_arc)
    }
}

} // verus!
