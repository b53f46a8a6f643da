//! A node as text, for debugging: its type, its transaction, and its keys
//! and children as strings.

use crate::allocator::arc::PersistedArcByteSlice;
use crate::allocator::pool::Pool;
use crate::allocator::text::{append_decimal, decimal};
use crate::allocator::view::PoolView;
use crate::slicebtree::handles::{handle_bytes, handle_valid, handles_valid};
use crate::slicebtree::node::{Node, NodeType, NodeView};
use vstd::prelude::*;
use vstd::string::StringExecFns;

verus! {

/// The text that the standard library reads out of `bytes`, which it takes
/// for UTF-8: what is not is replaced.
pub uninterp spec fn lossy_text(bytes: Seq<u8>) -> Seq<char>;

/// `String::from_utf8_lossy` of the standard library: the text of `bytes`,
/// with the replacement character for every part that is not UTF-8. The
/// contract only names the result, which depends on `bytes` alone.
#[verifier::external_body]
fn bytes_to_text(bytes: &[u8]) -> (text: String)
    ensures
        text@ == lossy_text(bytes@),
{
    String::from_utf8_lossy(bytes).into_owned()
}

/// The name of a node type.
pub open spec fn kind_name(t: NodeType) -> Seq<char> {
    match t {
        NodeType::Root => "Root"@,
        NodeType::Internal => "Internal"@,
        NodeType::Leaf => "Leaf"@,
    }
}

/// The first `n` of the texts `parts`, with a comma and a space between two
/// of them.
pub open spec fn joined(parts: Seq<Seq<char>>, n: int) -> Seq<char>
    decreases n,
{
    if n <= 0 {
        Seq::empty()
    } else if n == 1 {
        parts[0]
    } else {
        joined(parts, n - 1) + ", "@ + parts[n - 1]
    }
}

/// A node of type `t`, written by `tx_id`, whose keys and children read as
/// `keys` and `children`, as text.
pub open spec fn node_text_of(
    t: NodeType,
    tx_id: usize,
    keys: Seq<Seq<char>>,
    children: Seq<Seq<char>>,
) -> Seq<char> {
    kind_name(t) + " { tx_id: "@ + decimal(tx_id as nat) + ", keys: \""@ + joined(
        keys,
        keys.len() as int,
    ) + "\", children: \""@ + joined(children, children.len() as int) + "\" }"@
}

/// The first `n` entries of a leaf whose keys and children read as `keys`
/// and `children`: each key, a colon, its child, a comma and a space.
pub open spec fn entries_text_of(keys: Seq<Seq<char>>, children: Seq<Seq<char>>, n: int) -> Seq<
    char,
>
    decreases n,
{
    if n <= 0 {
        Seq::empty()
    } else {
        entries_text_of(keys, children, n - 1) + keys[n - 1] + ":"@ + children[n - 1] + ", "@
    }
}

/// What the handles of the row `hs` denote in `v`, as texts.
pub open spec fn row_texts(v: PoolView, hs: Seq<PersistedArcByteSlice>) -> Seq<Seq<char>> {
    Seq::new(hs.len(), |i: int| lossy_text(handle_bytes(v, hs[i])))
}

/// The node `n` as text.
pub open spec fn node_text(v: PoolView, n: NodeView) -> Seq<char> {
    node_text_of(n.node_type, n.tx_id, row_texts(v, n.keys), row_texts(v, n.children))
}

/// The views of the strings `parts`.
pub open spec fn views(parts: Seq<String>) -> Seq<Seq<char>> {
    Seq::new(parts.len(), |i: int| parts[i]@)
}

/// Appends the texts `parts` to `out`, with a comma and a space between
/// two of them.
pub fn append_joined(out: &mut String, parts: &Vec<String>)
    ensures
        final(out)@ == old(out)@ + joined(views(parts@), parts@.len() as int),
{
    let mut k: usize = 0;
    while k < parts.len()
        invariant
            k <= parts@.len(),
            out@ == old(out)@ + joined(views(parts@), k as int),
        decreases parts@.len() - k,
    {
        if k > 0 {
            out.append(", ");
        }
        out.append(parts[k].as_str());
        assert(out@ =~= old(out)@ + joined(views(parts@), k + 1));
        k += 1;
    }
    assert(out@ =~= old(out)@ + joined(views(parts@), parts@.len() as int));
}

/// A node of type `node_type`, written by `tx_id`, whose keys and children
/// read as `keys` and `children`, as text: the type, the transaction, and
/// each row between quotes.
pub fn node_debug_text(
    node_type: NodeType,
    tx_id: usize,
    keys: &Vec<String>,
    children: &Vec<String>,
) -> (text: String)
    ensures
        text@ == node_text_of(node_type, tx_id, views(keys@), views(children@)),
{
    let mut out = String::from_str(
        match node_type {
            NodeType::Root => "Root",
            NodeType::Internal => "Internal",
            NodeType::Leaf => "Leaf",
        },
    );
    out.append(" { tx_id: ");
    append_decimal(&mut out, tx_id);
    out.append(", keys: \"");
    append_joined(&mut out, keys);
    out.append("\", children: \"");
    append_joined(&mut out, children);
    out.append("\" }");
    assert(out@ =~= node_text_of(node_type, tx_id, views(keys@), views(children@)));
    out
}

/// The entries of a leaf whose keys and children read as `keys` and
/// `children`, as text: each key, a colon, its child, a comma and a space.
pub fn entries_debug_text(keys: &Vec<String>, children: &Vec<String>) -> (text: String)
    requires
        keys@.len() == children@.len(),
    ensures
        text@ == entries_text_of(views(keys@), views(children@), keys@.len() as int),
{
    let mut out = String::from_str("");
    proof {
        reveal_strlit("");
        assert(out@ =~= entries_text_of(views(keys@), views(children@), 0));
    }
    let mut k: usize = 0;
    while k < keys.len()
        invariant
            k <= keys@.len(),
            keys@.len() == children@.len(),
            out@ == entries_text_of(views(keys@), views(children@), k as int),
        decreases keys@.len() - k,
    {
        out.append(keys[k].as_str());
        out.append(":");
        out.append(children[k].as_str());
        out.append(", ");
        assert(out@ =~= entries_text_of(views(keys@), views(children@), k + 1));
        k += 1;
    }
    out
}

/// What the handles of the row `hs` denote in the pool, as texts.
pub fn row_strings(pool: &Pool, hs: &Vec<PersistedArcByteSlice>) -> (texts: Vec<String>)
    requires
        pool.inv(),
        handles_valid(pool@, hs@),
    ensures
        texts@.len() == hs@.len(),
        views(texts@) == row_texts(pool@, hs@),
{
    let mut texts: Vec<String> = Vec::new();
    let mut k: usize = 0;
    while k < hs.len()
        invariant
            k <= hs@.len(),
            pool.inv(),
            handles_valid(pool@, hs@),
            texts@.len() == k,
            forall|i: int|
                0 <= i < k ==> (#[trigger] texts@[i])@ == lossy_text(handle_bytes(pool@, hs@[i])),
        decreases hs@.len() - k,
    {
        proof {
            assert(handle_valid(pool@, hs@[k as int]));
        }
        match pool.peek(&hs[k]) {
            Some(bytes) => {
                texts.push(bytes_to_text(bytes));
            },
            None => {
                assert(false);
            },
        }
        k += 1;
    }
    assert(views(texts@) =~= row_texts(pool@, hs@));
    texts
}

/// A node together with the pool that its handles are valid in.
pub struct DebuggableNode<'a> {
    pub node: &'a Node,
    pub pool: &'a Pool,
}

impl<'a> DebuggableNode<'a> {
    /// The node as text: its type, its transaction, and what its keys and
    /// its children denote, each row between quotes.
    pub fn debug_string(&self) -> (text: String)
        requires
            self.pool.inv(),
            self.node@.valid_in(self.pool@),
        ensures
            text@ == node_text(self.pool@, self.node@),
    {
        let keys = row_strings(self.pool, &self.node.keys);
        let children = row_strings(self.pool, &self.node.children);
        node_debug_text(self.node.node_type, self.node.tx_id, &keys, &children)
    }
}

impl Node {
    /// The entries of this node as text: each key with its child, in the
    /// order of the keys.
    pub fn to_string(&self, pool: &Pool) -> (text: String)
        requires
            pool.inv(),
            self@.valid_in(pool@),
            self@.keys.len() == self@.children.len(),
        ensures
            text@ == entries_text_of(
                row_texts(pool@, self@.keys),
                row_texts(pool@, self@.children),
                self@.keys.len() as int,
            ),
    {
        let keys = row_strings(pool, &self.keys);
        let children = row_strings(pool, &self.children);
        entries_debug_text(&keys, &children)
    }
}

} // verus!
