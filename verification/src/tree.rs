//! The concrete syntax tree as plain data.
//!
//! A grammar-based parser produces the tree; this library receives it as a
//! [`SynNode`] per node: the rule name, whether the node is named
//! (syntactically significant), an optional field label, the node's byte
//! range in the source buffer, and its children in order.

use crate::sexp::{collapse, no_token_top, SExpV};
use vstd::prelude::*;

verus! {

broadcast use vstd::std_specs::vec::group_vec_axioms, vstd::seq::group_seq_axioms;

/// One node of a concrete syntax tree, with all the attributes the
/// traversal reads.  Text (rule names, field labels) is carried as bytes.
#[derive(Debug, PartialEq, Eq)]
pub struct SynNode {
    /// Whether the grammar designates this node as semantically meaningful.
    pub is_named: bool,
    /// The grammar rule name of the node.
    pub kind: Vec<u8>,
    /// The field label the parent's rule assigns to this node, if any.
    pub field_name: Option<Vec<u8>>,
    /// Byte offset of the node's first byte in the source buffer.
    pub start_byte: usize,
    /// Byte offset one past the node's last byte in the source buffer.
    pub end_byte: usize,
    /// The node's children, in source order.
    pub children: Vec<SynNode>,
}

/// The mathematical model of a [`SynNode`].
#[verifier::ext_equal]
pub struct NodeV {
    pub is_named: bool,
    pub kind: Seq<u8>,
    pub field_name: Option<Seq<u8>>,
    pub start: int,
    pub end: int,
    pub children: Seq<NodeV>,
}

/// A placeholder node; only used to make [`SynNode::view`] total.
pub open spec fn null_node() -> NodeV {
    NodeV {
        is_named: false,
        kind: Seq::empty(),
        field_name: None,
        start: 0,
        end: 0,
        children: Seq::empty(),
    }
}

/// The model of a [`SynNode`]: plain fields carried over, children viewed
/// recursively.
pub open spec fn node_view(n: SynNode) -> NodeV
    decreases n,
{
    NodeV {
        is_named: n.is_named,
        kind: n.kind@,
        field_name: match n.field_name {
            Some(f) => Some(f@),
            None => None,
        },
        start: n.start_byte as int,
        end: n.end_byte as int,
        children: Seq::new(n.children@.len(), |i: int| if 0 <= i < n.children@.len() {
            node_view(n.children@[i])
        } else {
            null_node()
        }),
    }
}

impl View for SynNode {
    type V = NodeV;

    open spec fn view(&self) -> NodeV {
        node_view(*self)
    }
}

/// A node is a leaf when it has no children at all.
pub open spec fn is_leaf(n: NodeV) -> bool {
    n.children.len() == 0
}

/// Every leaf's byte range lies within a source buffer of length `src_len`.
/// The parser guarantees this of any tree it hands over.
pub open spec fn wf_node(n: NodeV, src_len: int) -> bool
    decreases n,
{
    &&& (is_leaf(n) ==> n.start <= n.end <= src_len)
    &&& forall|i: int| 0 <= i < n.children.len() ==> wf_node(#[trigger] n.children[i], src_len)
}

/// The verbatim source bytes of a leaf node.
pub open spec fn leaf_text(n: NodeV, src: Seq<u8>) -> Seq<u8> {
    src.subrange(n.start, n.end)
}

/// The `Field` entry a node contributes ahead of itself, if it carries a
/// field label.
pub open spec fn field_part(n: NodeV) -> Seq<SExpV> {
    match n.field_name {
        Some(f) => seq![SExpV::Field(f)],
        None => Seq::empty(),
    }
}

/// The entries a node contributes to its parent's accumulation region.
///
/// A named node contributes its optional `Field` entry followed by one
/// collapsed value whose region starts with its `Kind` entry; an unnamed
/// node contributes its body directly, so it never appears in the output
/// by itself.
pub open spec fn entries(n: NodeV, src: Seq<u8>) -> Seq<SExpV>
    decreases n, 1int,
{
    if n.is_named {
        field_part(n) + seq![collapse(seq![SExpV::Kind(n.kind)] + body(n, src))]
    } else {
        body(n, src)
    }
}

/// What accumulates beyond a node's own `Kind`/`Field` entries: the exact
/// source text for a leaf, otherwise the children's entries in order.
pub open spec fn body(n: NodeV, src: Seq<u8>) -> Seq<SExpV>
    decreases n, 0int,
{
    if is_leaf(n) {
        seq![SExpV::Value(leaf_text(n, src))]
    } else {
        cat_entries(n.children, src)
    }
}

/// The concatenated entries of a run of sibling nodes.
pub open spec fn cat_entries(cs: Seq<NodeV>, src: Seq<u8>) -> Seq<SExpV>
    decreases cs, 2int,
{
    if cs.len() == 0 {
        Seq::empty()
    } else {
        entries(cs[0], src) + cat_entries(cs.drop_first(), src)
    }
}

/// The S-expression of a whole tree: the root's entries, a single entry
/// returned bare, several wrapped in one final `List`.
pub open spec fn sexp_of(n: NodeV, src: Seq<u8>) -> SExpV {
    collapse(entries(n, src))
}

/// The number of nodes in a subtree.
pub open spec fn size(n: NodeV) -> nat
    decreases n, 1int,
{
    1 + size_seq(n.children)
}

/// The number of nodes in a forest of subtrees.
pub open spec fn size_seq(cs: Seq<NodeV>) -> nat
    decreases cs, 2int,
{
    if cs.len() == 0 {
        0
    } else {
        size(cs[0]) + size_seq(cs.drop_first())
    }
}

/// Splitting one subtree off the front of a forest's tail.
pub proof fn lemma_size_seq_skip(cs: Seq<NodeV>, i: int)
    requires
        0 <= i < cs.len(),
    ensures
        size_seq(cs.skip(i)) == size(cs[i]) + size_seq(cs.skip(i + 1)),
{
    assert(cs.skip(i)[0] == cs[i]);
    assert(cs.skip(i).drop_first() =~= cs.skip(i + 1));
}

/// Extending the run of siblings by one appends that sibling's entries.
pub proof fn lemma_cat_entries_take_step(cs: Seq<NodeV>, src: Seq<u8>, i: int)
    requires
        0 <= i < cs.len(),
    ensures
        cat_entries(cs.take(i + 1), src) == cat_entries(cs.take(i), src) + entries(cs[i], src),
    decreases i,
{
    if i == 0 {
        assert(cs.take(0) =~= Seq::<NodeV>::empty());
        assert(cs.take(1)[0] == cs[0]);
        assert(cs.take(1).drop_first() =~= Seq::<NodeV>::empty());
        assert(cat_entries(cs.take(1), src) =~= cat_entries(cs.take(0), src) + entries(
            cs[0],
            src,
        ));
    } else {
        lemma_cat_entries_take_step(cs.drop_first(), src, i - 1);
        assert(cs.take(i + 1)[0] == cs[0]);
        assert(cs.take(i + 1).drop_first() =~= cs.drop_first().take(i));
        assert(cs.take(i)[0] == cs[0]);
        assert(cs.take(i).drop_first() =~= cs.drop_first().take(i - 1));
        assert(cs.drop_first()[i - 1] == cs[i]);
        assert(cat_entries(cs.take(i + 1), src) =~= cat_entries(cs.take(i), src) + entries(
            cs[i],
            src,
        ));
    }
}

/// A node's entries are never empty and none of them is a `Token` at the
/// top level of the run.
pub proof fn lemma_entries_no_token(n: NodeV, src: Seq<u8>)
    ensures
        entries(n, src).len() >= 1,
        no_token_top(entries(n, src)),
    decreases n, 1int,
{
    lemma_body_no_token(n, src);
}

/// Same, for the run a node accumulates beyond its own entries.
pub proof fn lemma_body_no_token(n: NodeV, src: Seq<u8>)
    ensures
        body(n, src).len() >= 1,
        no_token_top(body(n, src)),
    decreases n, 0int,
{
    if !is_leaf(n) {
        lemma_cat_no_token(n.children, src);
    }
}

/// Same, for the concatenated entries of a run of siblings.
pub proof fn lemma_cat_no_token(cs: Seq<NodeV>, src: Seq<u8>)
    ensures
        cs.len() > 0 ==> cat_entries(cs, src).len() >= 1,
        no_token_top(cat_entries(cs, src)),
    decreases cs, 2int,
{
    if cs.len() > 0 {
        lemma_entries_no_token(cs[0], src);
        lemma_cat_no_token(cs.drop_first(), src);
        let e = entries(cs[0], src);
        let r = cat_entries(cs.drop_first(), src);
        assert forall|i: int| 0 <= i < (e + r).len() implies !(#[trigger] (e + r)[i] is Token) by {
            if i < e.len() {
                assert((e + r)[i] == e[i]);
            } else {
                assert((e + r)[i] == r[i - e.len()]);
            }
        }
    }
}

} // verus!
