//! The traversal engine: one cursor-driven walk of the whole tree that
//! builds the S-expression value on an explicit construction stack.

use crate::cursor::{lemma_path_last, lemma_path_push, node_at, valid_path, Cursor};
use crate::sexp::{collapse, lemma_list_view, no_token_top, stack_view, SExp, SExpV};
use crate::tree::{
    body, cat_entries, entries, field_part, is_leaf, lemma_body_no_token,
    lemma_cat_entries_take_step, lemma_size_seq_skip, leaf_text, sexp_of, size, size_seq, wf_node,
    NodeV, SynNode,
};
use vstd::prelude::*;

verus! {

broadcast use vstd::std_specs::vec::group_vec_axioms, vstd::seq::group_seq_axioms;

/// The index of the topmost `Token` of the stack, `-1` if there is none.
pub open spec fn top_token_at(s: Seq<SExpV>) -> int
    decreases s.len(),
{
    if s.len() == 0 {
        -1
    } else if s.last() is Token {
        s.len() - 1
    } else {
        top_token_at(s.drop_last())
    }
}

/// What the topmost `Token` index means: it carries a `Token`, and only
/// entries that are not `Token`s sit above it.
pub proof fn lemma_top_token_props(s: Seq<SExpV>)
    requires
        top_token_at(s) >= 0,
    ensures
        top_token_at(s) < s.len(),
        s[top_token_at(s)] is Token,
        no_token_top(s.skip(top_token_at(s) + 1)),
    decreases s.len(),
{
    if s.len() == 0 {
    } else if s.last() is Token {
        assert(s.skip(s.len() as int) =~= Seq::<SExpV>::empty());
    } else {
        lemma_top_token_props(s.drop_last());
        let t = top_token_at(s);
        assert(s[t] == s.drop_last()[t]);
        assert forall|i: int| 0 <= i < s.skip(t + 1).len() implies !(#[trigger] s.skip(t + 1)[i]
            is Token) by {
            if i < s.skip(t + 1).len() - 1 {
                assert(s.skip(t + 1)[i] == s.drop_last().skip(t + 1)[i]);
            } else {
                assert(s.skip(t + 1)[i] == s.last());
            }
        }
    }
}

/// A stack of the shape `below + [Token] + region`, with no `Token` in the
/// region, has its topmost `Token` exactly between the two parts.
pub proof fn lemma_top_token_append(a: Seq<SExpV>, b: Seq<SExpV>)
    requires
        no_token_top(b),
    ensures
        top_token_at(a + seq![SExpV::Token] + b) == a.len() as int,
    decreases b.len(),
{
    let s = a + seq![SExpV::Token] + b;
    if b.len() == 0 {
        assert(s.last() == SExpV::Token);
    } else {
        assert(s.last() == b.last());
        assert(!(b.last() is Token));
        assert(s.drop_last() =~= a + seq![SExpV::Token] + b.drop_last());
        assert(no_token_top(b.drop_last()));
        lemma_top_token_append(a, b.drop_last());
    }
}

/// The stack after one collapse: everything below the topmost `Token`
/// stays, the region above it is folded into a single replacement entry.
pub open spec fn collapsed_stack(s: Seq<SExpV>) -> Seq<SExpV> {
    s.take(top_token_at(s)) + seq![collapse(s.skip(top_token_at(s) + 1))]
}

/// Pops entries off the stack until the topmost `Token` delimiter is
/// popped, then pushes the popped region back as one entry, in original
/// order: a single entry as itself, anything else wrapped in a `List`.
pub fn construct_list(exp_stack: &mut Vec<SExp>)
    requires
        top_token_at(stack_view(old(exp_stack)@)) >= 0,
    ensures
        stack_view(final(exp_stack)@) == collapsed_stack(stack_view(old(exp_stack)@)),
{
    let ghost s0 = stack_view(old(exp_stack)@);
    let ghost t = top_token_at(s0);
    proof {
        lemma_top_token_props(s0);
        assert(stack_view(exp_stack@) =~= s0.take(exp_stack@.len() as int));
    }
    let ghost region = s0.skip(t + 1);
    let mut elems: Vec<SExp> = Vec::new();
    loop
        invariant_except_break
            t < exp_stack@.len() <= s0.len(),
            t == top_token_at(s0),
            t >= 0,
            s0 == stack_view(old(exp_stack)@),
            region == s0.skip(t + 1),
            stack_view(exp_stack@) =~= s0.take(exp_stack@.len() as int),
            elems@.len() + exp_stack@.len() == s0.len(),
            forall|j: int|
                0 <= j < elems@.len() ==> (#[trigger] elems@[j])@ == s0[s0.len() - 1 - j],
        ensures
            stack_view(exp_stack@) == collapsed_stack(s0),
        decreases exp_stack@.len(),
    {
        proof {
            lemma_top_token_props(s0);
        }
        let ghost len_before = exp_stack@.len() as int;
        let ghost pre = exp_stack@;
        let elem = exp_stack.pop().unwrap();
        proof {
            assert(stack_view(pre)[len_before - 1] == pre[len_before - 1]@);
            assert(s0.take(len_before)[len_before - 1] == s0[len_before - 1]);
            assert(elem@ == s0[len_before - 1]);
            assert(stack_view(exp_stack@) =~= s0.take(exp_stack@.len() as int));
        }
        match elem {
            SExp::Token => {
                proof {
                    // Only the delimiter at `t` is a `Token` at or above `t`.
                    if len_before - 1 > t {
                        assert(s0.skip(t + 1)[len_before - 1 - (t + 1)] == s0[len_before - 1]);
                        assert(false);
                    }
                    assert(len_before - 1 == t);
                    assert(elems@.len() == region.len());
                }
                if elems.len() == 1 {
                    let e = elems.pop().unwrap();
                    proof {
                        assert(e@ == region[0]);
                    }
                    exp_stack.push(e);
                } else {
                    let mut list: Vec<SExp> = Vec::new();
                    while elems.len() > 0
                        invariant
                            region == s0.skip(t + 1),
                            list@.len() + elems@.len() == region.len(),
                            forall|j: int|
                                0 <= j < elems@.len() ==> (#[trigger] elems@[j])@ == region[region.len()
                                    - 1 - j],
                            forall|j: int|
                                0 <= j < list@.len() ==> (#[trigger] list@[j])@ == region[j],
                        decreases elems@.len(),
                    {
                        let e = elems.pop().unwrap();
                        list.push(e);
                    }
                    proof {
                        assert(stack_view(list@) =~= region);
                        crate::sexp::lemma_list_view(list);
                    }
                    exp_stack.push(SExp::List(list));
                }
                proof {
                    assert(stack_view(exp_stack@) =~= s0.take(t) + seq![collapse(region)]);
                }
                break ;
            },
            other => {
                proof {
                    // The popped entry sits above the delimiter, so it is
                    // not a `Token` and belongs to the region.
                    if len_before - 1 == t {
                        assert(s0[t] is Token);
                        assert(false);
                    }
                }
                elems.push(other);
            },
        }
    }
}

/// The entries pushed when the traversal enters a node: nothing for an
/// unnamed node; the optional `Field`, the `Token` delimiter and the
/// `Kind` for a named one.
pub open spec fn opening(n: NodeV) -> Seq<SExpV> {
    if n.is_named {
        field_part(n) + seq![SExpV::Token, SExpV::Kind(n.kind)]
    } else {
        Seq::empty()
    }
}

/// The stack region a node occupies once its descendants are done but
/// before its own collapse.
pub open spec fn pre_region(n: NodeV, src: Seq<u8>) -> Seq<SExpV> {
    opening(n) + body(n, src)
}

/// What sits on the construction stack below the current node's own
/// contribution: for each ancestor, its opening entries followed by the
/// entries of the children already completed.
pub open spec fn frame(n: NodeV, p: Seq<int>, src: Seq<u8>) -> Seq<SExpV>
    decreases p.len(),
{
    if p.len() == 0 {
        Seq::empty()
    } else {
        opening(n) + cat_entries(n.children.take(p[0]), src) + frame(
            n.children[p[0]],
            p.drop_first(),
            src,
        )
    }
}

/// How the frame grows when the path is extended by one step.
pub proof fn lemma_frame_push(n: NodeV, p: Seq<int>, i: int, src: Seq<u8>)
    requires
        valid_path(n, p),
        0 <= i < node_at(n, p).children.len(),
    ensures
        frame(n, p.push(i), src) == frame(n, p, src) + opening(node_at(n, p)) + cat_entries(
            node_at(n, p).children.take(i),
            src,
        ),
    decreases p.len(),
{
    if p.len() == 0 {
        assert(p.push(i)[0] == i);
        assert(p.push(i).drop_first() =~= Seq::<int>::empty());
        assert(frame(n.children[i], Seq::<int>::empty(), src) == Seq::<SExpV>::empty());
        assert(frame(n, p, src) == Seq::<SExpV>::empty());
        assert(frame(n, p.push(i), src) =~= frame(n, p, src) + opening(n) + cat_entries(
            n.children.take(i),
            src,
        ));
    } else {
        lemma_frame_push(n.children[p[0]], p.drop_first(), i, src);
        assert(p.push(i)[0] == p[0]);
        assert(p.push(i).drop_first() =~= p.drop_first().push(i));
        assert(frame(n, p.push(i), src) =~= frame(n, p, src) + opening(node_at(n, p))
            + cat_entries(node_at(n, p).children.take(i), src));
    }
}

/// The node count still owed at or after the current path position, not
/// counting the current node's own subtree: for each ancestor level, the
/// sizes of the siblings that come after the position.
pub open spec fn rem_path(n: NodeV, p: Seq<int>) -> nat
    decreases p.len(),
{
    if p.len() == 0 {
        0
    } else {
        size_seq(n.children.skip(p[0] + 1)) + rem_path(n.children[p[0]], p.drop_first())
    }
}

/// How the owed count changes when the path is extended by one step.
pub proof fn lemma_rem_path_push(n: NodeV, p: Seq<int>, i: int)
    requires
        valid_path(n, p),
        0 <= i < node_at(n, p).children.len(),
    ensures
        rem_path(n, p.push(i)) == rem_path(n, p) + size_seq(node_at(n, p).children.skip(i + 1)),
    decreases p.len(),
{
    if p.len() == 0 {
        assert(p.push(i)[0] == i);
        assert(p.push(i).drop_first() =~= Seq::<int>::empty());
        assert(rem_path(n.children[i], Seq::<int>::empty()) == 0);
        assert(rem_path(n, p) == 0);
        assert(rem_path(n, p.push(i)) == size_seq(n.children.skip(i + 1)) + rem_path(
            n.children[i],
            Seq::<int>::empty(),
        ));
    } else {
        lemma_rem_path_push(n.children[p[0]], p.drop_first(), i);
        assert(p.push(i)[0] == p[0]);
        assert(p.push(i).drop_first() =~= p.drop_first().push(i));
        assert(rem_path(n, p.push(i)) == size_seq(n.children.skip(p[0] + 1)) + rem_path(
            n.children[p[0]],
            p.drop_first().push(i),
        ));
    }
}

/// Well-formedness reaches every node a valid path leads to.
pub proof fn lemma_wf_at(n: NodeV, p: Seq<int>, src_len: int)
    requires
        wf_node(n, src_len),
        valid_path(n, p),
    ensures
        wf_node(node_at(n, p), src_len),
    decreases p.len(),
{
    if p.len() > 0 {
        lemma_wf_at(n.children[p[0]], p.drop_first(), src_len);
    }
}

/// Copies the bytes `src[start..end]` out of the source buffer.
pub(crate) fn byte_range(src: &[u8], start: usize, end: usize) -> (r: Vec<u8>)
    requires
        start <= end <= src@.len(),
    ensures
        r@ == src@.subrange(start as int, end as int),
{
    let mut r: Vec<u8> = Vec::new();
    let mut i = start;
    proof {
        assert(r@ =~= src@.subrange(start as int, start as int));
    }
    while i < end
        invariant
            start <= i <= end <= src@.len(),
            r@ == src@.subrange(start as int, i as int),
        decreases end - i,
    {
        let b = *vstd::slice::slice_index_get(src, i);
        r.push(b);
        i = i + 1;
        proof {
            assert(r@ =~= src@.subrange(start as int, i as int));
        }
    }
    r
}

/// Copies a byte string.
fn copy_bytes(v: &Vec<u8>) -> (r: Vec<u8>)
    ensures
        r@ == v@,
{
    let r = byte_range(v.as_slice(), 0, v.len());
    proof {
        assert(v@.subrange(0, v@.len() as int) =~= v@);
    }
    r
}

/// Translates a whole syntax tree into its S-expression.
///
/// The walk is iterative: the cursor's own child/sibling/parent moves
/// drive it, and the nesting is rebuilt on an explicit construction stack,
/// so the traversal never recurses into the call stack however deep the
/// syntax nests.  Entering a named node pushes its `Token` delimiter and
/// `Kind`; a childless node contributes its exact source bytes as a
/// `Value`; leaving a named node collapses its region into one entry.
#[verifier::rlimit(100)]
pub fn to_sexp(source_code: &[u8], tree: &SynNode) -> (result: SExp)
    requires
        wf_node(tree@, source_code@.len() as int),
    ensures
        result@ == sexp_of(tree@, source_code@),
{
    let ghost src = source_code@;
    let ghost rootv = tree@;
    let mut cursor = Cursor::new(tree);
    let mut is_children_visited = false;
    let mut incomplete: Vec<SExp> = Vec::new();
    proof {
        assert(stack_view(incomplete@) =~= Seq::<SExpV>::empty());
    }
    loop
        invariant_except_break
            cursor.wf(),
            cursor.root_spec() == rootv,
            rootv == tree@,
            src == source_code@,
            wf_node(rootv, src.len() as int),
            !is_children_visited ==> stack_view(incomplete@) == frame(
                rootv,
                cursor.path_spec(),
                src,
            ),
            is_children_visited ==> stack_view(incomplete@) == frame(rootv, cursor.path_spec(), src)
                + pre_region(cursor.cur(), src),
        ensures
            stack_view(incomplete@) == entries(rootv, src),
        decreases rem_path(rootv, cursor.path_spec()) + (if is_children_visited {
            0nat
        } else {
            size(cursor.cur())
        }),
            (if is_children_visited {
                1int
            } else {
                0int
            }),
            cursor.path_spec().len(),
    {
        let ghost p = cursor.path_spec();
        let ghost cur = cursor.cur();
        let node = cursor.node();
        let is_named = node.is_named;
        if is_children_visited {
            if is_named {
                proof {
                    lemma_body_no_token(cur, src);
                    let region = seq![SExpV::Kind(cur.kind)] + body(cur, src);
                    assert(no_token_top(region));
                    assert(stack_view(incomplete@) =~= (frame(rootv, p, src) + field_part(cur))
                        + seq![SExpV::Token] + region);
                    lemma_top_token_append(frame(rootv, p, src) + field_part(cur), region);
                }
                construct_list(&mut incomplete);
                proof {
                    let s0 = frame(rootv, p, src) + field_part(cur) + seq![SExpV::Token] + (
                    seq![SExpV::Kind(cur.kind)] + body(cur, src));
                    let t = (frame(rootv, p, src) + field_part(cur)).len() as int;
                    assert(s0.take(t) =~= frame(rootv, p, src) + field_part(cur));
                    assert(s0.skip(t + 1) =~= seq![SExpV::Kind(cur.kind)] + body(cur, src));
                    assert(stack_view(incomplete@) =~= frame(rootv, p, src) + entries(cur, src));
                }
            } else {
                proof {
                    assert(pre_region(cur, src) =~= body(cur, src));
                    assert(stack_view(incomplete@) =~= frame(rootv, p, src) + entries(cur, src));
                }
            }
            // The node's accumulated region is now one entry on the stack.
            if cursor.goto_next_sibling() {
                is_children_visited = false;
                proof {
                    let pp = p.drop_last();
                    let i = p.last();
                    lemma_path_last(rootv, p);
                    let parent = node_at(rootv, pp);
                    assert(p =~= pp.push(i));
                    lemma_frame_push(rootv, pp, i, src);
                    lemma_frame_push(rootv, pp, i + 1, src);
                    lemma_cat_entries_take_step(parent.children, src, i);
                    assert(stack_view(incomplete@) =~= frame(rootv, cursor.path_spec(), src));
                    lemma_path_push(rootv, pp, i + 1);
                    lemma_rem_path_push(rootv, pp, i);
                    lemma_rem_path_push(rootv, pp, i + 1);
                    lemma_size_seq_skip(parent.children, i + 1);
                    assert(cursor.cur() == parent.children[i + 1]);
                }
            } else {
                let moved_up = cursor.goto_parent();
                if !moved_up {
                    // No sibling and no parent: the whole tree is done.
                    proof {
                        assert(p.len() == 0);
                        assert(frame(rootv, p, src) =~= Seq::<SExpV>::empty());
                        assert(cur == rootv);
                        assert(stack_view(incomplete@) =~= entries(rootv, src));
                    }
                    break ;
                }
                proof {
                    let pp = p.drop_last();
                    let i = p.last();
                    lemma_path_last(rootv, p);
                    let parent = node_at(rootv, pp);
                    assert(i + 1 == parent.children.len());
                    assert(p =~= pp.push(i));
                    lemma_frame_push(rootv, pp, i, src);
                    lemma_cat_entries_take_step(parent.children, src, i);
                    assert(parent.children.take(i + 1) =~= parent.children);
                    assert(!is_leaf(parent));
                    assert(stack_view(incomplete@) =~= frame(rootv, pp, src) + pre_region(
                        parent,
                        src,
                    ));
                    lemma_rem_path_push(rootv, pp, i);
                    assert(parent.children.skip(i + 1) =~= Seq::<NodeV>::empty());
                    assert(size_seq(Seq::<NodeV>::empty()) == 0);
                }
            }
        } else {
            if is_named {
                match &node.field_name {
                    Some(f) => {
                        incomplete.push(SExp::Field(copy_bytes(f)));
                    },
                    None => {},
                }
                incomplete.push(SExp::Token);
                incomplete.push(SExp::Kind(copy_bytes(&node.kind)));
                proof {
                    assert(stack_view(incomplete@) =~= frame(rootv, p, src) + opening(cur));
                }
            } else {
                proof {
                    assert(stack_view(incomplete@) =~= frame(rootv, p, src) + opening(cur));
                }
            }
            let start = node.start_byte;
            let end = node.end_byte;
            if cursor.goto_first_child() {
                proof {
                    lemma_frame_push(rootv, p, 0, src);
                    assert(cur.children.take(0) =~= Seq::<NodeV>::empty());
                    assert(cat_entries(cur.children.take(0), src) =~= Seq::<SExpV>::empty());
                    assert(stack_view(incomplete@) =~= frame(rootv, cursor.path_spec(), src));
                    lemma_path_push(rootv, p, 0);
                    assert(cursor.cur() == cur.children[0]);
                    lemma_rem_path_push(rootv, p, 0);
                    lemma_size_seq_skip(cur.children, 0);
                    assert(cur.children.skip(0) =~= cur.children);
                    assert(size(cur) == 1 + size_seq(cur.children));
                }
            } else {
                is_children_visited = true;
                proof {
                    lemma_wf_at(rootv, p, src.len() as int);
                    assert(is_leaf(cur));
                }
                let value = byte_range(source_code, start, end);
                incomplete.push(SExp::Value(value));
                proof {
                    assert(body(cur, src) =~= seq![SExpV::Value(leaf_text(cur, src))]);
                    assert(stack_view(incomplete@) =~= frame(rootv, p, src) + pre_region(
                        cur,
                        src,
                    ));
                    assert(size(cur) >= 1);
                }
            }
        }
    }
    if incomplete.len() == 1 {
        let r = incomplete.pop().unwrap();
        proof {
            assert(r@ == stack_view(incomplete@.push(r))[0]);
            assert(entries(rootv, src).len() == 1);
        }
        r
    } else {
        proof {
            lemma_list_view(incomplete);
        }
        SExp::List(incomplete)
    }
}

} // verus!
