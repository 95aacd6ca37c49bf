//! The pretty printer: the same cursor walk as the traversal engine, but
//! streaming indented text instead of building a value.
//!
//! Every named node gets its own bracket pair and its own line (except the
//! very first), indented two spaces per level of named nesting; a leaf's
//! source text is quoted inline.  No collapsing takes place here.

use crate::cursor::{lemma_path_last, lemma_path_push, node_at, valid_path, Cursor};
use crate::traverse::{byte_range, lemma_rem_path_push, rem_path};
use crate::tree::{
    is_leaf, leaf_text, lemma_size_seq_skip, size, size_seq, wf_node, NodeV, SynNode,
};
use vstd::prelude::*;

verus! {

broadcast use vstd::std_specs::vec::group_vec_axioms, vstd::seq::group_seq_axioms;

/// Two spaces for each indent level.
pub open spec fn spaces(k: nat) -> Seq<u8>
    decreases k,
{
    if k == 0 {
        Seq::empty()
    } else {
        spaces((k - 1) as nat) + seq![32u8, 32u8]
    }
}

/// A leaf's text, quoted inline: one space, then the text between
/// backticks.
pub open spec fn quoted(text: Seq<u8>) -> Seq<u8> {
    seq![32u8, 96u8] + text + seq![96u8]
}

/// The line a named node opens with: a newline unless it is the very
/// first, the indentation, the field label with a separating colon if the
/// node has one, then the opening bracket and the rule name.
pub open spec fn header(n: NodeV, ind: nat, nl: bool) -> Seq<u8> {
    (if nl {
        seq![10u8]
    } else {
        Seq::empty()
    }) + spaces(ind) + (match n.field_name {
        Some(f) => f + seq![58u8, 32u8],
        None => Seq::empty(),
    }) + seq![40u8] + n.kind
}

/// The rendered text of one node, together with the newline flag that the
/// rendering leaves behind (it turns true with the first named node and
/// stays true).
pub open spec fn render(n: NodeV, src: Seq<u8>, ind: nat, nl: bool) -> (Seq<u8>, bool)
    decreases n, 1int,
{
    if n.is_named {
        if is_leaf(n) {
            (header(n, ind, nl) + quoted(leaf_text(n, src)) + seq![41u8], true)
        } else {
            (header(n, ind, nl) + render_seq(n.children, src, ind + 1, true).0 + seq![41u8], true)
        }
    } else {
        if is_leaf(n) {
            (quoted(leaf_text(n, src)), nl)
        } else {
            render_seq(n.children, src, ind, nl)
        }
    }
}

/// The rendered text of a run of siblings, threading the newline flag
/// through from one to the next.
pub open spec fn render_seq(cs: Seq<NodeV>, src: Seq<u8>, ind: nat, nl: bool) -> (Seq<u8>, bool)
    decreases cs, 2int,
{
    if cs.len() == 0 {
        (Seq::empty(), nl)
    } else {
        let first = render(cs[0], src, ind, nl);
        let rest = render_seq(cs.drop_first(), src, ind, first.1);
        (first.0 + rest.0, rest.1)
    }
}

/// A node's rendered text before its closing bracket.
pub open spec fn pre_render(n: NodeV, src: Seq<u8>, ind: nat, nl: bool) -> Seq<u8> {
    if n.is_named {
        if is_leaf(n) {
            header(n, ind, nl) + quoted(leaf_text(n, src))
        } else {
            header(n, ind, nl) + render_seq(n.children, src, ind + 1, true).0
        }
    } else {
        if is_leaf(n) {
            quoted(leaf_text(n, src))
        } else {
            render_seq(n.children, src, ind, nl).0
        }
    }
}

/// The number of named nodes strictly above the node the path leads to.
pub open spec fn ind_at(n: NodeV, p: Seq<int>) -> nat
    decreases p.len(),
{
    if p.len() == 0 {
        0
    } else {
        (if n.is_named {
            1nat
        } else {
            0nat
        }) + ind_at(n.children[p[0]], p.drop_first())
    }
}

/// Extending the path by one step adds the stepped-through node's own
/// contribution to the indent.
pub proof fn lemma_ind_at_push(n: NodeV, p: Seq<int>, i: int)
    requires
        valid_path(n, p),
        0 <= i < node_at(n, p).children.len(),
    ensures
        ind_at(n, p.push(i)) == ind_at(n, p) + (if node_at(n, p).is_named {
            1nat
        } else {
            0nat
        }),
        ind_at(n, p) <= p.len(),
    decreases p.len(),
{
    if p.len() == 0 {
        assert(p.push(i)[0] == i);
        assert(p.push(i).drop_first() =~= Seq::<int>::empty());
        assert(ind_at(n.children[i], Seq::<int>::empty()) == 0);
        assert(ind_at(n, p) == 0);
    } else {
        lemma_ind_at_push(n.children[p[0]], p.drop_first(), i);
        assert(p.push(i)[0] == p[0]);
        assert(p.push(i).drop_first() =~= p.drop_first().push(i));
        assert(ind_at(n, p.push(i)) == (if n.is_named {
            1nat
        } else {
            0nat
        }) + ind_at(n.children[p[0]], p.drop_first().push(i)));
    }
}

/// The text already streamed when the walk stands at the start of a node:
/// for each ancestor its header, and the full renderings of the siblings
/// already completed at each level; the flag is the newline state there.
pub open spec fn dframe(n: NodeV, p: Seq<int>, src: Seq<u8>, ind: nat, nl: bool) -> (Seq<u8>, bool)
    decreases p.len(),
{
    if p.len() == 0 {
        (Seq::empty(), nl)
    } else {
        let h = if n.is_named {
            (header(n, ind, nl), true)
        } else {
            (Seq::empty(), nl)
        };
        let ci = ind + (if n.is_named {
            1nat
        } else {
            0nat
        });
        let sibs = render_seq(n.children.take(p[0]), src, ci, h.1);
        let deeper = dframe(n.children[p[0]], p.drop_first(), src, ci, sibs.1);
        (h.0 + sibs.0 + deeper.0, deeper.1)
    }
}

/// Extending a run of siblings by one renders that sibling after the run.
pub proof fn lemma_render_seq_take_step(cs: Seq<NodeV>, src: Seq<u8>, ind: nat, nl: bool, i: int)
    requires
        0 <= i < cs.len(),
    ensures
        render_seq(cs.take(i + 1), src, ind, nl) == {
            let rs = render_seq(cs.take(i), src, ind, nl);
            let r = render(cs[i], src, ind, rs.1);
            (rs.0 + r.0, r.1)
        },
    decreases i,
{
    if i == 0 {
        assert(cs.take(0) =~= Seq::<NodeV>::empty());
        assert(cs.take(1)[0] == cs[0]);
        assert(cs.take(1).drop_first() =~= Seq::<NodeV>::empty());
        let first = render(cs[0], src, ind, nl);
        assert(render_seq(Seq::<NodeV>::empty(), src, ind, first.1) == (Seq::<u8>::empty(), first.1));
        assert(render_seq(cs.take(0), src, ind, nl) == (Seq::<u8>::empty(), nl));
        assert(render_seq(cs.take(1), src, ind, nl).0 =~= render_seq(cs.take(0), src, ind, nl).0
            + render(cs[0], src, ind, nl).0);
    } else {
        let first = render(cs[0], src, ind, nl);
        lemma_render_seq_take_step(cs.drop_first(), src, ind, first.1, i - 1);
        assert(cs.take(i + 1)[0] == cs[0]);
        assert(cs.take(i + 1).drop_first() =~= cs.drop_first().take(i));
        assert(cs.take(i)[0] == cs[0]);
        assert(cs.take(i).drop_first() =~= cs.drop_first().take(i - 1));
        assert(cs.drop_first()[i - 1] == cs[i]);
        let rs = render_seq(cs.take(i), src, ind, nl);
        let r = render(cs[i], src, ind, rs.1);
        assert(render_seq(cs.take(i + 1), src, ind, nl).0 =~= rs.0 + r.0);
        assert(render_seq(cs.take(i + 1), src, ind, nl).1 == r.1);
    }
}

/// Once a named node has been printed the newline flag stays on.
pub proof fn lemma_render_nl(n: NodeV, src: Seq<u8>, ind: nat)
    ensures
        render(n, src, ind, true).1,
    decreases n, 1int,
{
    if !n.is_named && !is_leaf(n) {
        lemma_render_seq_nl(n.children, src, ind);
    }
}

/// Same, along a run of siblings.
pub proof fn lemma_render_seq_nl(cs: Seq<NodeV>, src: Seq<u8>, ind: nat)
    ensures
        render_seq(cs, src, ind, true).1,
    decreases cs, 2int,
{
    if cs.len() > 0 {
        lemma_render_nl(cs[0], src, ind);
        lemma_render_seq_nl(cs.drop_first(), src, ind);
    }
}

/// How the streamed prefix grows when the path is extended by one step.
#[verifier::rlimit(100)]
pub proof fn lemma_dframe_push(n: NodeV, p: Seq<int>, i: int, src: Seq<u8>, ind: nat, nl: bool)
    requires
        valid_path(n, p),
        0 <= i < node_at(n, p).children.len(),
    ensures
        dframe(n, p.push(i), src, ind, nl) == {
            let m = node_at(n, p);
            let d = dframe(n, p, src, ind, nl);
            let h = if m.is_named {
                (header(m, ind + ind_at(n, p), d.1), true)
            } else {
                (Seq::empty(), d.1)
            };
            let ci = ind + ind_at(n, p) + (if m.is_named {
                1nat
            } else {
                0nat
            });
            let sibs = render_seq(m.children.take(i), src, ci, h.1);
            (d.0 + h.0 + sibs.0, sibs.1)
        },
    decreases p.len(),
{
    if p.len() == 0 {
        assert(p.push(i)[0] == i);
        assert(p.push(i).drop_first() =~= Seq::<int>::empty());
        let ci = ind + (if n.is_named {
            1nat
        } else {
            0nat
        });
        let h = if n.is_named {
            (header(n, ind, nl), true)
        } else {
            (Seq::empty(), nl)
        };
        let sibs = render_seq(n.children.take(i), src, ci, h.1);
        assert(dframe(n.children[i], Seq::<int>::empty(), src, ci, sibs.1) == (
        Seq::<u8>::empty(),
        sibs.1,
        ));
        assert(dframe(n, p, src, ind, nl) == (Seq::<u8>::empty(), nl));
        assert(dframe(n, p.push(i), src, ind, nl).0 =~= h.0 + sibs.0);
    } else {
        let m = node_at(n, p);
        let h0 = if n.is_named {
            (header(n, ind, nl), true)
        } else {
            (Seq::empty(), nl)
        };
        let ci0 = ind + (if n.is_named {
            1nat
        } else {
            0nat
        });
        let sibs0 = render_seq(n.children.take(p[0]), src, ci0, h0.1);
        lemma_dframe_push(n.children[p[0]], p.drop_first(), i, src, ci0, sibs0.1);
        assert(p.push(i)[0] == p[0]);
        assert(p.push(i).drop_first() =~= p.drop_first().push(i));
        let d = dframe(n, p, src, ind, nl);
        let hm = if m.is_named {
            (header(m, ind + ind_at(n, p), d.1), true)
        } else {
            (Seq::empty(), d.1)
        };
        let cim = ind + ind_at(n, p) + (if m.is_named {
            1nat
        } else {
            0nat
        });
        let sibsm = render_seq(m.children.take(i), src, cim, hm.1);
        assert(ind_at(n, p) == (if n.is_named {
            1nat
        } else {
            0nat
        }) + ind_at(n.children[p[0]], p.drop_first()));
        assert(dframe(n, p.push(i), src, ind, nl).0 =~= d.0 + hm.0 + sibsm.0);
        assert(dframe(n, p.push(i), src, ind, nl).1 == sibsm.1);
    }
}

/// Appends a byte string to the output buffer.
fn append_bytes(out: &mut Vec<u8>, b: &Vec<u8>)
    ensures
        final(out)@ == old(out)@ + b@,
{
    let mut i: usize = 0;
    proof {
        assert(out@ =~= old(out)@ + b@.take(0));
    }
    while i < b.len()
        invariant
            i <= b@.len(),
            out@ == old(out)@ + b@.take(i as int),
        decreases b@.len() - i,
    {
        out.push(b[i]);
        i = i + 1;
        proof {
            assert(old(out)@ + b@.take(i - 1) + seq![b@[i - 1]] =~= old(out)@ + b@.take(i as int));
        }
    }
    proof {
        assert(b@.take(b@.len() as int) =~= b@);
    }
}


/// Moving from a finished node to its next sibling keeps the streamed
/// prefix, the newline flag and the indent, and hands the walk a subtree
/// of the same overall remainder.
#[verifier::rlimit(100)]
pub proof fn lemma_dump_sibling_step(rootv: NodeV, p: Seq<int>, src: Seq<u8>)
    requires
        valid_path(rootv, p),
        p.len() > 0,
        p.last() + 1 < node_at(rootv, p.drop_last()).children.len(),
    ensures
        ({
            let q = p.drop_last().push(p.last() + 1);
            let d = dframe(rootv, p, src, 0, false);
            let dq = dframe(rootv, q, src, 0, false);
            let r = render(node_at(rootv, p), src, ind_at(rootv, p), d.1);
            &&& dq.0 == d.0 + r.0
            &&& dq.1 == r.1
            &&& ind_at(rootv, q) == ind_at(rootv, p)
            &&& rem_path(rootv, q) + size(node_at(rootv, q)) == rem_path(rootv, p)
        }),
{
    let pp = p.drop_last();
    let i = p.last();
    lemma_path_last(rootv, p);
    let parent = node_at(rootv, pp);
    assert(p =~= pp.push(i));
    lemma_path_push(rootv, pp, i + 1);
    lemma_ind_at_push(rootv, pp, i);
    lemma_ind_at_push(rootv, pp, i + 1);
    lemma_dframe_push(rootv, pp, i, src, 0, false);
    lemma_dframe_push(rootv, pp, i + 1, src, 0, false);
    let dpp = dframe(rootv, pp, src, 0, false);
    let h = if parent.is_named {
        (header(parent, ind_at(rootv, pp), dpp.1), true)
    } else {
        (Seq::<u8>::empty(), dpp.1)
    };
    let ci = ind_at(rootv, pp) + (if parent.is_named {
        1nat
    } else {
        0nat
    });
    lemma_render_seq_take_step(parent.children, src, ci, h.1, i);
    let q = pp.push(i + 1);
    assert(dframe(rootv, q, src, 0, false).0 =~= dframe(rootv, p, src, 0, false).0 + render(
        node_at(rootv, p),
        src,
        ind_at(rootv, p),
        dframe(rootv, p, src, 0, false).1,
    ).0);
    lemma_rem_path_push(rootv, pp, i);
    lemma_rem_path_push(rootv, pp, i + 1);
    lemma_size_seq_skip(parent.children, i + 1);
}

/// Moving from a finished last child up to its parent turns the streamed
/// prefix into the parent's own pre-closing text.
#[verifier::rlimit(100)]
pub proof fn lemma_dump_parent_step(rootv: NodeV, p: Seq<int>, src: Seq<u8>)
    requires
        valid_path(rootv, p),
        p.len() > 0,
        p.last() + 1 == node_at(rootv, p.drop_last()).children.len(),
    ensures
        ({
            let q = p.drop_last();
            let parent = node_at(rootv, q);
            let d = dframe(rootv, p, src, 0, false);
            let dq = dframe(rootv, q, src, 0, false);
            let r = render(node_at(rootv, p), src, ind_at(rootv, p), d.1);
            &&& !is_leaf(parent)
            &&& dq.0 + pre_render(parent, src, ind_at(rootv, q), dq.1) == d.0 + r.0
            &&& render(parent, src, ind_at(rootv, q), dq.1).1 == r.1
            &&& ind_at(rootv, p) == ind_at(rootv, q) + (if parent.is_named {
                1nat
            } else {
                0nat
            })
            &&& rem_path(rootv, q) == rem_path(rootv, p)
        }),
{
    let pp = p.drop_last();
    let i = p.last();
    lemma_path_last(rootv, p);
    let parent = node_at(rootv, pp);
    let cur = node_at(rootv, p);
    assert(p =~= pp.push(i));
    lemma_ind_at_push(rootv, pp, i);
    lemma_dframe_push(rootv, pp, i, src, 0, false);
    let dpp = dframe(rootv, pp, src, 0, false);
    let h = if parent.is_named {
        (header(parent, ind_at(rootv, pp), dpp.1), true)
    } else {
        (Seq::<u8>::empty(), dpp.1)
    };
    let ci = ind_at(rootv, pp) + (if parent.is_named {
        1nat
    } else {
        0nat
    });
    lemma_render_seq_take_step(parent.children, src, ci, h.1, i);
    assert(parent.children.take(i + 1) =~= parent.children);
    assert(!is_leaf(parent));
    let d = dframe(rootv, p, src, 0, false);
    assert(dpp.0 + pre_render(parent, src, ind_at(rootv, pp), dpp.1) =~= d.0 + render(
        cur,
        src,
        ind_at(rootv, p),
        d.1,
    ).0);
    if parent.is_named {
        lemma_render_seq_nl(parent.children.take(i), src, ci);
        assert(d.1);
        lemma_render_nl(cur, src, ind_at(rootv, p));
        assert(render(parent, src, ind_at(rootv, pp), dpp.1).1);
    }
    lemma_rem_path_push(rootv, pp, i);
    assert(parent.children.skip(i + 1) =~= Seq::<NodeV>::empty());
    assert(size_seq(Seq::<NodeV>::empty()) == 0);
}

/// Descending to the first child adds the node's header (if it is named)
/// to the streamed prefix and one level to the indent.
#[verifier::rlimit(100)]
pub proof fn lemma_dump_descend_step(rootv: NodeV, p: Seq<int>, src: Seq<u8>)
    requires
        valid_path(rootv, p),
        node_at(rootv, p).children.len() > 0,
    ensures
        ({
            let q = p.push(0);
            let cur = node_at(rootv, p);
            let d = dframe(rootv, p, src, 0, false);
            let dq = dframe(rootv, q, src, 0, false);
            &&& node_at(rootv, q) == cur.children[0]
            &&& (cur.is_named ==> dq.0 == d.0 + header(cur, ind_at(rootv, p), d.1) && dq.1)
            &&& (!cur.is_named ==> dq == d)
            &&& ind_at(rootv, q) == ind_at(rootv, p) + (if cur.is_named {
                1nat
            } else {
                0nat
            })
            &&& rem_path(rootv, q) + size(cur.children[0]) + 1 == rem_path(rootv, p) + size(cur)
        }),
{
    let q = p.push(0);
    let cur = node_at(rootv, p);
    lemma_path_push(rootv, p, 0);
    lemma_ind_at_push(rootv, p, 0);
    lemma_dframe_push(rootv, p, 0, src, 0, false);
    assert(cur.children.take(0) =~= Seq::<NodeV>::empty());
    let d = dframe(rootv, p, src, 0, false);
    if cur.is_named {
        assert(dframe(rootv, q, src, 0, false).0 =~= d.0 + header(cur, ind_at(rootv, p), d.1));
    } else {
        assert(dframe(rootv, q, src, 0, false).0 =~= d.0);
    }
    lemma_rem_path_push(rootv, p, 0);
    lemma_size_seq_skip(cur.children, 0);
    assert(cur.children.skip(0) =~= cur.children);
    assert(size(cur) == 1 + size_seq(cur.children));
}

/// Renders a whole syntax tree as indented text, returned as bytes.
///
/// The walk is the same cursor-driven, stack-free walk as
/// [`crate::traverse::to_sexp`]'s, but the text streams out directly and
/// nothing is collapsed: every named node keeps its own bracket pair.
#[verifier::rlimit(100)]
pub fn dump_sexp(source_code: &[u8], tree: &SynNode) -> (out: Vec<u8>)
    requires
        wf_node(tree@, source_code@.len() as int),
    ensures
        out@ == render(tree@, source_code@, 0, false).0,
{
    let ghost src = source_code@;
    let ghost rootv = tree@;
    let mut cursor = Cursor::new(tree);
    let mut needs_newline = false;
    let mut indent_level: usize = 0;
    let mut visited_children = false;
    let mut out: Vec<u8> = Vec::new();
    proof {
        assert(out@ =~= Seq::<u8>::empty());
    }
    loop
        invariant_except_break
            cursor.wf(),
            cursor.root_spec() == rootv,
            rootv == tree@,
            src == source_code@,
            wf_node(rootv, src.len() as int),
            indent_level as nat == ind_at(rootv, cursor.path_spec()),
            !visited_children ==> out@ == dframe(rootv, cursor.path_spec(), src, 0, false).0,
            !visited_children ==> needs_newline == dframe(rootv, cursor.path_spec(), src, 0, false).1,
            visited_children ==> out@ == dframe(rootv, cursor.path_spec(), src, 0, false).0
                + pre_render(
                cursor.cur(),
                src,
                ind_at(rootv, cursor.path_spec()),
                dframe(rootv, cursor.path_spec(), src, 0, false).1,
            ),
            visited_children ==> needs_newline == render(
                cursor.cur(),
                src,
                ind_at(rootv, cursor.path_spec()),
                dframe(rootv, cursor.path_spec(), src, 0, false).1,
            ).1,
        ensures
            out@ == render(rootv, src, 0, false).0,
        decreases rem_path(rootv, cursor.path_spec()) + (if visited_children {
            0nat
        } else {
            size(cursor.cur())
        }),
            (if visited_children {
                1int
            } else {
                0int
            }),
            cursor.path_spec().len(),
    {
        let ghost p = cursor.path_spec();
        let ghost cur = cursor.cur();
        let ghost d = dframe(rootv, p, src, 0, false);
        let node = cursor.node();
        let is_named = node.is_named;
        if visited_children {
            if is_named {
                out.push(41);
            }
            proof {
                assert(out@ =~= d.0 + render(cur, src, ind_at(rootv, p), d.1).0);
            }
            if cursor.goto_next_sibling() {
                visited_children = false;
                proof {
                    lemma_dump_sibling_step(rootv, p, src);
                    assert(cursor.path_spec() =~= p.drop_last().push(p.last() + 1));
                }
            } else {
                let moved_up = cursor.goto_parent();
                if !moved_up {
                    proof {
                        assert(p.len() == 0);
                        assert(cur == rootv);
                        assert(d.0 =~= Seq::<u8>::empty());
                        assert(out@ =~= render(rootv, src, 0, false).0);
                    }
                    break ;
                }
                proof {
                    lemma_path_last(rootv, p);
                    lemma_dump_parent_step(rootv, p, src);
                    assert(cursor.path_spec() =~= p.drop_last());
                }
                let parent_named = cursor.node().is_named;
                if parent_named {
                    indent_level = indent_level - 1;
                }
            }
        } else {
            if is_named {
                if needs_newline {
                    out.push(10);
                }
                let ghost base = out@;
                let mut k: usize = 0;
                proof {
                    assert(out@ =~= base + spaces(0));
                }
                while k < indent_level
                    invariant
                        k <= indent_level,
                        out@ == base + spaces(k as nat),
                    decreases indent_level - k,
                {
                    out.push(32);
                    out.push(32);
                    k = k + 1;
                    proof {
                        assert(base + spaces((k - 1) as nat) + seq![32u8, 32u8] =~= base + spaces(
                            k as nat,
                        ));
                    }
                }
                match &node.field_name {
                    Some(f) => {
                        append_bytes(&mut out, f);
                        out.push(58);
                        out.push(32);
                    },
                    None => {},
                }
                out.push(40);
                append_bytes(&mut out, &node.kind);
                needs_newline = true;
                proof {
                    assert(out@ =~= d.0 + header(cur, ind_at(rootv, p), d.1));
                }
            }
            let start = node.start_byte;
            let end = node.end_byte;
            if cursor.goto_first_child() {
                let deeper = cursor.depth();
                proof {
                    lemma_dump_descend_step(rootv, p, src);
                    lemma_ind_at_push(rootv, p, 0);
                    assert(cursor.path_spec() =~= p.push(0));
                }
                if is_named {
                    proof {
                        assert((indent_level as int) < (deeper as int));
                    }
                    indent_level = indent_level + 1;
                }
                visited_children = false;
            } else {
                visited_children = true;
                proof {
                    crate::traverse::lemma_wf_at(rootv, p, src.len() as int);
                    assert(is_leaf(cur));
                }
                out.push(32);
                out.push(96);
                let value = byte_range(source_code, start, end);
                append_bytes(&mut out, &value);
                out.push(96);
                proof {
                    assert(out@ =~= d.0 + pre_render(cur, src, ind_at(rootv, p), d.1));
                    assert(size(cur) >= 1);
                }
            }
        }
    }
    out
}

} // verus!
