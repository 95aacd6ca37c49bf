//! A positionable cursor over a syntax tree.
//!
//! The cursor keeps the path of child indices from the root to the current
//! node and offers the navigation the traversal needs: read the current
//! node, descend to the first child, move to the next sibling, or ascend
//! to the parent, each move reporting whether it succeeded.

use crate::tree::{NodeV, SynNode};
use vstd::prelude::*;

verus! {

broadcast use vstd::std_specs::vec::group_vec_axioms, vstd::seq::group_seq_axioms;

/// The node a path of child indices leads to.
pub open spec fn node_at(n: NodeV, p: Seq<int>) -> NodeV
    decreases p.len(),
{
    if p.len() == 0 {
        n
    } else {
        node_at(n.children[p[0]], p.drop_first())
    }
}

/// Each index of the path selects an existing child.
pub open spec fn valid_path(n: NodeV, p: Seq<int>) -> bool
    decreases p.len(),
{
    p.len() == 0 || (0 <= p[0] < n.children.len() && valid_path(
        n.children[p[0]],
        p.drop_first(),
    ))
}

/// Extending a valid path by one in-range child index stays valid and
/// lands on that child.
pub proof fn lemma_path_push(n: NodeV, p: Seq<int>, i: int)
    requires
        valid_path(n, p),
        0 <= i < node_at(n, p).children.len(),
    ensures
        valid_path(n, p.push(i)),
        node_at(n, p.push(i)) == node_at(n, p).children[i],
    decreases p.len(),
{
    if p.len() == 0 {
        assert(p.push(i)[0] == i);
        assert(p.push(i).drop_first() =~= Seq::<int>::empty());
        assert(node_at(n.children[i], Seq::<int>::empty()) == n.children[i]);
        assert(valid_path(n.children[i], Seq::<int>::empty()));
    } else {
        lemma_path_push(n.children[p[0]], p.drop_first(), i);
        assert(p.push(i)[0] == p[0]);
        assert(p.push(i).drop_first() =~= p.drop_first().push(i));
        assert(valid_path(n.children[p[0]], p.drop_first().push(i)));
        assert(node_at(n, p.push(i)) == node_at(n.children[p[0]], p.drop_first().push(i)));
    }
}

/// Every prefix of a valid path is valid, the step index at its end is in
/// range there, and one more step lands on the selected child.
pub proof fn lemma_path_prefix(n: NodeV, p: Seq<int>, k: int)
    requires
        valid_path(n, p),
        0 <= k < p.len(),
    ensures
        valid_path(n, p.take(k)),
        valid_path(n, p.take(k + 1)),
        0 <= p[k] < node_at(n, p.take(k)).children.len(),
        node_at(n, p.take(k + 1)) == node_at(n, p.take(k)).children[p[k]],
    decreases k,
{
    if k == 0 {
        assert(p.take(0) =~= Seq::<int>::empty());
        assert(p.take(1) =~= Seq::<int>::empty().push(p[0]));
        lemma_path_push(n, Seq::<int>::empty(), p[0]);
    } else {
        lemma_path_prefix(n.children[p[0]], p.drop_first(), k - 1);
        assert(p.take(k).drop_first() =~= p.drop_first().take(k - 1));
        assert(p.take(k + 1).drop_first() =~= p.drop_first().take(k));
        assert(p.take(k)[0] == p[0] && p.take(k + 1)[0] == p[0]);
    }
}

/// A whole valid path, read as its last prefix plus one step.
pub proof fn lemma_path_last(n: NodeV, p: Seq<int>)
    requires
        valid_path(n, p),
        p.len() > 0,
    ensures
        valid_path(n, p.drop_last()),
        0 <= p.last() < node_at(n, p.drop_last()).children.len(),
        node_at(n, p) == node_at(n, p.drop_last()).children[p.last()],
{
    lemma_path_prefix(n, p, p.len() - 1);
    assert(p.take(p.len() - 1) =~= p.drop_last());
    assert(p.take(p.len() as int) =~= p);
}

/// A stateful pointer into a syntax tree, navigated child by child.
pub struct Cursor<'a> {
    root: &'a SynNode,
    path: Vec<usize>,
}

impl<'a> Cursor<'a> {
    /// The tree the cursor walks.
    pub closed spec fn root_spec(&self) -> NodeV {
        self.root@
    }

    /// The path of child indices from the root to the current node.
    pub closed spec fn path_spec(&self) -> Seq<int> {
        Seq::new(self.path@.len(), |i: int| self.path@[i] as int)
    }

    /// The cursor points at a node that exists in the tree.
    pub open spec fn wf(&self) -> bool {
        valid_path(self.root_spec(), self.path_spec())
    }

    /// The node the cursor currently points at.
    pub open spec fn cur(&self) -> NodeV {
        node_at(self.root_spec(), self.path_spec())
    }

    /// A new cursor, positioned at the root.
    pub fn new(root: &'a SynNode) -> (c: Cursor<'a>)
        ensures
            c.wf(),
            c.root_spec() == root@,
            c.path_spec() == Seq::<int>::empty(),
    {
        let c = Cursor { root, path: Vec::new() };
        proof {
            assert(c.path_spec() =~= Seq::<int>::empty());
        }
        c
    }

    /// The node the first `k` steps of the path lead to.
    fn node_upto(&self, k: usize) -> (r: &SynNode)
        requires
            self.wf(),
            k <= self.path_spec().len(),
        ensures
            r@ == node_at(self.root_spec(), self.path_spec().take(k as int)),
    {
        let mut cur: &SynNode = self.root;
        let mut i: usize = 0;
        proof {
            assert(self.path_spec().take(0) =~= Seq::<int>::empty());
        }
        while i < k
            invariant
                self.wf(),
                k <= self.path_spec().len(),
                0 <= i <= k,
                cur@ == node_at(self.root_spec(), self.path_spec().take(i as int)),
            decreases k - i,
        {
            proof {
                lemma_path_prefix(self.root_spec(), self.path_spec(), i as int);
            }
            cur = &cur.children[self.path[i]];
            i = i + 1;
        }
        cur
    }

    /// How many steps down from the root the cursor stands.
    pub fn depth(&self) -> (d: usize)
        ensures
            d as int == self.path_spec().len(),
    {
        self.path.len()
    }

    /// Reads the node the cursor points at.
    pub fn node(&self) -> (r: &SynNode)
        requires
            self.wf(),
        ensures
            r@ == self.cur(),
    {
        let r = self.node_upto(self.path.len());
        proof {
            assert(self.path_spec().take(self.path_spec().len() as int) =~= self.path_spec());
        }
        r
    }

    /// Moves to the current node's first child; reports whether one exists.
    pub fn goto_first_child(&mut self) -> (moved: bool)
        requires
            old(self).wf(),
        ensures
            final(self).wf(),
            final(self).root_spec() == old(self).root_spec(),
            moved == (old(self).cur().children.len() > 0),
            moved ==> final(self).path_spec() == old(self).path_spec().push(0),
            !moved ==> *final(self) == *old(self),
    {
        let has = self.node().children.len() > 0;
        if has {
            proof {
                lemma_path_push(self.root_spec(), self.path_spec(), 0);
            }
            self.path.push(0);
            proof {
                assert(self.path_spec() =~= old(self).path_spec().push(0));
            }
            true
        } else {
            false
        }
    }

    /// Moves to the current node's next sibling; reports whether one exists.
    pub fn goto_next_sibling(&mut self) -> (moved: bool)
        requires
            old(self).wf(),
        ensures
            final(self).wf(),
            final(self).root_spec() == old(self).root_spec(),
            moved == (old(self).path_spec().len() > 0 && old(self).path_spec().last() + 1
                < node_at(
                old(self).root_spec(),
                old(self).path_spec().drop_last(),
            ).children.len()),
            moved ==> final(self).path_spec() == old(self).path_spec().drop_last().push(
                old(self).path_spec().last() + 1,
            ),
            !moved ==> *final(self) == *old(self),
    {
        let len = self.path.len();
        if len == 0 {
            return false;
        }
        proof {
            lemma_path_last(self.root_spec(), self.path_spec());
            assert(self.path_spec().take(len - 1) =~= self.path_spec().drop_last());
        }
        let parent_width = self.node_upto(len - 1).children.len();
        let last = self.path[len - 1];
        assert(last < parent_width);
        let sib = last + 1;
        if sib < parent_width {
            proof {
                lemma_path_push(self.root_spec(), self.path_spec().drop_last(), sib as int);
            }
            let _ = self.path.pop();
            self.path.push(sib);
            proof {
                assert(self.path_spec() =~= old(self).path_spec().drop_last().push(sib as int));
            }
            true
        } else {
            false
        }
    }

    /// Moves to the current node's parent; reports whether one exists.
    pub fn goto_parent(&mut self) -> (moved: bool)
        requires
            old(self).wf(),
        ensures
            final(self).wf(),
            final(self).root_spec() == old(self).root_spec(),
            moved == (old(self).path_spec().len() > 0),
            moved ==> final(self).path_spec() == old(self).path_spec().drop_last(),
            !moved ==> *final(self) == *old(self),
    {
        if self.path.len() == 0 {
            return false;
        }
        proof {
            lemma_path_last(self.root_spec(), self.path_spec());
        }
        let _ = self.path.pop();
        proof {
            assert(self.path_spec() =~= old(self).path_spec().drop_last());
        }
        true
    }
}

} // verus!
