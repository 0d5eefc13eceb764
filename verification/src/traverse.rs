use vstd::prelude::*;

use crate::frontier::{
    lemma_post_rem_first, lemma_pre_rem_first, lemma_rem_at_root, lemma_step_climb,
    lemma_step_down, lemma_step_sibling, post_rem, pre_after, pre_rem,
};
use crate::order::Order;
use crate::tree::{
    count, lemma_count_child, lemma_subtree_snoc, lemma_valid_last, subtree, Cursor, SyntaxTree,
};
use crate::visit::{order_seq, postorder, preorder};

verus! {

/// Lazy pre-order traversal: each call of `next` hands out one node and
/// advances the cursor by a bounded number of primitive moves.
pub struct PreorderTraverse<'a> {
    cursor: Option<Cursor<'a>>,
}

/// Climb towards the root until some ancestor still has a next sibling, and
/// step onto that sibling; `true` when the root is reached instead, which
/// ends the traversal.  Entered only when the current node has no next
/// sibling, so in pre-order nothing below or beside it is owed any more.
fn climb_to_next_sibling(c: &mut Cursor) -> (done: bool)
    requires
        old(c).valid(),
        old(c).path@.len() > 0 ==> old(c).path@.last() as int + 1 == subtree(
            *old(c).tree,
            old(c).path@.drop_last(),
        ).children@.len(),
    ensures
        final(c).tree == old(c).tree,
        final(c).valid(),
        !done ==> pre_rem(*old(c).tree, final(c).path@) == pre_after(
            *old(c).tree,
            old(c).path@,
        ),
        done ==> pre_after(*old(c).tree, old(c).path@) == Seq::<usize>::empty(),
{
    let ghost t = *c.tree;
    let ghost a = pre_after(*c.tree, c.path@);
    loop
        invariant
            c.valid(),
            *c.tree == t,
            t == *old(c).tree,
            a == pre_after(*old(c).tree, old(c).path@),
            c.path@.len() > 0 ==> c.path@.last() as int + 1 == subtree(
                t,
                c.path@.drop_last(),
            ).children@.len(),
            pre_after(t, c.path@) == a,
        decreases c.path@.len(),
    {
        let ghost p = c.path@;
        if !c.goto_parent() {
            return true;
        }
        proof {
            assert(p =~= p.drop_last().push(p.last()));
            lemma_step_climb(t, p.drop_last(), p.last());
        }
        let ghost q = c.path@;
        if c.goto_next_sibling() {
            proof {
                assert(q =~= q.drop_last().push(q.last()));
                lemma_valid_last(t, q);
                lemma_step_sibling(t, q.drop_last(), q.last(), (q.last() + 1) as usize);
            }
            return false;
        }
        proof {
            if c.path@.len() > 0 {
                lemma_valid_last(t, c.path@);
            }
        }
    }
}

impl<'a> PreorderTraverse<'a> {
    /// The traversal's cursor, while it still has one, stands on a real node.
    pub closed spec fn inv(self) -> bool {
        match self.cursor {
            Option::Some(c) => c.valid(),
            Option::None => true,
        }
    }

    /// Everything this traversal has still to produce, in order.
    pub closed spec fn remaining(self) -> Seq<usize> {
        match self.cursor {
            Option::Some(c) => pre_rem(*c.tree, c.path@),
            Option::None => Seq::empty(),
        }
    }

    /// A fresh pre-order traversal owes exactly the pre-order listing.
    pub fn new(tree: &'a SyntaxTree) -> (s: Self)
        ensures
            s.inv(),
            s.remaining() == preorder(*tree),
    {
        let s = PreorderTraverse { cursor: Some(tree.walk()) };
        proof {
            lemma_rem_at_root(*tree);
        }
        s
    }

    /// Produce the next node in pre-order, or nothing once exhausted;
    /// an exhausted traversal stays exhausted.
    pub fn next(&mut self) -> (r: Option<usize>)
        requires
            old(self).inv(),
        ensures
            final(self).inv(),
            old(self).remaining().len() == 0 ==> r == Option::<usize>::None
                && final(self).remaining() == old(self).remaining(),
            old(self).remaining().len() > 0 ==> r == Option::Some(old(self).remaining()[0])
                && final(self).remaining() == old(self).remaining().drop_first(),
    {
        let node: usize;
        let mut done: bool = false;
        match &mut self.cursor {
            Option::None => {
                return None;
            },
            Option::Some(c) => {
                let ghost t = *c.tree;
                let ghost p0 = c.path@;
                proof {
                    lemma_pre_rem_first(t, p0);
                }
                node = c.node();
                if c.goto_first_child() {
                    proof {
                        lemma_step_down(t, p0);
                    }
                } else if c.goto_next_sibling() {
                    proof {
                        assert(p0 =~= p0.drop_last().push(p0.last()));
                        lemma_valid_last(t, p0);
                        lemma_step_sibling(t, p0.drop_last(), p0.last(), (p0.last() + 1) as usize);
                    }
                } else {
                    proof {
                        if p0.len() > 0 {
                            lemma_valid_last(t, p0);
                        }
                    }
                    done = climb_to_next_sibling(c);
                }
            },
        }
        if done {
            self.cursor = None;
        }
        Some(node)
    }
}

/// Lazy post-order traversal.  Besides the cursor it remembers whether it is
/// retracing: climbing back up through nodes whose subtrees are already
/// produced, which must not be descended into again.
pub struct PostorderTraverse<'a> {
    cursor: Option<Cursor<'a>>,
    retracing: bool,
}

impl<'a> PostorderTraverse<'a> {
    /// The traversal's cursor, while it still has one, stands on a real node.
    pub closed spec fn inv(self) -> bool {
        match self.cursor {
            Option::Some(c) => c.valid(),
            Option::None => true,
        }
    }

    /// Everything this traversal has still to produce, in order.
    pub closed spec fn remaining(self) -> Seq<usize> {
        match self.cursor {
            Option::Some(c) => post_rem(*c.tree, c.path@, self.retracing),
            Option::None => Seq::empty(),
        }
    }

    /// A fresh post-order traversal owes exactly the post-order listing.
    pub fn new(tree: &'a SyntaxTree) -> (s: Self)
        ensures
            s.inv(),
            s.remaining() == postorder(*tree),
    {
        let s = PostorderTraverse { cursor: Some(tree.walk()), retracing: false };
        proof {
            lemma_rem_at_root(*tree);
        }
        s
    }

    /// Produce the next node in post-order, or nothing once exhausted;
    /// an exhausted traversal stays exhausted.
    pub fn next(&mut self) -> (r: Option<usize>)
        requires
            old(self).inv(),
        ensures
            final(self).inv(),
            old(self).remaining().len() == 0 ==> r == Option::<usize>::None
                && final(self).remaining() == old(self).remaining(),
            old(self).remaining().len() > 0 ==> r == Option::Some(old(self).remaining()[0])
                && final(self).remaining() == old(self).remaining().drop_first(),
    {
        let node: usize;
        let mut done: bool = false;
        let retr = self.retracing;
        match &mut self.cursor {
            Option::None => {
                return None;
            },
            Option::Some(c) => {
                let ghost t = *c.tree;
                let ghost rem0 = post_rem(*c.tree, c.path@, retr);
                if !retr {
                    // Descend to the leftmost leaf below the current node: it
                    // is the next node whose subtree is completely produced.
                    loop
                        invariant
                            c.valid(),
                            *c.tree == t,
                            post_rem(t, c.path@, false) == rem0,
                        ensures
                            c.valid(),
                            *c.tree == t,
                            post_rem(t, c.path@, false) == rem0,
                            subtree(t, c.path@).children@.len() == 0,
                        decreases count(subtree(t, c.path@)),
                    {
                        let ghost p = c.path@;
                        if !c.goto_first_child() {
                            break;
                        }
                        proof {
                            lemma_step_down(t, p);
                            lemma_subtree_snoc(t, p, 0);
                            lemma_count_child(subtree(t, p), 0);
                        }
                    }
                }
                let ghost p1 = c.path@;
                proof {
                    lemma_post_rem_first(t, p1, retr);
                }
                node = c.node();
                if c.goto_next_sibling() {
                    self.retracing = false;
                    proof {
                        assert(p1 =~= p1.drop_last().push(p1.last()));
                        lemma_valid_last(t, p1);
                        lemma_step_sibling(t, p1.drop_last(), p1.last(), (p1.last() + 1) as usize);
                    }
                } else {
                    self.retracing = true;
                    proof {
                        if p1.len() > 0 {
                            lemma_valid_last(t, p1);
                        }
                    }
                    if !c.goto_parent() {
                        done = true;
                    } else {
                        proof {
                            assert(p1 =~= p1.drop_last().push(p1.last()));
                            lemma_step_climb(t, p1.drop_last(), p1.last());
                        }
                    }
                }
            },
        }
        if done {
            self.cursor = None;
        }
        Some(node)
    }
}

enum TraverseInner<'a> {
    Post(PostorderTraverse<'a>),
    Pre(PreorderTraverse<'a>),
}

/// Lazy traversal in either order: a tagged pair of the two machines,
/// selected once at construction.
pub struct Traverse<'a> {
    inner: TraverseInner<'a>,
}

impl<'a> Traverse<'a> {
    /// The selected machine's own invariant.
    pub closed spec fn inv(self) -> bool {
        match self.inner {
            TraverseInner::Post(it) => it.inv(),
            TraverseInner::Pre(it) => it.inv(),
        }
    }

    /// Everything this traversal has still to produce, in order.
    pub closed spec fn remaining(self) -> Seq<usize> {
        match self.inner {
            TraverseInner::Post(it) => it.remaining(),
            TraverseInner::Pre(it) => it.remaining(),
        }
    }

    /// A fresh traversal owes exactly the listing of the chosen order.
    pub fn new(tree: &'a SyntaxTree, order: Order) -> (s: Self)
        ensures
            s.inv(),
            s.remaining() == order_seq(*tree, order),
    {
        let inner = match order {
            Order::Pre => TraverseInner::Pre(PreorderTraverse::new(tree)),
            Order::Post => TraverseInner::Post(PostorderTraverse::new(tree)),
        };
        Traverse { inner }
    }

    /// Produce the next node in the chosen order, or nothing once exhausted;
    /// an exhausted traversal stays exhausted.
    pub fn next(&mut self) -> (r: Option<usize>)
        requires
            old(self).inv(),
        ensures
            final(self).inv(),
            old(self).remaining().len() == 0 ==> r == Option::<usize>::None
                && final(self).remaining() == old(self).remaining(),
            old(self).remaining().len() > 0 ==> r == Option::Some(old(self).remaining()[0])
                && final(self).remaining() == old(self).remaining().drop_first(),
    {
        match &mut self.inner {
            TraverseInner::Post(it) => it.next(),
            TraverseInner::Pre(it) => it.next(),
        }
    }
}

/// Lazy, forward-only traversal of a tree in the given order.
pub fn traverse_iter<'a>(tree: &'a SyntaxTree, order: Order) -> (s: Traverse<'a>)
    ensures
        s.inv(),
        s.remaining() == order_seq(*tree, order),
{
    Traverse::new(tree, order)
}

} // verus!
