use vstd::prelude::*;

use crate::tree::{subtree, valid_path, SyntaxTree};
use crate::visit::{
    lemma_preorder_seq_skip, lemma_postorder_seq_skip, postorder, postorder_seq, preorder,
    preorder_seq,
};

verus! {

/// Everything that follows the subtree at a path in the pre-order listing:
/// the later siblings at each level, the deepest level first.
pub open spec fn pre_after(t: SyntaxTree, p: Seq<usize>) -> Seq<usize>
    decreases p.len(),
{
    if p.len() == 0 {
        Seq::empty()
    } else {
        pre_after(t.children@[p[0] as int], p.skip(1)) + preorder_seq(
            t.children@.skip(p[0] as int + 1),
        )
    }
}

/// Everything that follows the subtree at a path in the post-order listing:
/// at each level, the later siblings and then that level's parent.
pub open spec fn post_after(t: SyntaxTree, p: Seq<usize>) -> Seq<usize>
    decreases p.len(),
{
    if p.len() == 0 {
        Seq::empty()
    } else {
        post_after(t.children@[p[0] as int], p.skip(1)) + postorder_seq(
            t.children@.skip(p[0] as int + 1),
        ) + seq![t.id]
    }
}

/// What a pre-order traversal standing at a path has still to produce.
pub open spec fn pre_rem(t: SyntaxTree, p: Seq<usize>) -> Seq<usize> {
    preorder(subtree(t, p)) + pre_after(t, p)
}

/// What a post-order traversal standing at a path has still to produce.
/// While retracing, the subtree below the path is already produced and only
/// its root is still owed.
pub open spec fn post_rem(t: SyntaxTree, p: Seq<usize>, retracing: bool) -> Seq<usize> {
    (if retracing {
        seq![subtree(t, p).id]
    } else {
        postorder(subtree(t, p))
    }) + post_after(t, p)
}

/// Peeling the last step off a path splits off that level's later siblings.
pub proof fn lemma_pre_after_snoc(t: SyntaxTree, q: Seq<usize>, j: usize)
    requires
        valid_path(t, q),
        (j as int) < subtree(t, q).children@.len(),
    ensures
        pre_after(t, q.push(j)) == preorder_seq(subtree(t, q).children@.skip(j as int + 1))
            + pre_after(t, q),
    decreases q.len(),
{
    if q.len() == 0 {
        assert(q.push(j)[0] == j);
        assert(q.push(j).skip(1) =~= Seq::<usize>::empty());
        assert(pre_after(t.children@[j as int], q.push(j).skip(1)).len() == 0);
        assert(pre_after(t, q.push(j)) =~= preorder_seq(subtree(t, q).children@.skip(j as int + 1))
            + pre_after(t, q));
    } else {
        assert(q.push(j)[0] == q[0]);
        assert(q.push(j).skip(1) =~= q.skip(1).push(j));
        lemma_pre_after_snoc(t.children@[q[0] as int], q.skip(1), j);
        assert(pre_after(t, q.push(j)) =~= preorder_seq(subtree(t, q).children@.skip(j as int + 1))
            + pre_after(t, q));
    }
}

/// Peeling the last step off a path, post-order form: that level's later
/// siblings, then the parent itself.
pub proof fn lemma_post_after_snoc(t: SyntaxTree, q: Seq<usize>, j: usize)
    requires
        valid_path(t, q),
        (j as int) < subtree(t, q).children@.len(),
    ensures
        post_after(t, q.push(j)) == postorder_seq(subtree(t, q).children@.skip(j as int + 1))
            + seq![subtree(t, q).id] + post_after(t, q),
    decreases q.len(),
{
    if q.len() == 0 {
        assert(q.push(j)[0] == j);
        assert(q.push(j).skip(1) =~= Seq::<usize>::empty());
        assert(post_after(t.children@[j as int], q.push(j).skip(1)).len() == 0);
        assert(post_after(t, q.push(j)) =~= postorder_seq(
            subtree(t, q).children@.skip(j as int + 1),
        ) + seq![subtree(t, q).id] + post_after(t, q));
    } else {
        assert(q.push(j)[0] == q[0]);
        assert(q.push(j).skip(1) =~= q.skip(1).push(j));
        lemma_post_after_snoc(t.children@[q[0] as int], q.skip(1), j);
        assert(post_after(t, q.push(j)) =~= postorder_seq(
            subtree(t, q).children@.skip(j as int + 1),
        ) + seq![subtree(t, q).id] + post_after(t, q));
    }
}

/// A valid position still owes its own node first, in pre-order.
pub proof fn lemma_pre_rem_first(t: SyntaxTree, p: Seq<usize>)
    requires
        valid_path(t, p),
    ensures
        pre_rem(t, p).len() > 0,
        pre_rem(t, p)[0] == subtree(t, p).id,
        subtree(t, p).children@.len() == 0 ==> pre_rem(t, p).drop_first() == pre_after(t, p),
{
    let s = subtree(t, p);
    assert(preorder(s)[0] == seq![s.id][0]);
    if s.children@.len() == 0 {
        assert(preorder(s) =~= seq![s.id]);
        assert(pre_rem(t, p).drop_first() =~= pre_after(t, p));
    }
}

/// A position that is retracing, or stands on a leaf, owes its own node
/// first, in post-order.
pub proof fn lemma_post_rem_first(t: SyntaxTree, p: Seq<usize>, retracing: bool)
    requires
        valid_path(t, p),
        retracing || subtree(t, p).children@.len() == 0,
    ensures
        post_rem(t, p, retracing).len() > 0,
        post_rem(t, p, retracing)[0] == subtree(t, p).id,
        post_rem(t, p, retracing).drop_first() == post_after(t, p),
{
    let s = subtree(t, p);
    if retracing {
        assert(post_rem(t, p, retracing).drop_first() =~= post_after(t, p));
    } else {
        assert(postorder(s) =~= seq![s.id]);
        assert(post_rem(t, p, retracing).drop_first() =~= post_after(t, p));
    }
}

/// Stepping down to the first child: pre-order hands out the parent and keeps
/// the rest; post-order keeps everything.
pub proof fn lemma_step_down(t: SyntaxTree, p: Seq<usize>)
    requires
        valid_path(t, p),
        subtree(t, p).children@.len() > 0,
    ensures
        valid_path(t, p.push(0)),
        pre_rem(t, p.push(0)) == pre_rem(t, p).drop_first(),
        post_rem(t, p.push(0), false) == post_rem(t, p, false),
{
    let s = subtree(t, p);
    let cs = s.children@;
    crate::tree::lemma_valid_snoc(t, p, 0);
    crate::tree::lemma_subtree_snoc(t, p, 0);
    lemma_pre_after_snoc(t, p, 0);
    lemma_post_after_snoc(t, p, 0);
    lemma_preorder_seq_skip(cs, 0);
    lemma_postorder_seq_skip(cs, 0);
    assert(cs.skip(0) =~= cs);
    assert(preorder(s)[0] == seq![s.id][0]);
    assert(pre_rem(t, p.push(0)) =~= pre_rem(t, p).drop_first());
    assert(post_rem(t, p.push(0), false) =~= post_rem(t, p, false));
}

/// Stepping to the next sibling: what was left over at the old position is
/// exactly what a fresh traversal of the sibling's subtree will produce.
pub proof fn lemma_step_sibling(t: SyntaxTree, q: Seq<usize>, j: usize, k: usize)
    requires
        valid_path(t, q),
        (j as int) < subtree(t, q).children@.len(),
        k as int == j as int + 1,
        (k as int) < subtree(t, q).children@.len(),
    ensures
        valid_path(t, q.push(k)),
        pre_rem(t, q.push(k)) == pre_after(t, q.push(j)),
        post_rem(t, q.push(k), false) == post_after(t, q.push(j)),
{
    let s = subtree(t, q);
    let cs = s.children@;
    crate::tree::lemma_valid_snoc(t, q, j);
    crate::tree::lemma_valid_snoc(t, q, k);
    crate::tree::lemma_subtree_snoc(t, q, k);
    lemma_pre_after_snoc(t, q, j);
    lemma_pre_after_snoc(t, q, k);
    lemma_post_after_snoc(t, q, j);
    lemma_post_after_snoc(t, q, k);
    lemma_preorder_seq_skip(cs, j as int + 1);
    lemma_postorder_seq_skip(cs, j as int + 1);
    assert(pre_rem(t, q.push(k)) =~= pre_after(t, q.push(j)));
    assert(post_rem(t, q.push(k), false) =~= post_after(t, q.push(j)));
}

/// Climbing from a last child: pre-order has nothing more at that level;
/// post-order still owes the parent.
pub proof fn lemma_step_climb(t: SyntaxTree, q: Seq<usize>, j: usize)
    requires
        valid_path(t, q),
        (j as int) < subtree(t, q).children@.len(),
        j as int + 1 == subtree(t, q).children@.len(),
    ensures
        pre_after(t, q.push(j)) == pre_after(t, q),
        post_after(t, q.push(j)) == post_rem(t, q, true),
{
    let s = subtree(t, q);
    let cs = s.children@;
    lemma_pre_after_snoc(t, q, j);
    lemma_post_after_snoc(t, q, j);
    assert(cs.skip(j as int + 1) =~= Seq::<SyntaxTree>::empty());
    assert(preorder_seq(cs.skip(j as int + 1)).len() == 0);
    assert(postorder_seq(cs.skip(j as int + 1)).len() == 0);
    assert(pre_after(t, q.push(j)) =~= pre_after(t, q));
    assert(post_after(t, q.push(j)) =~= post_rem(t, q, true));
}

/// At the root the traversal owes nothing beyond the root's own subtree.
pub proof fn lemma_rem_at_root(t: SyntaxTree)
    ensures
        pre_rem(t, Seq::empty()) == preorder(t),
        post_rem(t, Seq::empty(), false) == postorder(t),
        post_rem(t, Seq::empty(), true) == seq![t.id],
{
    assert(pre_rem(t, Seq::empty()) =~= preorder(t));
    assert(post_rem(t, Seq::empty(), false) =~= postorder(t));
    assert(post_rem(t, Seq::empty(), true) =~= seq![t.id]);
}

} // verus!
