use vstd::prelude::*;

use crate::tree::{count, count_seq, subtree, valid_path, SyntaxTree};
use crate::order::Order;
use crate::visit::{
    lemma_order_len, lemma_order_seq_len, order_seq, postorder, postorder_seq, preorder,
    preorder_seq,
};

verus! {

/// Position of the node addressed by a path within the pre-order listing.
pub open spec fn pre_index(t: SyntaxTree, p: Seq<usize>) -> int
    decreases p.len(),
{
    if p.len() == 0 {
        0
    } else {
        1 + count_seq(t.children@.take(p[0] as int)) + pre_index(
            t.children@[p[0] as int],
            p.skip(1),
        )
    }
}

/// Position of the node addressed by a path within the post-order listing.
pub open spec fn post_index(t: SyntaxTree, p: Seq<usize>) -> int
    decreases p.len(),
{
    if p.len() == 0 {
        count(t) - 1
    } else {
        count_seq(t.children@.take(p[0] as int)) + post_index(t.children@[p[0] as int], p.skip(1))
    }
}

/// Appending one tree to a forest adds its node count.
proof fn lemma_count_seq_snoc(ts: Seq<SyntaxTree>, x: SyntaxTree)
    ensures
        count_seq(ts.push(x)) == count_seq(ts) + count(x),
    decreases ts,
{
    if ts.len() == 0 {
        assert(ts.push(x)[0] == x);
        assert(ts.push(x).skip(1) =~= Seq::<SyntaxTree>::empty());
        assert(count_seq(ts.push(x).skip(1)) == 0);
    } else {
        assert(ts.push(x)[0] == ts[0]);
        assert(ts.push(x).skip(1) =~= ts.skip(1).push(x));
        lemma_count_seq_snoc(ts.skip(1), x);
    }
}

/// One more taken element adds that element's node count.
proof fn lemma_count_seq_take_unfold(ts: Seq<SyntaxTree>, i: int)
    requires
        0 <= i < ts.len(),
    ensures
        count_seq(ts.take(i + 1)) == count_seq(ts.take(i)) + count(ts[i]),
{
    assert(ts.take(i + 1) =~= ts.take(i).push(ts[i]));
    lemma_count_seq_snoc(ts.take(i), ts[i]);
}

/// Taking more of a forest never loses nodes.
proof fn lemma_count_seq_take_mono(ts: Seq<SyntaxTree>, i: int, j: int)
    requires
        0 <= i <= j <= ts.len(),
    ensures
        count_seq(ts.take(i)) <= count_seq(ts.take(j)),
    decreases j - i,
{
    if i < j {
        lemma_count_seq_take_mono(ts, i, j - 1);
        lemma_count_seq_take_unfold(ts, j - 1);
    }
}

/// Taking the whole forest counts the whole forest.
proof fn lemma_count_seq_take_all(ts: Seq<SyntaxTree>)
    ensures
        count_seq(ts.take(ts.len() as int)) == count_seq(ts),
{
    assert(ts.take(ts.len() as int) =~= ts);
}

/// The pre-order position of a valid path lies inside the listing, and only
/// the root sits at position zero.
pub proof fn lemma_pre_index_range(t: SyntaxTree, p: Seq<usize>)
    requires
        valid_path(t, p),
    ensures
        0 <= pre_index(t, p) < count(t),
        p.len() > 0 ==> 1 <= pre_index(t, p),
    decreases p.len(),
{
    if p.len() > 0 {
        let i = p[0] as int;
        lemma_pre_index_range(t.children@[i], p.skip(1));
        lemma_count_seq_take_unfold(t.children@, i);
        lemma_count_seq_take_mono(t.children@, i + 1, t.children@.len() as int);
        lemma_count_seq_take_all(t.children@);
    }
}

/// The post-order position of a valid path lies inside the listing, and only
/// the root sits at the last position.
pub proof fn lemma_post_index_range(t: SyntaxTree, p: Seq<usize>)
    requires
        valid_path(t, p),
    ensures
        0 <= post_index(t, p) <= count(t) - 1,
        p.len() > 0 ==> post_index(t, p) <= count(t) - 2,
    decreases p.len(),
{
    if p.len() > 0 {
        let i = p[0] as int;
        lemma_post_index_range(t.children@[i], p.skip(1));
        lemma_count_seq_take_unfold(t.children@, i);
        lemma_count_seq_take_mono(t.children@, i + 1, t.children@.len() as int);
        lemma_count_seq_take_all(t.children@);
    }
}

/// Pre-order positions compose along path concatenation.
pub proof fn lemma_pre_index_concat(t: SyntaxTree, q: Seq<usize>, r: Seq<usize>)
    requires
        valid_path(t, q),
        valid_path(subtree(t, q), r),
    ensures
        valid_path(t, q + r),
        pre_index(t, q + r) == pre_index(t, q) + pre_index(subtree(t, q), r),
    decreases q.len(),
{
    if q.len() == 0 {
        assert(q + r =~= r);
    } else {
        assert((q + r)[0] == q[0]);
        assert((q + r).skip(1) =~= q.skip(1) + r);
        lemma_pre_index_concat(t.children@[q[0] as int], q.skip(1), r);
    }
}

/// Post-order positions compose along path concatenation.
pub proof fn lemma_post_index_concat(t: SyntaxTree, q: Seq<usize>, r: Seq<usize>)
    requires
        valid_path(t, q),
        valid_path(subtree(t, q), r),
    ensures
        valid_path(t, q + r),
        post_index(t, q + r) == post_index(t, q) - count(subtree(t, q)) + 1 + post_index(
            subtree(t, q),
            r,
        ),
    decreases q.len(),
{
    if q.len() == 0 {
        assert(q + r =~= r);
    } else {
        assert((q + r)[0] == q[0]);
        assert((q + r).skip(1) =~= q.skip(1) + r);
        lemma_post_index_concat(t.children@[q[0] as int], q.skip(1), r);
    }
}

/// Reading a forest's pre-order listing inside the block of one element.
proof fn lemma_preorder_seq_index(ts: Seq<SyntaxTree>, i: int, k: int)
    requires
        0 <= i < ts.len(),
        0 <= k < preorder(ts[i]).len(),
    ensures
        0 <= count_seq(ts.take(i)) + k < preorder_seq(ts).len(),
        preorder_seq(ts)[count_seq(ts.take(i)) + k] == preorder(ts[i])[k],
    decreases i,
{
    lemma_order_seq_len(ts);
    lemma_order_len(ts[i]);
    lemma_count_seq_take_unfold(ts, i);
    lemma_count_seq_take_mono(ts, i + 1, ts.len() as int);
    lemma_count_seq_take_all(ts);
    if i == 0 {
        assert(ts.take(0) =~= Seq::<SyntaxTree>::empty());
        assert(count_seq(ts.take(0)) == 0);
    } else {
        lemma_preorder_seq_index(ts.skip(1), i - 1, k);
        assert(ts.skip(1)[i - 1] == ts[i]);
        assert(ts.take(i)[0] == ts[0]);
        assert(ts.take(i).skip(1) =~= ts.skip(1).take(i - 1));
        lemma_order_len(ts[0]);
    }
}

/// Reading a forest's post-order listing inside the block of one element.
proof fn lemma_postorder_seq_index(ts: Seq<SyntaxTree>, i: int, k: int)
    requires
        0 <= i < ts.len(),
        0 <= k < postorder(ts[i]).len(),
    ensures
        0 <= count_seq(ts.take(i)) + k < postorder_seq(ts).len(),
        postorder_seq(ts)[count_seq(ts.take(i)) + k] == postorder(ts[i])[k],
    decreases i,
{
    lemma_order_seq_len(ts);
    lemma_order_len(ts[i]);
    lemma_count_seq_take_unfold(ts, i);
    lemma_count_seq_take_mono(ts, i + 1, ts.len() as int);
    lemma_count_seq_take_all(ts);
    if i == 0 {
        assert(ts.take(0) =~= Seq::<SyntaxTree>::empty());
        assert(count_seq(ts.take(0)) == 0);
    } else {
        lemma_postorder_seq_index(ts.skip(1), i - 1, k);
        assert(ts.skip(1)[i - 1] == ts[i]);
        assert(ts.take(i)[0] == ts[0]);
        assert(ts.take(i).skip(1) =~= ts.skip(1).take(i - 1));
        lemma_order_len(ts[0]);
    }
}

/// Each listing reads, at a node's position, that node's identity.
pub proof fn lemma_index_id(t: SyntaxTree, p: Seq<usize>)
    requires
        valid_path(t, p),
    ensures
        0 <= pre_index(t, p) < preorder(t).len(),
        preorder(t)[pre_index(t, p)] == subtree(t, p).id,
        0 <= post_index(t, p) < postorder(t).len(),
        postorder(t)[post_index(t, p)] == subtree(t, p).id,
    decreases p.len(),
{
    lemma_order_len(t);
    lemma_order_seq_len(t.children@);
    lemma_pre_index_range(t, p);
    lemma_post_index_range(t, p);
    if p.len() == 0 {
        assert(preorder(t)[0] == seq![t.id][0]);
        assert(postorder(t)[count(t) - 1] == seq![t.id][0]);
    } else {
        let i = p[0] as int;
        let c = t.children@[i];
        lemma_index_id(c, p.skip(1));
        lemma_pre_index_range(c, p.skip(1));
        lemma_post_index_range(c, p.skip(1));
        lemma_order_len(c);
        lemma_preorder_seq_index(t.children@, i, pre_index(c, p.skip(1)));
        lemma_postorder_seq_index(t.children@, i, post_index(c, p.skip(1)));
    }
}

/// Order correctness: in pre-order a node stands strictly before every one of
/// its proper descendants, and in post-order strictly after every one of them.
pub proof fn lemma_order_correctness(t: SyntaxTree, p: Seq<usize>, r: Seq<usize>)
    requires
        valid_path(t, p),
        valid_path(subtree(t, p), r),
        r.len() > 0,
    ensures
        valid_path(t, p + r),
        pre_index(t, p) < pre_index(t, p + r) < count(t),
        0 <= post_index(t, p + r) < post_index(t, p),
{
    lemma_pre_index_concat(t, p, r);
    lemma_post_index_concat(t, p, r);
    lemma_pre_index_range(subtree(t, p), r);
    lemma_post_index_range(subtree(t, p), r);
    lemma_pre_index_range(t, p + r);
    lemma_post_index_range(t, p + r);
}

/// Sibling order: the whole block of a left sibling's subtree stands before
/// the whole block of a right sibling's subtree, in both orders.
pub proof fn lemma_sibling_blocks(
    t: SyntaxTree,
    q: Seq<usize>,
    i: usize,
    j: usize,
    ra: Seq<usize>,
    rb: Seq<usize>,
)
    requires
        valid_path(t, q),
        (i as int) < (j as int),
        (j as int) < subtree(t, q).children@.len(),
        valid_path(subtree(t, q).children@[i as int], ra),
        valid_path(subtree(t, q).children@[j as int], rb),
    ensures
        valid_path(t, q.push(i) + ra),
        valid_path(t, q.push(j) + rb),
        pre_index(t, q.push(i) + ra) < pre_index(t, q.push(j) + rb),
        post_index(t, q.push(i) + ra) < post_index(t, q.push(j) + rb),
{
    let s = subtree(t, q);
    let cs = s.children@;
    let ri = seq![i] + ra;
    let rj = seq![j] + rb;
    assert(ri[0] == i);
    assert(ri.skip(1) =~= ra);
    assert(rj[0] == j);
    assert(rj.skip(1) =~= rb);
    assert(q.push(i) + ra =~= q + ri);
    assert(q.push(j) + rb =~= q + rj);
    lemma_pre_index_concat(t, q, ri);
    lemma_pre_index_concat(t, q, rj);
    lemma_post_index_concat(t, q, ri);
    lemma_post_index_concat(t, q, rj);
    lemma_pre_index_range(cs[i as int], ra);
    lemma_pre_index_range(cs[j as int], rb);
    lemma_post_index_range(cs[i as int], ra);
    lemma_post_index_range(cs[j as int], rb);
    lemma_count_seq_take_unfold(cs, i as int);
    lemma_count_seq_take_mono(cs, i as int + 1, j as int);
}

/// Equivalence: whatever listings the recursive walker, the iterative walker
/// and a fully consumed lazy sequence return for one tree and one order --
/// each is pinned by its contract to the listing of that order -- the three
/// are equal.
pub proof fn lemma_equivalence(
    t: SyntaxTree,
    order: Order,
    recursive: Seq<usize>,
    iterative: Seq<usize>,
    lazy: Seq<usize>,
)
    requires
        recursive == order_seq(t, order),
        iterative == order_seq(t, order),
        lazy == order_seq(t, order),
    ensures
        recursive == iterative,
        iterative == lazy,
{
}

} // verus!
