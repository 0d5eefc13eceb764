use vstd::multiset::Multiset;
use vstd::prelude::*;

use crate::order::Order;
use crate::tree::{count, count_seq, subtree, valid_path, SyntaxTree};

verus! {

/// The pre-order listing of a tree: the root before all of its descendants,
/// children in left-to-right order.
pub open spec fn preorder(t: SyntaxTree) -> Seq<usize>
    decreases t,
{
    seq![t.id] + preorder_seq(t.children@)
}

/// Pre-order listing of a forest.
pub open spec fn preorder_seq(ts: Seq<SyntaxTree>) -> Seq<usize>
    decreases ts,
{
    if ts.len() == 0 {
        Seq::empty()
    } else {
        preorder(ts[0]) + preorder_seq(ts.skip(1))
    }
}

/// The post-order listing of a tree: the root after all of its descendants,
/// children in left-to-right order.
pub open spec fn postorder(t: SyntaxTree) -> Seq<usize>
    decreases t,
{
    postorder_seq(t.children@) + seq![t.id]
}

/// Post-order listing of a forest.
pub open spec fn postorder_seq(ts: Seq<SyntaxTree>) -> Seq<usize>
    decreases ts,
{
    if ts.len() == 0 {
        Seq::empty()
    } else {
        postorder(ts[0]) + postorder_seq(ts.skip(1))
    }
}

/// The listing a traversal in the given order must produce.
pub open spec fn order_seq(t: SyntaxTree, order: Order) -> Seq<usize> {
    match order {
        Order::Pre => preorder(t),
        Order::Post => postorder(t),
    }
}

/// Listing of a forest in the given order.
pub open spec fn order_seq_list(ts: Seq<SyntaxTree>, order: Order) -> Seq<usize> {
    match order {
        Order::Pre => preorder_seq(ts),
        Order::Post => postorder_seq(ts),
    }
}

/// Splitting a forest listing at any element.
pub proof fn lemma_preorder_seq_skip(ts: Seq<SyntaxTree>, i: int)
    requires
        0 <= i < ts.len(),
    ensures
        preorder_seq(ts.skip(i)) == preorder(ts[i]) + preorder_seq(ts.skip(i + 1)),
{
    assert(ts.skip(i)[0] == ts[i]);
    assert(ts.skip(i).skip(1) =~= ts.skip(i + 1));
}

/// Splitting a forest listing at any element, post-order form.
pub proof fn lemma_postorder_seq_skip(ts: Seq<SyntaxTree>, i: int)
    requires
        0 <= i < ts.len(),
    ensures
        postorder_seq(ts.skip(i)) == postorder(ts[i]) + postorder_seq(ts.skip(i + 1)),
{
    assert(ts.skip(i)[0] == ts[i]);
    assert(ts.skip(i).skip(1) =~= ts.skip(i + 1));
}

/// Appending one tree to a forest appends its listing, pre-order form.
pub proof fn lemma_preorder_seq_snoc(ts: Seq<SyntaxTree>, x: SyntaxTree)
    ensures
        preorder_seq(ts.push(x)) == preorder_seq(ts) + preorder(x),
    decreases ts,
{
    if ts.len() == 0 {
        assert(ts.push(x)[0] == x);
        assert(ts.push(x).skip(1) =~= Seq::<SyntaxTree>::empty());
        assert(preorder_seq(ts.push(x).skip(1)).len() == 0);
        assert(preorder_seq(ts).len() == 0);
        assert(preorder_seq(ts.push(x)) =~= preorder_seq(ts) + preorder(x));
    } else {
        assert(ts.push(x)[0] == ts[0]);
        assert(ts.push(x).skip(1) =~= ts.skip(1).push(x));
        lemma_preorder_seq_snoc(ts.skip(1), x);
        assert(preorder_seq(ts.push(x)) == preorder(ts[0]) + preorder_seq(ts.skip(1).push(x)));
        assert(preorder_seq(ts.push(x)) =~= preorder_seq(ts) + preorder(x));
    }
}

/// Appending one tree to a forest appends its listing, post-order form.
pub proof fn lemma_postorder_seq_snoc(ts: Seq<SyntaxTree>, x: SyntaxTree)
    ensures
        postorder_seq(ts.push(x)) == postorder_seq(ts) + postorder(x),
    decreases ts,
{
    if ts.len() == 0 {
        assert(ts.push(x)[0] == x);
        assert(ts.push(x).skip(1) =~= Seq::<SyntaxTree>::empty());
        assert(postorder_seq(ts.push(x).skip(1)).len() == 0);
        assert(postorder_seq(ts).len() == 0);
        assert(postorder_seq(ts.push(x)) =~= postorder_seq(ts) + postorder(x));
    } else {
        assert(ts.push(x)[0] == ts[0]);
        assert(ts.push(x).skip(1) =~= ts.skip(1).push(x));
        lemma_postorder_seq_snoc(ts.skip(1), x);
        assert(postorder_seq(ts.push(x)) == postorder(ts[0]) + postorder_seq(ts.skip(1).push(x)));
        assert(postorder_seq(ts.push(x)) =~= postorder_seq(ts) + postorder(x));
    }
}

/// Both listings of a tree are as long as the tree has nodes.
pub proof fn lemma_order_len(t: SyntaxTree)
    ensures
        preorder(t).len() == count(t),
        postorder(t).len() == count(t),
    decreases t,
{
    lemma_order_seq_len(t.children@);
}

/// Both listings of a forest are as long as the forest has nodes.
pub proof fn lemma_order_seq_len(ts: Seq<SyntaxTree>)
    ensures
        preorder_seq(ts).len() == count_seq(ts),
        postorder_seq(ts).len() == count_seq(ts),
    decreases ts,
{
    if ts.len() > 0 {
        lemma_order_len(ts[0]);
        lemma_order_seq_len(ts.skip(1));
    }
}

/// The nodes of a tree, with multiplicity.
pub open spec fn node_multiset(t: SyntaxTree) -> Multiset<usize>
    decreases t,
{
    node_multiset_seq(t.children@).insert(t.id)
}

/// The nodes of a forest, with multiplicity.
pub open spec fn node_multiset_seq(ts: Seq<SyntaxTree>) -> Multiset<usize>
    decreases ts,
{
    if ts.len() == 0 {
        Multiset::empty()
    } else {
        node_multiset(ts[0]).add(node_multiset_seq(ts.skip(1)))
    }
}

/// An empty listing carries an empty multiset.
proof fn lemma_to_multiset_empty()
    ensures
        Seq::<usize>::empty().to_multiset() == Multiset::<usize>::empty(),
{
    broadcast use vstd::seq_lib::group_to_multiset_ensures;
    broadcast use vstd::multiset::group_multiset_axioms;

    assert forall|a: usize| Seq::<usize>::empty().to_multiset().count(a) == 0 by {
        assert(!Seq::<usize>::empty().contains(a));
    }
    assert(Seq::<usize>::empty().to_multiset() =~= Multiset::<usize>::empty());
}

/// A one-element listing carries a one-element multiset.
proof fn lemma_to_multiset_singleton(x: usize)
    ensures
        seq![x].to_multiset() == Multiset::<usize>::empty().insert(x),
{
    broadcast use vstd::seq_lib::group_to_multiset_ensures;

    lemma_to_multiset_empty();
    assert(seq![x] =~= Seq::<usize>::empty().push(x));
    assert(seq![x].to_multiset() =~= Multiset::<usize>::empty().insert(x));
}

/// Completeness: either listing of a tree holds every node of the tree
/// exactly once, and its length is the node count.
pub proof fn lemma_completeness(t: SyntaxTree)
    ensures
        preorder(t).len() == count(t),
        postorder(t).len() == count(t),
        preorder(t).to_multiset() == node_multiset(t),
        postorder(t).to_multiset() == node_multiset(t),
    decreases t,
{
    broadcast use vstd::multiset::group_multiset_axioms;

    lemma_order_len(t);
    lemma_completeness_seq(t.children@);
    vstd::seq_lib::lemma_multiset_commutative(seq![t.id], preorder_seq(t.children@));
    vstd::seq_lib::lemma_multiset_commutative(postorder_seq(t.children@), seq![t.id]);
    lemma_to_multiset_singleton(t.id);
    assert(preorder(t).to_multiset() =~= node_multiset(t));
    assert(postorder(t).to_multiset() =~= node_multiset(t));
}

/// Completeness for a forest.
pub proof fn lemma_completeness_seq(ts: Seq<SyntaxTree>)
    ensures
        preorder_seq(ts).to_multiset() == node_multiset_seq(ts),
        postorder_seq(ts).to_multiset() == node_multiset_seq(ts),
    decreases ts,
{
    broadcast use vstd::multiset::group_multiset_axioms;

    if ts.len() == 0 {
        lemma_to_multiset_empty();
        assert(preorder_seq(ts) =~= Seq::<usize>::empty());
        assert(postorder_seq(ts) =~= Seq::<usize>::empty());
    } else {
        lemma_completeness(ts[0]);
        lemma_completeness_seq(ts.skip(1));
        vstd::seq_lib::lemma_multiset_commutative(preorder(ts[0]), preorder_seq(ts.skip(1)));
        vstd::seq_lib::lemma_multiset_commutative(postorder(ts[0]), postorder_seq(ts.skip(1)));
    }
}

/// A tree with no children is listed as its root alone, in both orders.
pub proof fn lemma_single_node(t: SyntaxTree)
    requires
        t.children@.len() == 0,
    ensures
        preorder(t) == seq![t.id],
        postorder(t) == seq![t.id],
{
    assert(preorder(t) =~= seq![t.id]);
    assert(postorder(t) =~= seq![t.id]);
}

} // verus!
