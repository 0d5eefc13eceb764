use vstd::prelude::*;

use crate::frontier::{
    lemma_post_rem_first, lemma_pre_rem_first, lemma_rem_at_root, lemma_step_climb,
    lemma_step_down, lemma_step_sibling, post_after, post_rem, pre_after, pre_rem,
};
use crate::order::Order;
use crate::tree::{
    count, lemma_count_child, lemma_subtree_snoc, lemma_valid_last, subtree, SyntaxTree,
};
use crate::visit::{
    lemma_postorder_seq_snoc, lemma_preorder_seq_snoc, order_seq, order_seq_list, postorder,
    preorder,
};

verus! {

/// The part of a node's listing that comes before its children's listings:
/// the node itself in pre-order, nothing in post-order.
spec fn own_node_before(t: SyntaxTree, order: Order) -> Seq<usize> {
    if order == Order::Pre {
        seq![t.id]
    } else {
        Seq::empty()
    }
}

/// Idiomatic recursive traversal of the tree; the clearest rendering of the
/// two orders, though deep trees cost call stack proportional to their depth.
pub fn traverse_recursive(tree: &SyntaxTree, order: Order) -> (v: Vec<usize>)
    ensures
        v@ == order_seq(*tree, order),
{
    let mut v: Vec<usize> = Vec::new();
    traverse_helper(tree, order, &mut v);
    proof {
        assert(v@ =~= order_seq(*tree, order));
    }
    v
}

/// Append one subtree's listing in the given order: the node first when
/// pre-order, the children's listings in sibling order, the node last when
/// post-order.
pub fn traverse_helper(t: &SyntaxTree, order: Order, v: &mut Vec<usize>)
    ensures
        final(v)@ == old(v)@ + order_seq(*t, order),
    decreases *t,
{
    if order == Order::Pre {
        v.push(t.id);
    }
    proof {
        assert(t.children@.take(0int) =~= Seq::<SyntaxTree>::empty());
        assert(v@ =~= old(v)@ + own_node_before(*t, order) + order_seq_list(
            t.children@.take(0int),
            order,
        ));
    }
    let mut i: usize = 0;
    while i < t.children.len()
        invariant
            i <= t.children@.len(),
            v@ == old(v)@ + own_node_before(*t, order) + order_seq_list(
                t.children@.take(i as int),
                order,
            ),
        decreases t.children@.len() - i,
    {
        traverse_helper(&t.children[i], order, v);
        proof {
            assert(t.children@.take(i as int + 1) =~= t.children@.take(i as int).push(
                t.children@[i as int],
            ));
            lemma_preorder_seq_snoc(t.children@.take(i as int), t.children@[i as int]);
            lemma_postorder_seq_snoc(t.children@.take(i as int), t.children@[i as int]);
            assert(v@ =~= old(v)@ + own_node_before(*t, order) + order_seq_list(
                t.children@.take(i as int + 1),
                order,
            ));
        }
        i = i + 1;
    }
    proof {
        assert(t.children@.take(t.children@.len() as int) =~= t.children@);
    }
    if order == Order::Post {
        v.push(t.id);
    }
    proof {
        assert(v@ =~= old(v)@ + order_seq(*t, order));
    }
}

/// Iterative traversal of the tree, on the cursor primitives alone; it calls
/// them in the same order as the lazy sequences do, and produces the same
/// listing as `traverse_recursive` without growing the call stack with the
/// tree's depth.
pub fn traverse_iterative(tree: &SyntaxTree, order: Order) -> (v: Vec<usize>)
    ensures
        v@ == order_seq(*tree, order),
{
    let mut v: Vec<usize> = Vec::new();
    let mut c = tree.walk();
    proof {
        lemma_rem_at_root(*tree);
    }
    loop
        invariant
            c.valid(),
            *c.tree == *tree,
            order == Order::Pre ==> v@ + pre_rem(*tree, c.path@) == preorder(*tree),
            order == Order::Post ==> v@ + post_rem(*tree, c.path@, false) == postorder(*tree),
            order == Order::Pre ==> v@.len() <= preorder(*tree).len(),
            order == Order::Post ==> v@.len() <= postorder(*tree).len(),
        decreases order_seq(*tree, order).len() - v@.len(), count(subtree(*tree, c.path@)),
    {
        let ghost p0 = c.path@;
        let ghost v0 = v@;
        if order == Order::Pre {
            proof {
                lemma_pre_rem_first(*tree, p0);
            }
            v.push(c.node());
        }
        if c.goto_first_child() {
            proof {
                lemma_step_down(*tree, p0);
                lemma_subtree_snoc(*tree, p0, 0);
                lemma_count_child(subtree(*tree, p0), 0);
                if order == Order::Pre {
                    assert(v@ + pre_rem(*tree, c.path@) =~= v0 + pre_rem(*tree, p0));
                }
            }
            continue;
        }
        let node = c.node();
        if c.goto_next_sibling() {
            if order == Order::Post {
                v.push(node);
            }
            proof {
                assert(p0 =~= p0.drop_last().push(p0.last()));
                lemma_valid_last(*tree, p0);
                lemma_step_sibling(*tree, p0.drop_last(), p0.last(), (p0.last() + 1) as usize);
                lemma_pre_rem_first(*tree, p0);
                lemma_post_rem_first(*tree, p0, false);
                if order == Order::Pre {
                    assert(v@ + pre_rem(*tree, c.path@) =~= v0 + pre_rem(*tree, p0));
                } else {
                    assert(v@ + post_rem(*tree, c.path@, false) =~= v0 + post_rem(
                        *tree,
                        p0,
                        false,
                    ));
                }
            }
            continue;
        }
        proof {
            if p0.len() > 0 {
                lemma_valid_last(*tree, p0);
            }
            lemma_pre_rem_first(*tree, p0);
            lemma_post_rem_first(*tree, p0, false);
            if order == Order::Pre {
                assert(v@ + pre_after(*tree, c.path@) =~= v0 + pre_rem(*tree, p0));
            } else {
                assert(v@ + post_rem(*tree, c.path@, true) =~= v0 + post_rem(*tree, p0, false));
            }
        }
        loop
            invariant_except_break
                c.valid(),
                c.path@.len() > 0 ==> c.path@.last() as int + 1 == subtree(
                    *tree,
                    c.path@.drop_last(),
                ).children@.len(),
                order == Order::Pre ==> v@ + pre_after(*tree, c.path@) == preorder(*tree),
                order == Order::Post ==> v@ + post_rem(*tree, c.path@, true) == postorder(*tree),
                order == Order::Pre ==> v0.len() < v@.len(),
                order == Order::Post ==> v0.len() <= v@.len(),
            invariant
                *c.tree == *tree,
            ensures
                c.valid(),
                order == Order::Pre ==> v@ + pre_rem(*tree, c.path@) == preorder(*tree),
                order == Order::Post ==> v@ + post_rem(*tree, c.path@, false) == postorder(
                    *tree,
                ),
                v0.len() < v@.len(),
            decreases c.path@.len(),
        {
            let ghost p = c.path@;
            if order == Order::Post {
                proof {
                    lemma_post_rem_first(*tree, p, true);
                }
                v.push(c.node());
                proof {
                    assert(v@ + post_after(*tree, p) =~= v@.drop_last() + post_rem(
                        *tree,
                        p,
                        true,
                    ));
                }
            }
            if !c.goto_parent() {
                proof {
                    assert(v@ + Seq::<usize>::empty() =~= v@);
                }
                return v;
            }
            proof {
                assert(p =~= p.drop_last().push(p.last()));
                lemma_step_climb(*tree, p.drop_last(), p.last());
            }
            let ghost q = c.path@;
            let node2 = c.node();
            if c.goto_next_sibling() {
                if order == Order::Post {
                    v.push(node2);
                }
                proof {
                    assert(q =~= q.drop_last().push(q.last()));
                    lemma_valid_last(*tree, q);
                    lemma_step_sibling(*tree, q.drop_last(), q.last(), (q.last() + 1) as usize);
                    lemma_post_rem_first(*tree, q, true);
                    if order == Order::Pre {
                        assert(v@ + pre_rem(*tree, c.path@) =~= v@ + pre_after(*tree, q));
                    } else {
                        assert(v@ + post_rem(*tree, c.path@, false) =~= v@.drop_last() + post_rem(
                            *tree,
                            q,
                            true,
                        ));
                    }
                }
                break;
            }
            proof {
                if c.path@.len() > 0 {
                    lemma_valid_last(*tree, c.path@);
                }
            }
        }
    }
}

} // verus!
