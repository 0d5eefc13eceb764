use tree_traversal::{
    traverse_iter, traverse_iterative, traverse_recursive, Order, PostorderTraverse,
    PreorderTraverse, SyntaxTree, Traverse,
};

fn leaf(id: usize) -> SyntaxTree {
    SyntaxTree { id, children: Vec::new() }
}

fn branch(id: usize, children: Vec<SyntaxTree>) -> SyntaxTree {
    SyntaxTree { id, children }
}

/// Root 1 with children 2 and 3; node 2 has children 4 and 5.
fn sample() -> SyntaxTree {
    branch(1, vec![branch(2, vec![leaf(4), leaf(5)]), leaf(3)])
}

fn collect(mut t: Traverse) -> Vec<usize> {
    let mut v = Vec::new();
    while let Some(id) = t.next() {
        v.push(id);
    }
    v
}

fn position(v: &[usize], id: usize) -> usize {
    v.iter().position(|&x| x == id).unwrap()
}

#[test]
fn preorder_exact() {
    let t = sample();
    let expected = vec![1, 2, 4, 5, 3];
    assert_eq!(traverse_recursive(&t, Order::Pre), expected);
    assert_eq!(traverse_iterative(&t, Order::Pre), expected);
    assert_eq!(collect(traverse_iter(&t, Order::Pre)), expected);
}

#[test]
fn postorder_exact() {
    let t = sample();
    let expected = vec![4, 5, 2, 3, 1];
    assert_eq!(traverse_recursive(&t, Order::Post), expected);
    assert_eq!(traverse_iterative(&t, Order::Post), expected);
    assert_eq!(collect(traverse_iter(&t, Order::Post)), expected);
}

#[test]
fn lazy_machines_match_walkers() {
    let t = sample();
    let mut pre = Vec::new();
    let mut it = PreorderTraverse::new(&t);
    while let Some(id) = it.next() {
        pre.push(id);
    }
    assert_eq!(pre, traverse_recursive(&t, Order::Pre));
    let mut post = Vec::new();
    let mut it = PostorderTraverse::new(&t);
    while let Some(id) = it.next() {
        post.push(id);
    }
    assert_eq!(post, traverse_recursive(&t, Order::Post));
}

#[test]
fn single_node_tree() {
    let t = leaf(7);
    assert_eq!(traverse_recursive(&t, Order::Pre), vec![7]);
    assert_eq!(traverse_recursive(&t, Order::Post), vec![7]);
    assert_eq!(traverse_iterative(&t, Order::Pre), vec![7]);
    assert_eq!(traverse_iterative(&t, Order::Post), vec![7]);
    assert_eq!(collect(traverse_iter(&t, Order::Pre)), vec![7]);
    assert_eq!(collect(traverse_iter(&t, Order::Post)), vec![7]);
}

#[test]
fn exhaustion_is_idempotent() {
    let t = sample();
    let mut it = traverse_iter(&t, Order::Pre);
    while let Some(_) = it.next() {}
    assert_eq!(it.next(), None);
    assert_eq!(it.next(), None);
    assert_eq!(it.next(), None);
    let mut it = traverse_iter(&t, Order::Post);
    while let Some(_) = it.next() {}
    assert_eq!(it.next(), None);
    assert_eq!(it.next(), None);
}

#[test]
fn completeness_every_node_once() {
    let t = sample();
    let mut pre = traverse_recursive(&t, Order::Pre);
    let mut post = traverse_recursive(&t, Order::Post);
    assert_eq!(pre.len(), 5);
    assert_eq!(post.len(), 5);
    pre.sort();
    post.sort();
    assert_eq!(pre, vec![1, 2, 3, 4, 5]);
    assert_eq!(post, vec![1, 2, 3, 4, 5]);
}

#[test]
fn ancestors_before_descendants_in_preorder() {
    let t = sample();
    let pre = traverse_recursive(&t, Order::Pre);
    let post = traverse_recursive(&t, Order::Post);
    for descendant in [2, 3, 4, 5] {
        assert!(position(&pre, 1) < position(&pre, descendant));
        assert!(position(&post, 1) > position(&post, descendant));
    }
    for descendant in [4, 5] {
        assert!(position(&pre, 2) < position(&pre, descendant));
        assert!(position(&post, 2) > position(&post, descendant));
    }
}

#[test]
fn sibling_blocks_do_not_interleave() {
    let t = sample();
    let pre = traverse_recursive(&t, Order::Pre);
    let post = traverse_recursive(&t, Order::Post);
    // The whole block of the left sibling 2 (nodes 2, 4, 5) stands before
    // the block of the right sibling 3, in both orders.
    for left in [2, 4, 5] {
        assert!(position(&pre, left) < position(&pre, 3));
        assert!(position(&post, left) < position(&post, 3));
    }
    // Likewise for the sibling leaves 4 and 5.
    assert!(position(&pre, 4) < position(&pre, 5));
    assert!(position(&post, 4) < position(&post, 5));
}
