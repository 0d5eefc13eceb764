use tree_traversal::{
    from_tree_sitter, traverse_iter, Order, PreorderTraverse, SyntaxTree, Traverse,
};

fn get_tree() -> tree_sitter::Tree {
    let code = r#"
const DOUBLE = 2;

function double(x, y, z=123) {
    return DOUBLE * x;
}"#;
    let mut parser = tree_sitter::Parser::new();
    let lang = tree_sitter::Language::new(tree_sitter_javascript::LANGUAGE);
    parser.set_language(&lang).expect("Error loading JavaScript grammar");
    parser.parse(code, None).unwrap()
}

fn collect(mut t: Traverse) -> Vec<usize> {
    let mut v = Vec::new();
    while let Some(id) = t.next() {
        v.push(id);
    }
    v
}

#[test]
fn repeat() {
    let parsed = get_tree();
    let tree: SyntaxTree = from_tree_sitter(&parsed);
    let v = tree_traversal::traverse_recursive(&tree, Order::Post);
    for node in v {
        println!("{:?}", node);
    }
}

#[test]
fn preorder_eq() {
    let parsed = get_tree();
    let tree = from_tree_sitter(&parsed);
    let v = tree_traversal::traverse_recursive(&tree, Order::Pre);
    let e = tree_traversal::traverse_iterative(&tree, Order::Pre);
    assert_eq!(e, v);
    println!("{:?}", e);
}

#[test]
fn new_eq() {
    let parsed = get_tree();
    let tree = from_tree_sitter(&parsed);
    let mut t = PreorderTraverse::new(&tree);
    let mut v = Vec::new();
    while let Some(id) = t.next() {
        v.push(id);
    }
    println!("{:?}", parsed.root_node().to_sexp());
    let e = tree_traversal::traverse_recursive(&tree, Order::Pre);
    assert_eq!(v, e);
    println!("{:?}", v);
}

#[test]
fn postorder_eq() {
    let parsed = get_tree();
    let tree = from_tree_sitter(&parsed);
    let t = traverse_iter(&tree, Order::Post);
    let v = collect(t);
    println!("{:?}", parsed.root_node().to_sexp());
    let e = tree_traversal::traverse_iterative(&tree, Order::Post);
    assert_eq!(v, e);
    println!("{:?}", v);
}
