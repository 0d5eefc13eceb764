use tree_traversal::{from_tree_sitter, traverse_iter, Order};

fn parse(code: &str) -> tree_sitter::Tree {
    let mut parser = tree_sitter::Parser::new();
    let lang = tree_sitter::Language::new(tree_sitter_javascript::LANGUAGE);
    parser.set_language(&lang).expect("Error loading JavaScript grammar");
    parser.parse(code, None).unwrap()
}

fn find_kind<'a>(node: tree_sitter::Node<'a>, kind: &str) -> Option<tree_sitter::Node<'a>> {
    if node.kind() == kind {
        return Some(node);
    }
    for i in 0..node.child_count() {
        if let Some(found) = find_kind(node.child(i).unwrap(), kind) {
            return Some(found);
        }
    }
    None
}

fn subtree_ids(node: tree_sitter::Node, out: &mut Vec<usize>) {
    out.push(node.id());
    for i in 0..node.child_count() {
        subtree_ids(node.child(i).unwrap(), out);
    }
}

fn collect(tree: &tree_traversal::SyntaxTree, order: Order) -> Vec<usize> {
    let mut t = traverse_iter(tree, order);
    let mut v = Vec::new();
    while let Some(id) = t.next() {
        v.push(id);
    }
    v
}

fn position(v: &[usize], id: usize) -> usize {
    v.iter().position(|&x| x == id).unwrap()
}

#[test]
fn function_declaration_order() {
    let parsed = parse("function double(x, y, z=123) { return DOUBLE * x; }");
    let root = parsed.root_node();
    let declaration = find_kind(root, "function_declaration").unwrap().id();
    let parameters = find_kind(root, "formal_parameters").unwrap().id();
    let body = find_kind(root, "statement_block").unwrap().id();

    let tree = from_tree_sitter(&parsed);
    let pre = collect(&tree, Order::Pre);
    let post = collect(&tree, Order::Post);

    // Pre-order reaches the declaration before its parameter list and body.
    assert!(position(&pre, declaration) < position(&pre, parameters));
    assert!(position(&pre, declaration) < position(&pre, body));

    // Post-order finishes the parameter list and body before the declaration.
    assert!(position(&post, parameters) < position(&post, declaration));
    assert!(position(&post, body) < position(&post, declaration));

    // Post-order finishes the whole subtree of the return statement's
    // expression before the statement block that contains it.
    let ret = find_kind(root, "return_statement").unwrap();
    let mut expression = None;
    for i in 0..ret.child_count() {
        let child = ret.child(i).unwrap();
        if child.kind() == "binary_expression" {
            expression = Some(child);
        }
    }
    let mut expression_ids = Vec::new();
    subtree_ids(expression.unwrap(), &mut expression_ids);
    for id in expression_ids {
        assert!(position(&post, id) < position(&post, body));
    }
}
