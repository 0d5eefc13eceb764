use vstd::prelude::*;

use crate::tree::SyntaxTree;

verus! {

#[verifier::external_type_specification]
#[verifier::external_body]
pub struct ExTsTree(tree_sitter::Tree);

#[verifier::external_type_specification]
#[verifier::external_body]
pub struct ExTsTreeCursor<'a>(tree_sitter::TreeCursor<'a>);

/// Relies on tree_sitter::Tree::walk: a fresh cursor standing on the root
/// node of the parse tree.
#[verifier::external_body]
fn cursor_at_root<'a>(tree: &'a tree_sitter::Tree) -> tree_sitter::TreeCursor<'a> {
    tree.walk()
}

/// Relies on tree_sitter::TreeCursor::node and tree_sitter::Node::id: the
/// identity of the node the cursor stands on.
#[verifier::external_body]
fn cursor_node_id(c: &tree_sitter::TreeCursor) -> usize {
    c.node().id()
}

/// Relies on tree_sitter::TreeCursor::goto_first_child: moves to the first
/// child of the current node; `false` (and no move) when there are none.
#[verifier::external_body]
fn cursor_goto_first_child(c: &mut tree_sitter::TreeCursor) -> bool {
    c.goto_first_child()
}

/// Relies on tree_sitter::TreeCursor::goto_next_sibling: moves to the next
/// sibling of the current node; `false` (and no move) when there is none.
#[verifier::external_body]
fn cursor_goto_next_sibling(c: &mut tree_sitter::TreeCursor) -> bool {
    c.goto_next_sibling()
}

/// Relies on tree_sitter::TreeCursor::goto_parent: moves to the parent of
/// the current node; `false` (and no move) on the root.
#[verifier::external_body]
fn cursor_goto_parent(c: &mut tree_sitter::TreeCursor) -> bool {
    c.goto_parent()
}

/// Copy the structure of a parse tree into the library's own tree, node
/// identities included, walking it with the four cursor moves.  What the
/// parse tree holds is the parser's affair: nothing is assumed of the moves'
/// answers, so every listing and traversal of the returned tree is verified
/// for whatever came back.  The walk spends one unit of a step budget per
/// node; the budget is far beyond any real parse tree and doubles as the
/// walk's termination measure.
pub fn from_tree_sitter(tree: &tree_sitter::Tree) -> SyntaxTree {
    let mut c = cursor_at_root(tree);
    let mut fuel: u64 = u64::MAX;
    build_subtree(&mut c, &mut fuel)
}

/// Build the library tree for the cursor's current subtree, as far as the
/// step budget reaches; the cursor ends on the node where it began.
fn build_subtree(c: &mut tree_sitter::TreeCursor, fuel: &mut u64) -> (t: SyntaxTree)
    requires
        *old(fuel) > 0,
    ensures
        *final(fuel) < *old(fuel),
    decreases *old(fuel),
{
    *fuel = *fuel - 1;
    let id = cursor_node_id(c);
    let mut children: Vec<SyntaxTree> = Vec::new();
    let mut descended = false;
    if *fuel > 0 && cursor_goto_first_child(c) {
        descended = true;
        loop
            invariant_except_break
                0 < *fuel,
            invariant
                *fuel < *old(fuel),
            decreases *fuel,
        {
            let t = build_subtree(c, fuel);
            children.push(t);
            if *fuel == 0 {
                break;
            }
            if !cursor_goto_next_sibling(c) {
                break;
            }
        }
    }
    if descended {
        let _moved_up = cursor_goto_parent(c);
    }
    SyntaxTree { id, children }
}

} // verus!
