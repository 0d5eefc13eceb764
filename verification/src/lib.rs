use vstd::prelude::*;

pub mod frontier;
pub mod laws;
pub mod order;
pub mod parse_tree;
pub mod traverse;
pub mod tree;
pub mod visit;
pub mod walkers;

pub use order::Order;
pub use parse_tree::from_tree_sitter;
pub use traverse::{traverse_iter, PostorderTraverse, PreorderTraverse, Traverse};
pub use tree::{Cursor, SyntaxTree};
pub use walkers::{traverse_helper, traverse_iterative, traverse_recursive};

verus! {

} // verus!
