use vstd::prelude::*;

verus! {

/// Order to iterate through the tree; for n-ary trees only
/// pre-order and post-order make sense.
#[derive(Eq, PartialEq, Structural, Hash, Debug, Copy, Clone)]
pub enum Order {
    Pre,
    Post,
}

} // verus!
