use vstd::prelude::*;

verus! {

/// The kinds of node a search visits.
pub trait NodeType {
    /// Whether the node is the root of the search.
    const ROOT: bool;
}

/// The root of the search.
pub struct Root;

impl NodeType for Root {
    const ROOT: bool = true;
}

/// Any node below the root.
pub struct NonRoot;

impl NodeType for NonRoot {
    const ROOT: bool = false;
}

} // verus!
