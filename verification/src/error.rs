//! The ways in which a tree can be unfit for the search.

use vstd::prelude::*;
use vstd::string::StringExecFns;

verus! {

/// Why a tree, or a node of it, was turned down.
#[derive(Debug, Clone, Copy, PartialEq, Eq, Structural)]
pub enum TreeError {
    /// The graph is no rooted tree: it has no node without an incoming edge, or
    /// several; a node other than the root has no single parent; a node cannot
    /// be reached from the root; or a node's tip flag disagrees with its
    /// having children.
    MalformedTree,
    /// A node was named that the tree does not hold.
    DanglingReference,
    /// A clade without a single tip has no proportion of targets.
    DegenerateClade,
}

impl TreeError {
    /// A sentence for the user.
    pub fn message(&self) -> (s: String)
        ensures
            *self == TreeError::MalformedTree ==> s@ == "the graph is not a rooted tree"@,
            *self == TreeError::DanglingReference ==> s@ == "a node is referred to that the tree does not hold"@,
            *self == TreeError::DegenerateClade ==> s@ == "a clade has no tips"@,
    {
        match self {
            TreeError::MalformedTree => String::from_str("the graph is not a rooted tree"),
            TreeError::DanglingReference => String::from_str(
                "a node is referred to that the tree does not hold",
            ),
            TreeError::DegenerateClade => String::from_str("a clade has no tips"),
        }
    }
}

} // verus!
