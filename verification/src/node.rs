//! What every member of a data hierarchy offers.

use vstd::prelude::*;

verus! {

/// A node of a tree of data.
pub trait Node: Sized {
    /// Replaces the node with a new one
    fn update(self, replacement: Self);

    /// Deletes the node
    fn delete(self);

    /// The parent of the node, if the node has one
    fn get_parent(&self) -> Option<&Self>;

    /// Whether the node is the root of its tree
    fn is_root(&self) -> bool;
}

} // verus!
