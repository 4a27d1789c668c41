//! The persistent tree store: the single binding that holds the current
//! tree root. It is read freely and replaced atomically on every accepted
//! edit; it is never mutated in place.

use vstd::prelude::*;

use crate::tree::Tree;
use crate::tree::TreeV;

verus! {

/// Holds the current tree root; the system of record. All locators are
/// interpreted against whichever root is current at resolution time.
pub struct TreeStore {
    root: Tree,
}

impl View for TreeStore {
    type V = TreeV;

    closed spec fn view(&self) -> TreeV {
        self.root.v()
    }
}

impl TreeStore {
    /// Creates the store at document load, holding the given root.
    pub fn new(root: Tree) -> (s: TreeStore)
        ensures
            s@ == root.v(),
    {
        TreeStore { root }
    }

    /// The current root.
    pub fn read(&self) -> (r: &Tree)
        ensures
            r.v() == self@,
    {
        &self.root
    }

    /// Replaces the root: the sole mutation point for the whole tree.
    pub fn replace(&mut self, new_root: Tree)
        ensures
            final(self)@ == new_root.v(),
    {
        self.root = new_root;
    }
}

} // verus!
