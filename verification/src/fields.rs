use vstd::prelude::*;

verus! {

/// The five links that place one node in a tree. A host embeds one record per
/// node; every link is a handle to another node, or `None`.
#[derive(Debug)]
pub struct Tree<T> {
    pub parent: Option<T>,
    pub first_child: Option<T>,
    pub last_child: Option<T>,
    pub prev_sibling: Option<T>,
    pub next_sibling: Option<T>,
}

impl<T: Copy> Clone for Tree<T> {
    fn clone(&self) -> (out: Self)
        ensures
            out == *self,
    {
        *self
    }
}

impl<T: Copy> Copy for Tree<T> {
}

/// Why an insertion or a removal was refused. A refused operation leaves every
/// record as it was.
#[derive(Clone, Copy, Debug, PartialEq, Eq, Structural)]
pub enum TreeError {
    /// `add_child` was given the same node as parent and as child.
    SelfParent,
    /// The node to attach already has a parent.
    AlreadyHasParent,
    /// The node to attach has no parent but still names a sibling.
    ChildHasSiblings,
    /// The parent's last child names a next sibling.
    TailHasNextSibling,
    /// The node to detach has no parent.
    NotAChild,
    /// The node to detach names another node as its parent.
    WrongParent,
    /// The parent of the node to detach has no first child.
    ParentHasNoFirstChild,
    /// The parent of the node to detach has no last child.
    ParentHasNoLastChild,
}

/// The record of a node that is attached to nothing and has no children.
pub open spec fn empty_fields<T>() -> Tree<T> {
    Tree {
        parent: None,
        first_child: None,
        last_child: None,
        prev_sibling: None,
        next_sibling: None,
    }
}

/// A fresh record: all five links are `None`.
pub fn empty<T>() -> (t: Tree<T>)
    ensures
        t == empty_fields::<T>(),
{
    Tree {
        parent: None,
        first_child: None,
        last_child: None,
        prev_sibling: None,
        next_sibling: None,
    }
}

} // verus!
