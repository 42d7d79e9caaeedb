use vstd::prelude::*;
use crate::fields::Tree;

verus! {

/// Read access to the records of a host's nodes.
///
/// A handle `h` names the node `h@`. The host decides what that is: two
/// handles with the same view name the same node, and share one record.
pub trait ReadMethods<T: Copy + View> {
    /// The record that the host keeps for the node `id`.
    spec fn fields(&self, id: T::V) -> Tree<T>;

    /// Calls `f` once, on the record of `node`, and returns what `f` returns.
    fn with_tree_fields<R, F: FnOnce(&Tree<T>) -> R>(&self, node: &T, f: F) -> (r: R)
        requires
            f.requires((&self.fields(node@),)),
        ensures
            f.ensures((&self.fields(node@),), r),
    ;
}

/// The callback `f` may be called on a record that holds `before`.
pub open spec fn accepts<T, R, F: FnOnce(&mut Tree<T>) -> R>(f: F, before: Tree<T>) -> bool {
    forall|tf: &mut Tree<T>| *tf == before ==> #[trigger] f.requires((tf,))
}

/// Write access to the records of a host's nodes, and the host's test of
/// whether two handles name the same node.
pub trait WriteMethods<T: Copy + View>: ReadMethods<T> {
    /// Calls `f` once, on the record of `node`, which `f` may change, and
    /// returns what `f` returns: `f` was handed a record that held what the
    /// host had for `node`, and the host now has what `f` left in it. No
    /// other node's record changes.
    fn with_tree_fields<R, F: FnOnce(&mut Tree<T>) -> R>(&mut self, node: &T, f: F) -> (r: R)
        requires
            accepts(f, old(self).fields(node@)),
        ensures
            exists|tf: &mut Tree<T>|
                *tf == old(self).fields(node@) && *final(tf) == final(self).fields(node@)
                    && #[trigger] f.ensures((tf,), r),
            forall|other: T::V|
                other != node@ ==> final(self).fields(other) == old(self).fields(other),
    ;

    /// Whether `a` and `b` name the same node.
    fn tree_eq(&self, a: &T, b: &T) -> (same: bool)
        ensures
            same == (a@ == b@),
    ;
}

} // verus!
