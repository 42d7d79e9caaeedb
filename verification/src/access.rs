use vstd::prelude::*;
use crate::capability::ReadMethods;
use crate::fields::Tree;
use crate::model::{children_of, has_child_list, link, linked_at, opt_at};

verus! {

/// A copy of the record of `node`.
pub fn fields_of<T: Copy + View, O: ReadMethods<T>>(ops: &O, node: &T) -> (tf: Tree<T>)
    ensures
        tf == ops.fields(node@),
{
    ops.with_tree_fields(node, |tf: &Tree<T>| -> (out: Tree<T>)
        ensures
            out == *tf
        { *tf })
}

/// The parent of `node`; `None` for a root.
pub fn parent<T: Copy + View, O: ReadMethods<T>>(ops: &O, node: &T) -> (r: Option<T>)
    ensures
        r == ops.fields(node@).parent,
{
    ops.with_tree_fields(node, |tf: &Tree<T>| -> (out: Option<T>)
        ensures
            out == tf.parent
        { tf.parent })
}

/// The parent of `node`; `None` for a root. Another name for `parent`.
pub fn get_parent<T: Copy + View, O: ReadMethods<T>>(ops: &O, node: &T) -> (r: Option<T>)
    ensures
        r == ops.fields(node@).parent,
{
    parent(ops, node)
}

/// The first child of `node`; `None` for a leaf.
pub fn first_child<T: Copy + View, O: ReadMethods<T>>(ops: &O, node: &T) -> (r: Option<T>)
    ensures
        r == ops.fields(node@).first_child,
        has_child_list(*ops, node@) ==> link(r) == opt_at(children_of(*ops, node@), 0),
{
    ops.with_tree_fields(node, |tf: &Tree<T>| -> (out: Option<T>)
        ensures
            out == tf.first_child
        { tf.first_child })
}

/// The last child of `node`; `None` for a leaf.
pub fn last_child<T: Copy + View, O: ReadMethods<T>>(ops: &O, node: &T) -> (r: Option<T>)
    ensures
        r == ops.fields(node@).last_child,
        has_child_list(*ops, node@) ==> link(r) == opt_at(
            children_of(*ops, node@),
            children_of(*ops, node@).len() - 1,
        ),
{
    ops.with_tree_fields(node, |tf: &Tree<T>| -> (out: Option<T>)
        ensures
            out == tf.last_child
        { tf.last_child })
}

/// The sibling that follows `node`; `None` for a last child and for a root.
pub fn next_sibling<T: Copy + View, O: ReadMethods<T>>(ops: &O, node: &T) -> (r: Option<T>)
    ensures
        r == ops.fields(node@).next_sibling,
{
    ops.with_tree_fields(node, |tf: &Tree<T>| -> (out: Option<T>)
        ensures
            out == tf.next_sibling
        { tf.next_sibling })
}

/// The sibling that precedes `node`; `None` for a first child and for a root.
pub fn prev_sibling<T: Copy + View, O: ReadMethods<T>>(ops: &O, node: &T) -> (r: Option<T>)
    ensures
        r == ops.fields(node@).prev_sibling,
{
    ops.with_tree_fields(node, |tf: &Tree<T>| -> (out: Option<T>)
        ensures
            out == tf.prev_sibling
        { tf.prev_sibling })
}

/// Whether `node` has no child.
pub fn is_leaf<T: Copy + View, O: ReadMethods<T>>(ops: &O, node: &T) -> (leaf: bool)
    ensures
        leaf == (ops.fields(node@).first_child is None),
        has_child_list(*ops, node@) ==> leaf == (children_of(*ops, node@).len() == 0),
{
    first_child(ops, node).is_none()
}

/// What a walk over the children `kids` with the visitor `f` may leave behind
/// as `seen`: the walk goes from the first child on, goes on for as long as
/// `f` answers `true`, and ends with the child for which it answers `false`,
/// or with the last one.
pub open spec fn is_visit<T: View, F: Fn(&T) -> bool>(f: F, kids: Seq<T::V>, seen: Seq<T>) -> bool {
    &&& seen.len() <= kids.len()
    &&& forall|i: int| 0 <= i < seen.len() ==> (#[trigger] seen[i])@ == kids[i]
    &&& kids.len() > 0 ==> seen.len() > 0
    &&& forall|i: int| 0 <= i < seen.len() - 1 ==> f.ensures((&#[trigger] seen[i],), true)
    &&& 0 < seen.len() < kids.len() ==> f.ensures((&seen[seen.len() - 1],), false)
    &&& 0 < seen.len() == kids.len() ==> f.ensures((&seen[seen.len() - 1],), true) || f.ensures(
        (&seen[seen.len() - 1],),
        false,
    )
}

/// Calls `f` on the children of `node`, first to last, until `f` answers
/// `false` or the children are exhausted, and returns the handles that `f`
/// was called on, in that order.
pub fn each_child<T: Copy + View, O: ReadMethods<T>, F: Fn(&T) -> bool>(
    ops: &O,
    node: &T,
    f: F,
) -> (seen: Vec<T>)
    requires
        has_child_list(*ops, node@),
        forall|c: T| children_of(*ops, node@).contains(c@) ==> #[trigger] f.requires((&c,)),
    ensures
        is_visit(f, children_of(*ops, node@), seen@),
{
    let ghost kids = children_of(*ops, node@);
    let mut seen: Vec<T> = Vec::new();
    let mut p = first_child(ops, node);
    let mut go_on = true;
    while go_on && p.is_some()
        invariant
            has_child_list(*ops, node@),
            kids == children_of(*ops, node@),
            forall|c: T| kids.contains(c@) ==> #[trigger] f.requires((&c,)),
            seen@.len() <= kids.len(),
            forall|i: int| 0 <= i < seen@.len() ==> (#[trigger] seen@[i])@ == kids[i],
            go_on ==> link(p) == opt_at(kids, seen@.len() as int),
            go_on ==> forall|i: int|
                0 <= i < seen@.len() ==> f.ensures((&#[trigger] seen@[i],), true),
            !go_on ==> seen@.len() > 0,
            !go_on ==> forall|i: int|
                0 <= i < seen@.len() - 1 ==> f.ensures((&#[trigger] seen@[i],), true),
            !go_on ==> f.ensures((&seen@[seen@.len() - 1],), false),
        decreases kids.len() - seen@.len() + (if go_on { 1int } else { 0int }),
    {
        let c = p.unwrap();
        let ghost k = seen@.len() as int;
        assert(c@ == kids[k]);
        assert(kids.contains(c@));
        assert(linked_at(*ops, node@, kids, k));
        go_on = f(&c);
        seen.push(c);
        if go_on {
            p = next_sibling(ops, &c);
        }
    }
    proof {
        if seen@.len() > 0 && seen@.len() == kids.len() {
            if go_on {
                assert(f.ensures((&seen@[seen@.len() - 1],), true));
            } else {
                assert(f.ensures((&seen@[seen@.len() - 1],), false));
            }
        }
    }
    seen
}

} // verus!
