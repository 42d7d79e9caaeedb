use vstd::prelude::*;
use crate::access::fields_of;
use crate::capability::{ReadMethods, WriteMethods};
use crate::fields::{Tree, TreeError};
use crate::model::{
    children_of, detached_is_alone, has_child_list, is_child_list, lemma_children_of_is,
    lemma_parent_iff_child, link, linked_at, well_formed,
};

verus! {

/// What `remove_child(parent, child)` answers on the records `ops`. The
/// conditions are looked at in this order, and the first that fails names the
/// error.
pub open spec fn remove_child_outcome<T: Copy + View, O: ReadMethods<T>>(
    ops: O,
    parent: T,
    child: T,
) -> Result<(), TreeError> {
    if ops.fields(child@).parent is None {
        Err(TreeError::NotAChild)
    } else if link(ops.fields(child@).parent) != Some(parent@) {
        Err(TreeError::WrongParent)
    } else if ops.fields(parent@).first_child is None {
        Err(TreeError::ParentHasNoFirstChild)
    } else if ops.fields(parent@).last_child is None {
        Err(TreeError::ParentHasNoLastChild)
    } else {
        Ok(())
    }
}

/// The record of `n` after `child` was taken out of the children of `parent`.
/// Where the child was the first or the last child, the parent names the
/// child's neighbour in its place; the child's two neighbours name each other;
/// the child names no parent and no sibling, and keeps its own children.
/// Nothing else changes.
pub open spec fn fields_after_remove<T: Copy + View, O: ReadMethods<T>>(
    ops: O,
    parent: T,
    child: T,
    n: T::V,
) -> Tree<T> {
    let gone = ops.fields(child@);
    let above = ops.fields(parent@);
    let was = ops.fields(n);
    Tree {
        parent: if n == child@ {
            None
        } else {
            was.parent
        },
        first_child: if n == parent@ && link(above.first_child) == Some(child@) {
            gone.next_sibling
        } else {
            was.first_child
        },
        last_child: if n == parent@ && link(above.last_child) == Some(child@) {
            gone.prev_sibling
        } else {
            was.last_child
        },
        prev_sibling: if n == child@ {
            None
        } else if link(gone.next_sibling) == Some(n) {
            gone.prev_sibling
        } else {
            was.prev_sibling
        },
        next_sibling: if n == child@ {
            None
        } else if link(gone.prev_sibling) == Some(n) {
            gone.next_sibling
        } else {
            was.next_sibling
        },
    }
}

/// `post` holds the records of `pre` after `child` was taken out of `parent`.
pub open spec fn is_after_remove<T: Copy + View, O: ReadMethods<T>>(
    pre: O,
    post: O,
    parent: T,
    child: T,
) -> bool {
    forall|n: T::V| #[trigger] post.fields(n) == fields_after_remove(pre, parent, child, n)
}

/// The children of `p` after `child` was taken out of the children of `parent`.
pub open spec fn children_after_remove<T: Copy + View, O: ReadMethods<T>>(
    ops: O,
    parent: T,
    child: T,
    p: T::V,
) -> Seq<T::V> {
    if p == parent@ {
        children_of(ops, p).remove(children_of(ops, p).index_of(child@))
    } else {
        children_of(ops, p)
    }
}

proof fn lemma_remove_child_list<T: Copy + View, O: ReadMethods<T>>(
    pre: O,
    post: O,
    parent: T,
    child: T,
    p: T::V,
)
    requires
        well_formed(pre),
        link(pre.fields(child@).parent) == Some(parent@),
        is_after_remove(pre, post, parent, child),
    ensures
        is_child_list(post, p, children_after_remove(pre, parent, child, p)),
{
    let s = children_of(pre, p);
    let t = children_after_remove(pre, parent, child, p);
    let ps = children_of(pre, parent@);
    assert(has_child_list(pre, p));
    assert(has_child_list(pre, parent@));
    lemma_parent_iff_child(pre, parent@, child@);
    lemma_parent_iff_child(pre, p, child@);
    let k = ps.index_of(child@);
    assert(linked_at(pre, parent@, ps, k));
    if k > 0 {
        assert(linked_at(pre, parent@, ps, k - 1));
    }
    if k + 1 < ps.len() {
        assert(linked_at(pre, parent@, ps, k + 1));
    }
    assert(post.fields(p) == fields_after_remove(pre, parent, child, p));
    if p == parent@ {
        ps.remove_ensures(k);
        assert(forall|i: int| 0 <= i < k ==> t[i] == s[i]);
        assert(forall|i: int| k <= i < t.len() ==> t[i] == s[i + 1]);
    }
    assert forall|i: int| 0 <= i < t.len() implies #[trigger] linked_at(post, p, t, i) by {
        let j = if p == parent@ && i >= k {
            i + 1
        } else {
            i
        };
        assert(t[i] == s[j]);
        assert(linked_at(pre, p, s, j));
        assert(post.fields(t[i]) == fields_after_remove(pre, parent, child, t[i]));
        assert(s.contains(s[j]));
        if j > 0 {
            assert(linked_at(pre, p, s, j - 1));
        }
        if j + 1 < s.len() {
            assert(linked_at(pre, p, s, j + 1));
        }
    }
    assert forall|c: T::V| link(post.fields(c).parent) == Some(p) implies #[trigger] t.contains(
        c,
    ) by {
        assert(post.fields(c) == fields_after_remove(pre, parent, child, c));
        assert(s.contains(c));
        let j = s.index_of(c);
        if p == parent@ && j > k {
            assert(t[j - 1] == c);
        } else {
            assert(t[j] == c);
        }
    }
    assert(t.no_duplicates());
}

/// Taking a child out keeps consistent records consistent: the child leaves
/// its parent's children, whose order stays, and every other list of children
/// stays as it was.
pub proof fn lemma_remove_child<T: Copy + View, O: ReadMethods<T>>(pre: O, post: O, parent: T, child: T)
    requires
        well_formed(pre),
        link(pre.fields(child@).parent) == Some(parent@),
        is_after_remove(pre, post, parent, child),
    ensures
        well_formed(post),
        forall|p: T::V| #[trigger]
            children_of(post, p) == children_after_remove(pre, parent, child, p),
        children_of(pre, parent@).contains(child@),
        children_of(post, parent@).len() == children_of(pre, parent@).len() - 1,
        !children_of(post, parent@).contains(child@),
{
    let ps = children_of(pre, parent@);
    assert(has_child_list(pre, parent@));
    lemma_parent_iff_child(pre, parent@, child@);
    let k = ps.index_of(child@);
    assert(linked_at(pre, parent@, ps, k));
    assert forall|p: T::V| #[trigger] has_child_list(post, p) by {
        lemma_remove_child_list(pre, post, parent, child, p);
    }
    assert forall|p: T::V| #[trigger]
        children_of(post, p) == children_after_remove(pre, parent, child, p) by {
        lemma_remove_child_list(pre, post, parent, child, p);
        lemma_children_of_is(post, p, children_after_remove(pre, parent, child, p));
    }
    assert forall|c: T::V| #[trigger] detached_is_alone(post, c) by {
        assert(post.fields(c) == fields_after_remove(pre, parent, child, c));
        assert(detached_is_alone(pre, c));
        if k > 0 {
            assert(linked_at(pre, parent@, ps, k - 1));
        }
        if k + 1 < ps.len() {
            assert(linked_at(pre, parent@, ps, k + 1));
        }
    }
    ps.remove_ensures(k);
    assert(children_of(post, parent@) == children_after_remove(pre, parent, child, parent@));
    assert(post.fields(child@) == fields_after_remove(pre, parent, child, child@));
    lemma_parent_iff_child(post, parent@, child@);
}

/// On consistent records `remove_child` succeeds exactly where the child
/// names that parent.
pub proof fn lemma_remove_child_outcome<T: Copy + View, O: ReadMethods<T>>(ops: O, parent: T, child: T)
    requires
        well_formed(ops),
    ensures
        remove_child_outcome(ops, parent, child) is Ok <==> link(ops.fields(child@).parent)
            == Some(parent@),
{
    if link(ops.fields(child@).parent) == Some(parent@) {
        let ps = children_of(ops, parent@);
        assert(has_child_list(ops, parent@));
        lemma_parent_iff_child(ops, parent@, child@);
        assert(ps.len() > 0);
    }
}

/// Takes `child` out of the children of `parent`. The child keeps its own
/// children and can be appended again, there or elsewhere.
///
/// The removal is refused, and nothing changes, where `child` has no parent,
/// where its parent is another node than `parent`, and where `parent` lacks a
/// first or a last child.
pub fn remove_child<T: Copy + View, O: WriteMethods<T>>(ops: &mut O, parent: T, child: T) -> (r: Result<
    (),
    TreeError,
>)
    ensures
        r == remove_child_outcome(*old(ops), parent, child),
        r is Ok ==> is_after_remove(*old(ops), *final(ops), parent, child),
        r is Err ==> *final(ops) == *old(ops),
        well_formed(*old(ops)) ==> well_formed(*final(ops)),
        well_formed(*old(ops)) ==> (r is Ok <==> link(old(ops).fields(child@).parent) == Some(
            parent@,
        )),
        well_formed(*old(ops)) && r is Ok ==> forall|p: T::V| #[trigger]
            children_of(*final(ops), p) == children_after_remove(*old(ops), parent, child, p),
        well_formed(*old(ops)) && r is Ok ==> children_of(*final(ops), parent@).len()
            == children_of(*old(ops), parent@).len() - 1,
{
    let ghost pre = *ops;
    proof {
        if well_formed(pre) {
            lemma_remove_child_outcome(pre, parent, child);
        }
    }
    let gone = fields_of(&*ops, &child);
    let claimed = match gone.parent {
        None => {
            return Err(TreeError::NotAChild);
        },
        Some(claimed) => claimed,
    };
    if !ops.tree_eq(&parent, &claimed) {
        return Err(TreeError::WrongParent);
    }
    let above = fields_of(&*ops, &parent);
    let was_first = match above.first_child {
        None => {
            return Err(TreeError::ParentHasNoFirstChild);
        },
        Some(first) => ops.tree_eq(&child, &first),
    };
    let was_last = match above.last_child {
        None => {
            return Err(TreeError::ParentHasNoLastChild);
        },
        Some(last) => ops.tree_eq(&child, &last),
    };
    let before = gone.prev_sibling;
    let after = gone.next_sibling;
    ops.with_tree_fields(
        &parent,
        |tf: &mut Tree<T>|
            ensures
                *final(tf) == (Tree {
                    first_child: if was_first {
                        after
                    } else {
                        old(tf).first_child
                    },
                    last_child: if was_last {
                        before
                    } else {
                        old(tf).last_child
                    },
                    ..*old(tf)
                })
            {
                if was_first {
                    tf.first_child = after;
                }
                if was_last {
                    tf.last_child = before;
                }
            },
    );
    if let Some(prev) = before {
        ops.with_tree_fields(
            &prev,
            |tf: &mut Tree<T>|
                ensures
                    *final(tf) == (Tree { next_sibling: after, ..*old(tf) })
                {
                    tf.next_sibling = after;
                },
        );
    }
    if let Some(next) = after {
        ops.with_tree_fields(
            &next,
            |tf: &mut Tree<T>|
                ensures
                    *final(tf) == (Tree { prev_sibling: before, ..*old(tf) })
                {
                    tf.prev_sibling = before;
                },
        );
    }
    ops.with_tree_fields(
        &child,
        |tf: &mut Tree<T>|
            ensures
                *final(tf) == (Tree {
                    parent: None,
                    prev_sibling: None,
                    next_sibling: None,
                    ..*old(tf)
                })
            {
                tf.parent = None;
                tf.next_sibling = None;
                tf.prev_sibling = None;
            },
    );
    proof {
        assert forall|n: T::V| #[trigger]
            ops.fields(n) == fields_after_remove(pre, parent, child, n) by {}
        if well_formed(pre) {
            lemma_remove_child(pre, *ops, parent, child);
        }
    }
    Ok(())
}

} // verus!
