use vstd::prelude::*;
use crate::access::fields_of;
use crate::capability::{ReadMethods, WriteMethods};
use crate::fields::{Tree, TreeError};
use crate::model::{
    children_of, detached_is_alone, has_child_list, is_child_list, lemma_children_of_is,
    lemma_parent_iff_child, link, linked_at, well_formed,
};

verus! {

/// What `add_child(parent, child)` answers on the records `ops`. The
/// conditions are looked at in this order, and the first that fails names the
/// error.
pub open spec fn add_child_outcome<T: Copy + View, O: ReadMethods<T>>(ops: O, parent: T, child: T) -> Result<
    (),
    TreeError,
> {
    let tail = ops.fields(parent@).last_child;
    if parent@ == child@ {
        Err(TreeError::SelfParent)
    } else if ops.fields(child@).parent is Some {
        Err(TreeError::AlreadyHasParent)
    } else if ops.fields(child@).prev_sibling is Some || ops.fields(child@).next_sibling is Some {
        Err(TreeError::ChildHasSiblings)
    } else if tail is Some && ops.fields(tail->0@).next_sibling is Some {
        Err(TreeError::TailHasNextSibling)
    } else {
        Ok(())
    }
}

/// The record of `n` after `child` was appended to the children of `parent`.
/// The child gets its parent and, as previous sibling, the old last child; the
/// old last child gets the child as next sibling; the parent gets the child as
/// last child, and as first child too where it had none. Nothing else changes.
pub open spec fn fields_after_add<T: Copy + View, O: ReadMethods<T>>(
    ops: O,
    parent: T,
    child: T,
    n: T::V,
) -> Tree<T> {
    let tail = ops.fields(parent@).last_child;
    let was = ops.fields(n);
    Tree {
        parent: if n == child@ {
            Some(parent)
        } else {
            was.parent
        },
        first_child: if n == parent@ && tail is None {
            Some(child)
        } else {
            was.first_child
        },
        last_child: if n == parent@ {
            Some(child)
        } else {
            was.last_child
        },
        prev_sibling: if n == child@ {
            tail
        } else {
            was.prev_sibling
        },
        next_sibling: if link(tail) == Some(n) {
            Some(child)
        } else {
            was.next_sibling
        },
    }
}

/// `post` holds the records of `pre` after `child` was appended to `parent`.
pub open spec fn is_after_add<T: Copy + View, O: ReadMethods<T>>(pre: O, post: O, parent: T, child: T) -> bool {
    forall|n: T::V| #[trigger] post.fields(n) == fields_after_add(pre, parent, child, n)
}

/// The children of `p` after `child` was appended to `parent`.
pub open spec fn children_after_add<T: Copy + View, O: ReadMethods<T>>(
    ops: O,
    parent: T,
    child: T,
    p: T::V,
) -> Seq<T::V> {
    if p == parent@ {
        children_of(ops, p).push(child@)
    } else {
        children_of(ops, p)
    }
}

proof fn lemma_add_child_list<T: Copy + View, O: ReadMethods<T>>(
    pre: O,
    post: O,
    parent: T,
    child: T,
    p: T::V,
)
    requires
        well_formed(pre),
        parent@ != child@,
        pre.fields(child@).parent is None,
        is_after_add(pre, post, parent, child),
    ensures
        is_child_list(post, p, children_after_add(pre, parent, child, p)),
{
    let s = children_of(pre, p);
    let t = children_after_add(pre, parent, child, p);
    let ps = children_of(pre, parent@);
    let tail = link(pre.fields(parent@).last_child);
    assert(has_child_list(pre, p));
    assert(has_child_list(pre, parent@));
    assert(detached_is_alone(pre, child@));
    lemma_parent_iff_child(pre, p, child@);
    assert(!s.contains(child@));
    if tail is Some {
        assert(linked_at(pre, parent@, ps, ps.len() - 1));
    }
    assert(post.fields(p) == fields_after_add(pre, parent, child, p));
    assert forall|i: int| 0 <= i < t.len() implies #[trigger] linked_at(post, p, t, i) by {
        assert(post.fields(t[i]) == fields_after_add(pre, parent, child, t[i]));
        if i < s.len() {
            assert(linked_at(pre, p, s, i));
            assert(t[i] == s[i]);
            assert(s.contains(s[i]));
            if tail == Some(s[i]) {
                assert(p == parent@);
                assert(s[i] == s[s.len() - 1]);
            }
        }
    }
    assert forall|c: T::V| link(post.fields(c).parent) == Some(p) implies #[trigger] t.contains(
        c,
    ) by {
        assert(post.fields(c) == fields_after_add(pre, parent, child, c));
        if c == child@ {
            assert(t[t.len() - 1] == child@);
        } else {
            assert(s.contains(c));
            let i = s.index_of(c);
            assert(t[i] == c);
        }
    }
}

/// Appending a child keeps consistent records consistent: the child becomes
/// the last of its parent's children, and every other list of children stays
/// as it was.
pub proof fn lemma_add_child<T: Copy + View, O: ReadMethods<T>>(pre: O, post: O, parent: T, child: T)
    requires
        well_formed(pre),
        parent@ != child@,
        pre.fields(child@).parent is None,
        is_after_add(pre, post, parent, child),
    ensures
        well_formed(post),
        forall|p: T::V| #[trigger]
            children_of(post, p) == children_after_add(pre, parent, child, p),
{
    let tail = link(pre.fields(parent@).last_child);
    assert forall|p: T::V| #[trigger] has_child_list(post, p) by {
        lemma_add_child_list(pre, post, parent, child, p);
    }
    assert forall|p: T::V| #[trigger]
        children_of(post, p) == children_after_add(pre, parent, child, p) by {
        lemma_add_child_list(pre, post, parent, child, p);
        lemma_children_of_is(post, p, children_after_add(pre, parent, child, p));
    }
    assert forall|c: T::V| #[trigger] detached_is_alone(post, c) by {
        assert(post.fields(c) == fields_after_add(pre, parent, child, c));
        assert(detached_is_alone(pre, c));
        if tail == Some(c) {
            let ps = children_of(pre, parent@);
            assert(has_child_list(pre, parent@));
            assert(linked_at(pre, parent@, ps, ps.len() - 1));
        }
    }
}

/// On consistent records `add_child` succeeds exactly where the two nodes
/// differ and the child has no parent.
pub proof fn lemma_add_child_outcome<T: Copy + View, O: ReadMethods<T>>(ops: O, parent: T, child: T)
    requires
        well_formed(ops),
    ensures
        add_child_outcome(ops, parent, child) is Ok <==> parent@ != child@ && ops.fields(
            child@,
        ).parent is None,
{
    let ps = children_of(ops, parent@);
    assert(has_child_list(ops, parent@));
    assert(detached_is_alone(ops, child@));
    if ps.len() > 0 {
        assert(linked_at(ops, parent@, ps, ps.len() - 1));
    }
}

/// Appends `child` to the children of `parent`.
///
/// The insertion is refused, and nothing changes, where the two handles name
/// the same node, where `child` has a parent, and where a record that should
/// name no sibling names one. Whether `parent` descends from `child` is not
/// looked at.
pub fn add_child<T: Copy + View, O: WriteMethods<T>>(ops: &mut O, parent: T, child: T) -> (r: Result<
    (),
    TreeError,
>)
    ensures
        r == add_child_outcome(*old(ops), parent, child),
        r is Ok ==> is_after_add(*old(ops), *final(ops), parent, child),
        r is Err ==> *final(ops) == *old(ops),
        well_formed(*old(ops)) ==> well_formed(*final(ops)),
        well_formed(*old(ops)) ==> (r is Ok <==> parent@ != child@ && old(ops).fields(
            child@,
        ).parent is None),
        well_formed(*old(ops)) && r is Ok ==> forall|p: T::V| #[trigger]
            children_of(*final(ops), p) == children_after_add(*old(ops), parent, child, p),
{
    let ghost pre = *ops;
    proof {
        if well_formed(pre) {
            lemma_add_child_outcome(pre, parent, child);
        }
    }
    if ops.tree_eq(&parent, &child) {
        return Err(TreeError::SelfParent);
    }
    let child_tf = fields_of(&*ops, &child);
    if child_tf.parent.is_some() {
        return Err(TreeError::AlreadyHasParent);
    }
    if child_tf.prev_sibling.is_some() || child_tf.next_sibling.is_some() {
        return Err(TreeError::ChildHasSiblings);
    }
    let tail = fields_of(&*ops, &parent).last_child;
    if let Some(lc) = tail {
        if fields_of(&*ops, &lc).next_sibling.is_some() {
            return Err(TreeError::TailHasNextSibling);
        }
    }
    ops.with_tree_fields(
        &child,
        |tf: &mut Tree<T>|
            ensures
                *final(tf) == (Tree { parent: Some(parent), prev_sibling: tail, ..*old(tf) })
            {
                tf.parent = Some(parent);
                tf.prev_sibling = tail;
            },
    );
    if let Some(lc) = tail {
        ops.with_tree_fields(
            &lc,
            |tf: &mut Tree<T>|
                ensures
                    *final(tf) == (Tree { next_sibling: Some(child), ..*old(tf) })
                {
                    tf.next_sibling = Some(child);
                },
        );
    }
    ops.with_tree_fields(
        &parent,
        |tf: &mut Tree<T>|
            ensures
                *final(tf) == (Tree {
                    first_child: if tail is None {
                        Some(child)
                    } else {
                        old(tf).first_child
                    },
                    last_child: Some(child),
                    ..*old(tf)
                })
            {
                if tail.is_none() {
                    tf.first_child = Some(child);
                }
                tf.last_child = Some(child);
            },
    );
    proof {
        assert forall|n: T::V| #[trigger]
            ops.fields(n) == fields_after_add(pre, parent, child, n) by {}
        if well_formed(pre) {
            lemma_add_child(pre, *ops, parent, child);
        }
    }
    Ok(())
}

} // verus!
