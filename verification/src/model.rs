use vstd::prelude::*;
use crate::capability::ReadMethods;

verus! {

/// The element of `s` at position `i`, or `None` where `s` has no such position.
pub open spec fn opt_at<T>(s: Seq<T>, i: int) -> Option<T> {
    if 0 <= i < s.len() {
        Some(s[i])
    } else {
        None
    }
}

/// The node that a link names, if it names one.
pub open spec fn link<T: View>(h: Option<T>) -> Option<T::V> {
    match h {
        Some(x) => Some(x@),
        None => None,
    }
}

/// The node at position `i` of `s` names `p` as its parent and its two
/// neighbours in `s` as its siblings.
pub open spec fn linked_at<T: Copy + View, O: ReadMethods<T>>(
    ops: O,
    p: T::V,
    s: Seq<T::V>,
    i: int,
) -> bool {
    &&& link(ops.fields(s[i]).parent) == Some(p)
    &&& link(ops.fields(s[i]).prev_sibling) == opt_at(s, i - 1)
    &&& link(ops.fields(s[i]).next_sibling) == opt_at(s, i + 1)
}

/// `s` is the list of the children of `p`, first to last: the records of `p`
/// and of the nodes in `s` describe it in both directions, no node occurs in
/// it twice, and every node that names `p` as its parent is in it.
pub open spec fn is_child_list<T: Copy + View, O: ReadMethods<T>>(
    ops: O,
    p: T::V,
    s: Seq<T::V>,
) -> bool {
    &&& s.no_duplicates()
    &&& link(ops.fields(p).first_child) == opt_at(s, 0)
    &&& link(ops.fields(p).last_child) == opt_at(s, s.len() - 1)
    &&& forall|i: int| 0 <= i < s.len() ==> #[trigger] linked_at(ops, p, s, i)
    &&& forall|c: T::V| link(ops.fields(c).parent) == Some(p) ==> #[trigger] s.contains(c)
}

/// The records describe a list of children for `p`.
pub open spec fn has_child_list<T: Copy + View, O: ReadMethods<T>>(ops: O, p: T::V) -> bool {
    exists|s: Seq<T::V>| is_child_list(ops, p, s)
}

/// The children of `p`, first to last. Meaningful where `has_child_list` holds.
pub open spec fn children_of<T: Copy + View, O: ReadMethods<T>>(ops: O, p: T::V) -> Seq<T::V> {
    choose|s: Seq<T::V>| is_child_list(ops, p, s)
}

/// The records of a node without a parent name no sibling.
pub open spec fn detached_is_alone<T: Copy + View, O: ReadMethods<T>>(ops: O, c: T::V) -> bool {
    ops.fields(c).parent is None ==> ops.fields(c).prev_sibling is None && ops.fields(
        c,
    ).next_sibling is None
}

/// The records are consistent: every node has a list of children, and a node
/// without a parent has no siblings. Together these say that a node has at most
/// one parent, occurs exactly once among that parent's children, and that each
/// list of children reads the same forward and backward. They do not say that
/// the way from a node up through its parents ends: a node appended under one
/// of its own descendants leaves the records consistent in this sense.
pub open spec fn well_formed<T: Copy + View, O: ReadMethods<T>>(ops: O) -> bool {
    &&& forall|p: T::V| #[trigger] has_child_list(ops, p)
    &&& forall|c: T::V| #[trigger] detached_is_alone(ops, c)
}

proof fn lemma_lists_agree_at<T: Copy + View, O: ReadMethods<T>>(
    ops: O,
    p: T::V,
    a: Seq<T::V>,
    b: Seq<T::V>,
    i: nat,
)
    requires
        is_child_list(ops, p, a),
        is_child_list(ops, p, b),
    ensures
        opt_at(a, i as int) == opt_at(b, i as int),
    decreases i,
{
    if i > 0 {
        let j: int = i - 1;
        lemma_lists_agree_at(ops, p, a, b, j as nat);
        if j < a.len() {
            assert(linked_at(ops, p, a, j));
            assert(linked_at(ops, p, b, j));
        }
    }
}

/// A node has at most one list of children.
pub proof fn lemma_child_list_unique<T: Copy + View, O: ReadMethods<T>>(
    ops: O,
    p: T::V,
    a: Seq<T::V>,
    b: Seq<T::V>,
)
    requires
        is_child_list(ops, p, a),
        is_child_list(ops, p, b),
    ensures
        a == b,
{
    lemma_lists_agree_at(ops, p, a, b, a.len());
    lemma_lists_agree_at(ops, p, a, b, b.len());
    assert forall|i: int| 0 <= i < a.len() implies a[i] == b[i] by {
        lemma_lists_agree_at(ops, p, a, b, i as nat);
    }
    assert(a =~= b);
}

/// A list that fits the records is the list of children.
pub proof fn lemma_children_of_is<T: Copy + View, O: ReadMethods<T>>(
    ops: O,
    p: T::V,
    s: Seq<T::V>,
)
    requires
        is_child_list(ops, p, s),
    ensures
        has_child_list(ops, p),
        children_of(ops, p) == s,
{
    lemma_child_list_unique(ops, p, children_of(ops, p), s);
}

/// In consistent records, a node names `p` as its parent exactly if it is
/// among the children of `p`.
pub proof fn lemma_parent_iff_child<T: Copy + View, O: ReadMethods<T>>(ops: O, p: T::V, c: T::V)
    requires
        has_child_list(ops, p),
    ensures
        link(ops.fields(c).parent) == Some(p) <==> children_of(ops, p).contains(c),
{
    let s = children_of(ops, p);
    if s.contains(c) {
        let i = s.index_of(c);
        assert(linked_at(ops, p, s, i));
    }
}

/// A child is found again at its own place: no other place of the list of
/// children holds it.
pub proof fn lemma_index_of_child<T: Copy + View, O: ReadMethods<T>>(ops: O, p: T::V, k: int)
    requires
        has_child_list(ops, p),
        0 <= k < children_of(ops, p).len(),
    ensures
        children_of(ops, p).index_of(children_of(ops, p)[k]) == k,
{
    let s = children_of(ops, p);
    let i = s.index_of(s[k]);
    assert(0 <= i < s.len() && s[i] == s[k]);
}

} // verus!
