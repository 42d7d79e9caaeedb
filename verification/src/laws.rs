use vstd::prelude::*;
use crate::access::is_visit;
use crate::capability::ReadMethods;
use crate::fields::{empty_fields, TreeError};
use crate::insert::{add_child_outcome, is_after_add, lemma_add_child, lemma_add_child_outcome};
use crate::model::{
    children_of, detached_is_alone, has_child_list, is_child_list, lemma_index_of_child,
    lemma_parent_iff_child, link, linked_at, opt_at, well_formed,
};
use crate::remove::{
    children_after_remove, fields_after_remove, is_after_remove, lemma_remove_child,
    lemma_remove_child_outcome, remove_child_outcome,
};

verus! {

/// Records that are all empty are consistent, and no node has a child.
pub proof fn law_empty_is_well_formed<T: Copy + View, O: ReadMethods<T>>(ops: O)
    requires
        forall|n: T::V| #[trigger] ops.fields(n) == empty_fields::<T>(),
    ensures
        well_formed(ops),
        forall|p: T::V| #[trigger] children_of(ops, p) == Seq::<T::V>::empty(),
{
    let none = Seq::<T::V>::empty();
    assert forall|p: T::V| #[trigger] has_child_list(ops, p) by {
        assert(ops.fields(p) == empty_fields::<T>());
        assert forall|c: T::V| link(ops.fields(c).parent) == Some(p) implies #[trigger] none.contains(
            c,
        ) by {
            assert(ops.fields(c) == empty_fields::<T>());
        }
        assert(is_child_list(ops, p, none));
    }
    assert forall|c: T::V| #[trigger] detached_is_alone(ops, c) by {
        assert(ops.fields(c) == empty_fields::<T>());
    }
    assert forall|p: T::V| #[trigger] children_of(ops, p) == none by {
        assert(has_child_list(ops, p));
        let s = children_of(ops, p);
        assert(ops.fields(p) == empty_fields::<T>());
        assert(opt_at(s, 0) is None);
        assert(s =~= none);
    }
}

/// A node is among the children of at most one node.
pub proof fn law_at_most_one_parent<T: Copy + View, O: ReadMethods<T>>(
    ops: O,
    p: T::V,
    q: T::V,
    c: T::V,
)
    requires
        has_child_list(ops, p),
        has_child_list(ops, q),
        children_of(ops, p).contains(c),
        children_of(ops, q).contains(c),
    ensures
        p == q,
{
    lemma_parent_iff_child(ops, p, c);
    lemma_parent_iff_child(ops, q, c);
}

/// A node that names a parent occurs among that parent's children, at one
/// place only.
pub proof fn law_child_occurs_once<T: Copy + View, O: ReadMethods<T>>(ops: O, p: T::V, c: T::V)
    requires
        has_child_list(ops, p),
        link(ops.fields(c).parent) == Some(p),
    ensures
        children_of(ops, p).contains(c),
        forall|i: int, j: int|
            0 <= i < children_of(ops, p).len() && 0 <= j < children_of(ops, p).len()
                && children_of(ops, p)[i] == c && children_of(ops, p)[j] == c ==> i == j,
{
    lemma_parent_iff_child(ops, p, c);
}

/// The child at place `k` names its parent and, as siblings, the children at
/// the places before and after its own.
pub proof fn law_siblings_are_neighbours<T: Copy + View, O: ReadMethods<T>>(ops: O, p: T::V, k: int)
    requires
        has_child_list(ops, p),
        0 <= k < children_of(ops, p).len(),
    ensures
        link(ops.fields(children_of(ops, p)[k]).parent) == Some(p),
        link(ops.fields(children_of(ops, p)[k]).prev_sibling) == opt_at(children_of(ops, p), k - 1),
        link(ops.fields(children_of(ops, p)[k]).next_sibling) == opt_at(children_of(ops, p), k + 1),
{
    assert(linked_at(ops, p, children_of(ops, p), k));
}

/// A node names a first and a last child, or neither: neither exactly if it
/// has no child, and the same node twice exactly if it has one child.
pub proof fn law_ends_of_children<T: Copy + View, O: ReadMethods<T>>(ops: O, p: T::V)
    requires
        has_child_list(ops, p),
    ensures
        ops.fields(p).first_child is None <==> children_of(ops, p).len() == 0,
        ops.fields(p).last_child is None <==> children_of(ops, p).len() == 0,
        ops.fields(p).first_child is Some && link(ops.fields(p).first_child) == link(
            ops.fields(p).last_child,
        ) <==> children_of(ops, p).len() == 1,
{
}

/// Children come out in the order in which they were appended: after three
/// insertions under a node that had no child, its children are those three,
/// first to last.
pub proof fn law_insertion_order<T: Copy + View, O: ReadMethods<T>>(
    s0: O,
    s1: O,
    s2: O,
    s3: O,
    p: T,
    c1: T,
    c2: T,
    c3: T,
)
    requires
        well_formed(s0),
        children_of(s0, p@).len() == 0,
        add_child_outcome(s0, p, c1) is Ok,
        is_after_add(s0, s1, p, c1),
        add_child_outcome(s1, p, c2) is Ok,
        is_after_add(s1, s2, p, c2),
        add_child_outcome(s2, p, c3) is Ok,
        is_after_add(s2, s3, p, c3),
    ensures
        well_formed(s3),
        children_of(s3, p@) == seq![c1@, c2@, c3@],
{
    lemma_add_child(s0, s1, p, c1);
    lemma_add_child(s1, s2, p, c2);
    lemma_add_child(s2, s3, p, c3);
    assert(children_of(s1, p@) == children_of(s0, p@).push(c1@));
    assert(children_of(s2, p@) == children_of(s1, p@).push(c2@));
    assert(children_of(s3, p@) == children_of(s2, p@).push(c3@));
    assert(children_of(s3, p@) =~= seq![c1@, c2@, c3@]);
}

/// The nodes that the handles `hs` name, in their order.
pub open spec fn views_of<T: View>(hs: Seq<T>) -> Seq<T::V> {
    Seq::new(hs.len(), |i: int| hs[i]@)
}

/// `states` are the records before, between and after the insertions of the
/// nodes `cs`, one after the other, under `p`, each of which succeeds.
pub open spec fn is_run_of_appends<T: Copy + View, O: ReadMethods<T>>(
    states: Seq<O>,
    p: T,
    cs: Seq<T>,
) -> bool {
    &&& states.len() == cs.len() + 1
    &&& forall|i: int|
        0 <= i < cs.len() ==> add_child_outcome(states[i], p, #[trigger] cs[i]) is Ok
            && is_after_add(states[i], states[i + 1], p, cs[i])
}

/// However many children are appended to a node, they follow the children it
/// had, in the order in which they were appended.
pub proof fn law_appended_in_order<T: Copy + View, O: ReadMethods<T>>(states: Seq<O>, p: T, cs: Seq<T>)
    requires
        is_run_of_appends(states, p, cs),
        well_formed(states[0]),
    ensures
        well_formed(states.last()),
        children_of(states.last(), p@) == children_of(states[0], p@) + views_of(cs),
    decreases cs.len(),
{
    let had = children_of(states[0], p@);
    if cs.len() > 0 {
        let n = cs.len() - 1;
        let earlier = states.drop_last();
        let front = cs.drop_last();
        assert forall|i: int| 0 <= i < front.len() implies add_child_outcome(
            earlier[i],
            p,
            #[trigger] front[i],
        ) is Ok && is_after_add(earlier[i], earlier[i + 1], p, front[i]) by {
            assert(cs[i] == front[i]);
        }
        law_appended_in_order(earlier, p, front);
        assert(earlier.last() == states[n]);
        assert(cs[n] == cs.last());
        lemma_add_child(states[n], states[n + 1], p, cs[n]);
        assert(children_of(states[n + 1], p@) == children_of(states[n], p@).push(cs[n]@));
        assert((had + views_of(front)).push(cs[n]@) =~= had + views_of(cs));
    } else {
        assert(had + views_of(cs) =~= had);
    }
}

/// A visitor that always asks to go on is called on every child, in order.
pub proof fn law_visit_all<T: View, F: Fn(&T) -> bool>(f: F, kids: Seq<T::V>, seen: Seq<T>)
    requires
        is_visit(f, kids, seen),
        forall|c: T| !f.ensures((&c,), false),
    ensures
        views_of(seen) == kids,
{
    if 0 < seen.len() < kids.len() {
        assert(f.ensures((&seen[seen.len() - 1],), false));
    }
    assert(views_of(seen) =~= kids);
}

/// A visitor that asks to stop at once is called on the first child and on no
/// other, however many children follow.
pub proof fn law_visit_stops_early<T: View, F: Fn(&T) -> bool>(
    f: F,
    kids: Seq<T::V>,
    seen: Seq<T>,
)
    requires
        is_visit(f, kids, seen),
        kids.len() > 0,
        forall|c: T| !f.ensures((&c,), true),
    ensures
        views_of(seen) == seq![kids[0]],
{
    if seen.len() > 1 {
        assert(f.ensures((&seen[0],), true));
    }
    assert(views_of(seen) =~= seq![kids[0]]);
}

/// A node whose record is empty is a leaf.
pub proof fn law_fresh_node_is_leaf<T: Copy + View, O: ReadMethods<T>>(ops: O, node: T::V)
    requires
        ops.fields(node) == empty_fields::<T>(),
    ensures
        ops.fields(node).first_child is None,
{
}

/// A node is no leaf after a child was appended to it.
pub proof fn law_parent_is_no_leaf<T: Copy + View, O: ReadMethods<T>>(pre: O, post: O, parent: T, child: T)
    requires
        well_formed(pre),
        add_child_outcome(pre, parent, child) is Ok,
        is_after_add(pre, post, parent, child),
    ensures
        post.fields(parent@).first_child is Some,
        children_of(post, parent@).len() > 0,
{
    lemma_add_child(pre, post, parent, child);
    assert(children_of(post, parent@) == children_of(pre, parent@).push(child@));
    assert(has_child_list(post, parent@));
}

/// A node is a leaf again after its only child was taken out.
pub proof fn law_leaf_again<T: Copy + View, O: ReadMethods<T>>(pre: O, post: O, parent: T, child: T)
    requires
        well_formed(pre),
        children_of(pre, parent@) == seq![child@],
        remove_child_outcome(pre, parent, child) is Ok,
        is_after_remove(pre, post, parent, child),
    ensures
        post.fields(parent@).first_child is None,
        children_of(post, parent@).len() == 0,
{
    lemma_remove_child(pre, post, parent, child);
    assert(has_child_list(post, parent@));
}

/// Taking out one child leaves one child fewer, and the others in their order.
pub proof fn law_removal_reduces_count<T: Copy + View, O: ReadMethods<T>>(
    pre: O,
    post: O,
    parent: T,
    child: T,
)
    requires
        well_formed(pre),
        remove_child_outcome(pre, parent, child) is Ok,
        is_after_remove(pre, post, parent, child),
    ensures
        children_of(post, parent@).len() == children_of(pre, parent@).len() - 1,
        children_of(post, parent@) == children_of(pre, parent@).remove(
            children_of(pre, parent@).index_of(child@),
        ),
        !children_of(post, parent@).contains(child@),
{
    lemma_remove_child(pre, post, parent, child);
    assert(children_of(post, parent@) == children_after_remove(pre, parent, child, parent@));
}

/// A child stays a child while another child of its parent is taken out.
pub proof fn law_other_children_stay<T: Copy + View, O: ReadMethods<T>>(
    pre: O,
    post: O,
    parent: T,
    child: T,
    other: T::V,
)
    requires
        well_formed(pre),
        remove_child_outcome(pre, parent, child) is Ok,
        is_after_remove(pre, post, parent, child),
        children_of(pre, parent@).contains(other),
        other != child@,
    ensures
        children_of(post, parent@).contains(other),
{
    assert(has_child_list(pre, parent@));
    lemma_parent_iff_child(pre, parent@, other);
    lemma_remove_child(pre, post, parent, child);
    assert(post.fields(other) == fields_after_remove(pre, parent, child, other));
    assert(has_child_list(post, parent@));
    lemma_parent_iff_child(post, parent@, other);
}

/// A node with three children has none left after the three were taken out,
/// in whatever order; each of the three removals succeeds.
pub proof fn law_removing_all_three<T: Copy + View, O: ReadMethods<T>>(
    s0: O,
    s1: O,
    s2: O,
    s3: O,
    p: T,
    a: T,
    b: T,
    c: T,
)
    requires
        well_formed(s0),
        children_of(s0, p@).len() == 3,
        children_of(s0, p@).contains(a@),
        children_of(s0, p@).contains(b@),
        children_of(s0, p@).contains(c@),
        a@ != b@ && a@ != c@ && b@ != c@,
        is_after_remove(s0, s1, p, a),
        is_after_remove(s1, s2, p, b),
        is_after_remove(s2, s3, p, c),
    ensures
        remove_child_outcome(s0, p, a) is Ok,
        remove_child_outcome(s1, p, b) is Ok,
        remove_child_outcome(s2, p, c) is Ok,
        children_of(s1, p@).len() == 2,
        children_of(s2, p@).len() == 1,
        children_of(s3, p@).len() == 0,
{
    assert(has_child_list(s0, p@));
    lemma_parent_iff_child(s0, p@, a@);
    lemma_remove_child_outcome(s0, p, a);
    lemma_remove_child(s0, s1, p, a);
    law_other_children_stay(s0, s1, p, a, b@);
    law_other_children_stay(s0, s1, p, a, c@);
    assert(has_child_list(s1, p@));
    lemma_parent_iff_child(s1, p@, b@);
    lemma_remove_child_outcome(s1, p, b);
    lemma_remove_child(s1, s2, p, b);
    law_other_children_stay(s1, s2, p, b, c@);
    assert(has_child_list(s2, p@));
    lemma_parent_iff_child(s2, p@, c@);
    lemma_remove_child_outcome(s2, p, c);
    lemma_remove_child(s2, s3, p, c);
}

/// Taking out the child at place `k` leaves the children before and after it,
/// in their order.
pub proof fn law_removal_at<T: Copy + View, O: ReadMethods<T>>(
    pre: O,
    post: O,
    parent: T,
    child: T,
    k: int,
)
    requires
        well_formed(pre),
        0 <= k < children_of(pre, parent@).len(),
        children_of(pre, parent@)[k] == child@,
        is_after_remove(pre, post, parent, child),
    ensures
        remove_child_outcome(pre, parent, child) is Ok,
        children_of(post, parent@) == children_of(pre, parent@).remove(k),
{
    assert(has_child_list(pre, parent@));
    lemma_index_of_child(pre, parent@, k);
    assert(children_of(pre, parent@).contains(child@));
    lemma_parent_iff_child(pre, parent@, child@);
    lemma_remove_child_outcome(pre, parent, child);
    lemma_remove_child(pre, post, parent, child);
    assert(children_of(post, parent@) == children_after_remove(pre, parent, child, parent@));
}

/// A node that was taken out names no parent and no sibling, and can be
/// appended to any other node, its former parent included.
pub proof fn law_detach_then_reattach<T: Copy + View, O: ReadMethods<T>>(
    pre: O,
    post: O,
    parent: T,
    child: T,
    target: T,
)
    requires
        well_formed(pre),
        remove_child_outcome(pre, parent, child) is Ok,
        is_after_remove(pre, post, parent, child),
        target@ != child@,
    ensures
        post.fields(child@).parent is None,
        post.fields(child@).prev_sibling is None,
        post.fields(child@).next_sibling is None,
        add_child_outcome(post, target, child) is Ok,
{
    lemma_remove_child(pre, post, parent, child);
    assert(post.fields(child@) == fields_after_remove(pre, parent, child, child@));
    lemma_add_child_outcome(post, target, child);
}

/// No node can be appended to itself.
pub proof fn law_self_parent_rejected<T: Copy + View, O: ReadMethods<T>>(ops: O, node: T)
    ensures
        add_child_outcome(ops, node, node) == Err::<(), TreeError>(TreeError::SelfParent),
{
}

/// A child cannot be taken out of a node that is not its parent.
pub proof fn law_mismatched_removal_rejected<T: Copy + View, O: ReadMethods<T>>(
    ops: O,
    parent: T,
    other: T,
    child: T,
)
    requires
        link(ops.fields(child@).parent) == Some(parent@),
        other@ != parent@,
    ensures
        remove_child_outcome(ops, other, child) == Err::<(), TreeError>(TreeError::WrongParent),
{
}

/// One call of `add_child` or of `remove_child`.
pub enum Step<T> {
    Add { parent: T, child: T },
    Remove { parent: T, child: T },
}

/// The call `step` leads from the records `pre` to the records `post`: where
/// it succeeds it changes the records as it should, and where it is refused
/// it changes nothing.
pub open spec fn is_step<T: Copy + View, O: ReadMethods<T>>(pre: O, post: O, step: Step<T>) -> bool {
    match step {
        Step::Add { parent, child } => if add_child_outcome(pre, parent, child) is Ok {
            is_after_add(pre, post, parent, child)
        } else {
            post == pre
        },
        Step::Remove { parent, child } => if remove_child_outcome(pre, parent, child) is Ok {
            is_after_remove(pre, post, parent, child)
        } else {
            post == pre
        },
    }
}

/// `states` are the records before, between and after the calls `steps`.
pub open spec fn is_run<T: Copy + View, O: ReadMethods<T>>(
    states: Seq<O>,
    steps: Seq<Step<T>>,
) -> bool {
    &&& states.len() == steps.len() + 1
    &&& forall|i: int|
        0 <= i < steps.len() ==> is_step(states[i], states[i + 1], #[trigger] steps[i])
}

/// One call keeps consistent records consistent.
pub proof fn law_step_keeps_consistency<T: Copy + View, O: ReadMethods<T>>(
    pre: O,
    post: O,
    step: Step<T>,
)
    requires
        well_formed(pre),
        is_step(pre, post, step),
    ensures
        well_formed(post),
{
    match step {
        Step::Add { parent, child } => {
            if add_child_outcome(pre, parent, child) is Ok {
                lemma_add_child(pre, post, parent, child);
            }
        },
        Step::Remove { parent, child } => {
            if remove_child_outcome(pre, parent, child) is Ok {
                lemma_remove_child(pre, post, parent, child);
            }
        },
    }
}

/// Whatever is appended and taken out, in whatever order, consistent records
/// stay consistent.
pub proof fn law_run_keeps_consistency<T: Copy + View, O: ReadMethods<T>>(
    states: Seq<O>,
    steps: Seq<Step<T>>,
)
    requires
        is_run(states, steps),
        well_formed(states[0]),
    ensures
        forall|i: int| 0 <= i < states.len() ==> well_formed(#[trigger] states[i]),
    decreases steps.len(),
{
    if steps.len() > 0 {
        let n = steps.len() - 1;
        let earlier = states.drop_last();
        let front = steps.drop_last();
        assert forall|i: int| 0 <= i < front.len() implies is_step(
            earlier[i],
            earlier[i + 1],
            #[trigger] front[i],
        ) by {
            assert(steps[i] == front[i]);
        }
        law_run_keeps_consistency(earlier, front);
        assert(earlier[n] == states[n]);
        assert(is_step(states[n], states[n + 1], steps[n]));
        law_step_keeps_consistency(states[n], states[n + 1], steps[n]);
        assert forall|i: int| 0 <= i < states.len() implies well_formed(#[trigger] states[i]) by {
            if i <= n {
                assert(earlier[i] == states[i]);
            }
        }
    }
}

/// The nodes met on a walk of at most `steps` steps that starts at `from` and
/// follows the next-sibling links.
pub open spec fn walk_forward<T: Copy + View, O: ReadMethods<T>>(
    ops: O,
    from: Option<T>,
    steps: nat,
) -> Seq<T::V>
    decreases steps,
{
    if steps == 0 || from is None {
        Seq::empty()
    } else {
        seq![from->0@] + walk_forward(ops, ops.fields(from->0@).next_sibling, (steps - 1) as nat)
    }
}

/// The nodes met on a walk of at most `steps` steps that starts at `from` and
/// follows the previous-sibling links.
pub open spec fn walk_backward<T: Copy + View, O: ReadMethods<T>>(
    ops: O,
    from: Option<T>,
    steps: nat,
) -> Seq<T::V>
    decreases steps,
{
    if steps == 0 || from is None {
        Seq::empty()
    } else {
        seq![from->0@] + walk_backward(ops, ops.fields(from->0@).prev_sibling, (steps - 1) as nat)
    }
}

proof fn lemma_walk_forward<T: Copy + View, O: ReadMethods<T>>(
    ops: O,
    p: T::V,
    s: Seq<T::V>,
    from: Option<T>,
    i: int,
    steps: nat,
)
    requires
        is_child_list(ops, p, s),
        0 <= i <= s.len(),
        steps >= s.len() - i,
        link(from) == opt_at(s, i),
    ensures
        walk_forward(ops, from, steps) == s.skip(i),
    decreases steps,
{
    if i < s.len() {
        assert(linked_at(ops, p, s, i));
        lemma_walk_forward(ops, p, s, ops.fields(s[i]).next_sibling, i + 1, (steps - 1) as nat);
        assert(seq![s[i]] + s.skip(i + 1) =~= s.skip(i));
    } else {
        assert(s.skip(i) =~= Seq::<T::V>::empty());
    }
}

proof fn lemma_walk_backward<T: Copy + View, O: ReadMethods<T>>(
    ops: O,
    p: T::V,
    s: Seq<T::V>,
    from: Option<T>,
    i: int,
    steps: nat,
)
    requires
        is_child_list(ops, p, s),
        -1 <= i < s.len(),
        steps >= i + 1,
        link(from) == opt_at(s, i),
    ensures
        walk_backward(ops, from, steps) == s.take(i + 1).reverse(),
    decreases steps,
{
    if i >= 0 {
        assert(linked_at(ops, p, s, i));
        lemma_walk_backward(ops, p, s, ops.fields(s[i]).prev_sibling, i - 1, (steps - 1) as nat);
        assert(seq![s[i]] + s.take(i).reverse() =~= s.take(i + 1).reverse());
    } else {
        assert(s.take(i + 1).reverse() =~= Seq::<T::V>::empty());
    }
}

/// In consistent records the children of a node read the same in both
/// directions: the walk from the first child along the next-sibling links
/// meets the children first to last, and the walk from the last child along
/// the previous-sibling links meets them last to first.
pub proof fn law_sibling_walks_mirror<T: Copy + View, O: ReadMethods<T>>(ops: O, p: T::V, steps: nat)
    requires
        has_child_list(ops, p),
        steps >= children_of(ops, p).len(),
    ensures
        walk_forward(ops, ops.fields(p).first_child, steps) == children_of(ops, p),
        walk_backward(ops, ops.fields(p).last_child, steps) == children_of(ops, p).reverse(),
        walk_backward(ops, ops.fields(p).last_child, steps) == walk_forward(
            ops,
            ops.fields(p).first_child,
            steps,
        ).reverse(),
{
    let s = children_of(ops, p);
    lemma_walk_forward(ops, p, s, ops.fields(p).first_child, 0, steps);
    lemma_walk_backward(ops, p, s, ops.fields(p).last_child, s.len() - 1, steps);
    assert(s.skip(0) =~= s);
    assert(s.take(s.len() as int) =~= s);
}

/// After any run of insertions and removals on records that were consistent,
/// the children of every node still read the same in both directions.
pub proof fn law_sibling_walks_mirror_after_run<T: Copy + View, O: ReadMethods<T>>(
    states: Seq<O>,
    steps: Seq<Step<T>>,
    p: T::V,
    len: nat,
)
    requires
        is_run(states, steps),
        well_formed(states[0]),
        len >= children_of(states.last(), p).len(),
    ensures
        walk_backward(states.last(), states.last().fields(p).last_child, len) == walk_forward(
            states.last(),
            states.last().fields(p).first_child,
            len,
        ).reverse(),
{
    law_run_keeps_consistency(states, steps);
    assert(well_formed(states[states.len() - 1]));
    assert(has_child_list(states.last(), p));
    law_sibling_walks_mirror(states.last(), p, len);
}

} // verus!
