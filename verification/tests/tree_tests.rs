use intrusive_tree::{
    add_child, each_child, empty, fields_of, first_child, get_parent, is_leaf, last_child,
    next_sibling, parent, prev_sibling, remove_child, ReadMethods, SideTable, Tree, TreeError,
    WriteMethods,
};
use std::cell::Cell;

fn new_dummy(v: u64) -> u64 {
    v
}

fn parent_with_3_children() -> (SideTable, u64, Vec<u64>) {
    let mut table = SideTable::new();
    let children = vec![new_dummy(0), new_dummy(1), new_dummy(2)];
    let p = new_dummy(3);
    for c in children.iter() {
        assert_eq!(add_child(&mut table, p, *c), Ok(()));
    }
    (table, p, children)
}

fn count_children(table: &SideTable, p: u64) -> usize {
    let i = Cell::new(0usize);
    each_child(table, &p, |_c: &u64| {
        i.set(i.get() + 1);
        true
    });
    i.get()
}

fn forward(table: &SideTable, p: u64) -> Vec<u64> {
    let mut out = Vec::new();
    let mut at = first_child(table, &p);
    while let Some(c) = at {
        out.push(c);
        at = next_sibling(table, &c);
    }
    out
}

fn backward(table: &SideTable, p: u64) -> Vec<u64> {
    let mut out = Vec::new();
    let mut at = last_child(table, &p);
    while let Some(c) = at {
        out.push(c);
        at = prev_sibling(table, &c);
    }
    out
}

fn links(table: &SideTable, n: u64) -> [Option<u64>; 5] {
    let tf = fields_of(table, &n);
    [tf.parent, tf.first_child, tf.last_child, tf.prev_sibling, tf.next_sibling]
}

fn snapshot(table: &SideTable, upto: u64) -> Vec<[Option<u64>; 5]> {
    (0..upto).map(|n| links(table, n)).collect()
}

fn overwrite(table: &mut SideTable, n: u64, tf: Tree<u64>) {
    WriteMethods::with_tree_fields(table, &n, |slot: &mut Tree<u64>| {
        *slot = tf;
    });
}

#[test]
fn add_child_0() {
    let (table, p, children) = parent_with_3_children();
    let i = Cell::new(0u64);
    each_child(&table, &p, |c: &u64| {
        assert!(*c == i.get());
        i.set(i.get() + 1);
        true
    });
    assert!(i.get() as usize == children.len());
}

#[test]
fn add_child_break() {
    let (table, p, _) = parent_with_3_children();
    let i = Cell::new(0u64);
    each_child(&table, &p, |_c: &u64| {
        i.set(i.get() + 1);
        false
    });
    assert!(i.get() == 1);
}

#[test]
fn remove_first_child() {
    let (mut table, p, children) = parent_with_3_children();
    assert_eq!(remove_child(&mut table, p, children[0]), Ok(()));
    assert!(count_children(&table, p) == 2);
}

#[test]
fn remove_last_child() {
    let (mut table, p, children) = parent_with_3_children();
    assert_eq!(remove_child(&mut table, p, children[2]), Ok(()));
    assert!(count_children(&table, p) == 2);
}

#[test]
fn remove_middle_child() {
    let (mut table, p, children) = parent_with_3_children();
    assert_eq!(remove_child(&mut table, p, children[1]), Ok(()));
    assert!(count_children(&table, p) == 2);
}

#[test]
fn remove_all_child() {
    let (mut table, p, children) = parent_with_3_children();
    assert_eq!(remove_child(&mut table, p, children[0]), Ok(()));
    assert_eq!(remove_child(&mut table, p, children[1]), Ok(()));
    assert_eq!(remove_child(&mut table, p, children[2]), Ok(()));
    assert!(count_children(&table, p) == 0);
}

#[test]
fn empty_record_names_nothing() {
    let tf: Tree<u64> = empty();
    assert_eq!(tf.parent, None);
    assert_eq!(tf.first_child, None);
    assert_eq!(tf.last_child, None);
    assert_eq!(tf.prev_sibling, None);
    assert_eq!(tf.next_sibling, None);
}

#[test]
fn new_table_is_all_empty() {
    let table = SideTable::new();
    for n in [0u64, 1, 7, u64::MAX] {
        assert_eq!(links(&table, n), [None; 5]);
        assert!(is_leaf(&table, &n));
        assert_eq!(each_child(&table, &n, |_c: &u64| true), Vec::<u64>::new());
    }
}

#[test]
fn each_child_returns_the_children_in_insertion_order() {
    let (table, p, _) = parent_with_3_children();
    assert_eq!(each_child(&table, &p, |_c: &u64| true), vec![0, 1, 2]);
}

#[test]
fn each_child_stops_with_the_child_that_says_stop() {
    let (table, p, _) = parent_with_3_children();
    assert_eq!(each_child(&table, &p, |_c: &u64| false), vec![0]);
    assert_eq!(each_child(&table, &p, |c: &u64| *c < 1), vec![0, 1]);
    assert_eq!(each_child(&table, &p, |c: &u64| *c < 2), vec![0, 1, 2]);
}

#[test]
fn accessors_after_three_insertions() {
    let (table, p, _) = parent_with_3_children();
    assert_eq!(links(&table, 3), [None, Some(0), Some(2), None, None]);
    assert_eq!(links(&table, 0), [Some(3), None, None, None, Some(1)]);
    assert_eq!(links(&table, 1), [Some(3), None, None, Some(0), Some(2)]);
    assert_eq!(links(&table, 2), [Some(3), None, None, Some(1), None]);
    assert_eq!(parent(&table, &1), Some(p));
    assert_eq!(get_parent(&table, &1), Some(p));
    assert_eq!(parent(&table, &p), None);
    assert_eq!(get_parent(&table, &p), None);
    assert_eq!(first_child(&table, &p), Some(0));
    assert_eq!(last_child(&table, &p), Some(2));
    assert_eq!(next_sibling(&table, &0), Some(1));
    assert_eq!(next_sibling(&table, &2), None);
    assert_eq!(prev_sibling(&table, &2), Some(1));
    assert_eq!(prev_sibling(&table, &0), None);
    assert_eq!(first_child(&table, &0), None);
    assert_eq!(last_child(&table, &0), None);
}

#[test]
fn first_insertion_sets_both_ends() {
    let mut table = SideTable::new();
    assert_eq!(add_child(&mut table, 9, 4), Ok(()));
    assert_eq!(links(&table, 9), [None, Some(4), Some(4), None, None]);
    assert_eq!(links(&table, 4), [Some(9), None, None, None, None]);
}

#[test]
fn leaf_before_and_after() {
    let mut table = SideTable::new();
    assert!(is_leaf(&table, &3));
    assert_eq!(add_child(&mut table, 3, 0), Ok(()));
    assert!(!is_leaf(&table, &3));
    assert!(is_leaf(&table, &0));
    assert_eq!(remove_child(&mut table, 3, 0), Ok(()));
    assert!(is_leaf(&table, &3));
    assert_eq!(links(&table, 3), [None; 5]);
}

#[test]
fn removing_the_first_child_relinks() {
    let (mut table, p, _) = parent_with_3_children();
    assert_eq!(remove_child(&mut table, p, 0), Ok(()));
    assert_eq!(links(&table, 3), [None, Some(1), Some(2), None, None]);
    assert_eq!(links(&table, 0), [None; 5]);
    assert_eq!(links(&table, 1), [Some(3), None, None, None, Some(2)]);
    assert_eq!(links(&table, 2), [Some(3), None, None, Some(1), None]);
}

#[test]
fn removing_the_middle_child_relinks() {
    let (mut table, p, _) = parent_with_3_children();
    assert_eq!(remove_child(&mut table, p, 1), Ok(()));
    assert_eq!(links(&table, 3), [None, Some(0), Some(2), None, None]);
    assert_eq!(links(&table, 1), [None; 5]);
    assert_eq!(links(&table, 0), [Some(3), None, None, None, Some(2)]);
    assert_eq!(links(&table, 2), [Some(3), None, None, Some(0), None]);
}

#[test]
fn removing_the_last_child_relinks() {
    let (mut table, p, _) = parent_with_3_children();
    assert_eq!(remove_child(&mut table, p, 2), Ok(()));
    assert_eq!(links(&table, 3), [None, Some(0), Some(1), None, None]);
    assert_eq!(links(&table, 2), [None; 5]);
    assert_eq!(links(&table, 0), [Some(3), None, None, None, Some(1)]);
    assert_eq!(links(&table, 1), [Some(3), None, None, Some(0), None]);
}

#[test]
fn removing_any_one_leaves_two_and_all_leaves_none() {
    let orders: [[u64; 3]; 6] =
        [[0, 1, 2], [0, 2, 1], [1, 0, 2], [1, 2, 0], [2, 0, 1], [2, 1, 0]];
    for order in orders.iter() {
        let (mut table, p, _) = parent_with_3_children();
        assert_eq!(remove_child(&mut table, p, order[0]), Ok(()));
        assert_eq!(count_children(&table, p), 2);
        assert_eq!(remove_child(&mut table, p, order[1]), Ok(()));
        assert_eq!(count_children(&table, p), 1);
        assert_eq!(each_child(&table, &p, |_c: &u64| true), vec![order[2]]);
        assert_eq!(remove_child(&mut table, p, order[2]), Ok(()));
        assert_eq!(count_children(&table, p), 0);
        assert_eq!(snapshot(&table, 4), vec![[None; 5]; 4]);
    }
}

#[test]
fn a_removed_node_keeps_its_children() {
    let mut table = SideTable::new();
    assert_eq!(add_child(&mut table, 1, 2), Ok(()));
    assert_eq!(add_child(&mut table, 2, 5), Ok(()));
    assert_eq!(add_child(&mut table, 2, 6), Ok(()));
    assert_eq!(remove_child(&mut table, 1, 2), Ok(()));
    assert_eq!(links(&table, 2), [None, Some(5), Some(6), None, None]);
    assert_eq!(each_child(&table, &2, |_c: &u64| true), vec![5, 6]);
    assert_eq!(parent(&table, &5), Some(2));
}

#[test]
fn detach_then_reattach() {
    let (mut table, p, _) = parent_with_3_children();
    assert_eq!(remove_child(&mut table, p, 1), Ok(()));
    assert_eq!(parent(&table, &1), None);
    assert_eq!(prev_sibling(&table, &1), None);
    assert_eq!(next_sibling(&table, &1), None);
    assert_eq!(add_child(&mut table, p, 1), Ok(()));
    assert_eq!(each_child(&table, &p, |_c: &u64| true), vec![0, 2, 1]);
    assert_eq!(remove_child(&mut table, p, 1), Ok(()));
    assert_eq!(add_child(&mut table, 8, 1), Ok(()));
    assert_eq!(each_child(&table, &8, |_c: &u64| true), vec![1]);
    assert_eq!(each_child(&table, &p, |_c: &u64| true), vec![0, 2]);
}

#[test]
fn self_parent_is_rejected() {
    let (mut table, _, _) = parent_with_3_children();
    for x in [0u64, 3, 40] {
        let before = snapshot(&table, 5);
        assert_eq!(add_child(&mut table, x, x), Err(TreeError::SelfParent));
        assert_eq!(snapshot(&table, 5), before);
    }
}

#[test]
fn second_parent_is_rejected() {
    let (mut table, p, _) = parent_with_3_children();
    let before = snapshot(&table, 8);
    assert_eq!(add_child(&mut table, 7, 1), Err(TreeError::AlreadyHasParent));
    assert_eq!(add_child(&mut table, p, 1), Err(TreeError::AlreadyHasParent));
    assert_eq!(snapshot(&table, 8), before);
}

#[test]
fn mismatched_removal_is_rejected() {
    let (mut table, _, _) = parent_with_3_children();
    let before = snapshot(&table, 8);
    assert_eq!(remove_child(&mut table, 7, 1), Err(TreeError::WrongParent));
    assert_eq!(remove_child(&mut table, 0, 1), Err(TreeError::WrongParent));
    assert_eq!(snapshot(&table, 8), before);
}

#[test]
fn removing_a_root_is_rejected() {
    let (mut table, p, _) = parent_with_3_children();
    let before = snapshot(&table, 8);
    assert_eq!(remove_child(&mut table, p, 7), Err(TreeError::NotAChild));
    assert_eq!(remove_child(&mut table, 0, p), Err(TreeError::NotAChild));
    assert_eq!(snapshot(&table, 8), before);
}

#[test]
fn a_detached_node_with_a_sibling_is_rejected() {
    let mut table = SideTable::new();
    overwrite(&mut table, 1, Tree { prev_sibling: Some(5), ..empty() });
    overwrite(&mut table, 2, Tree { next_sibling: Some(5), ..empty() });
    let before = snapshot(&table, 8);
    assert_eq!(add_child(&mut table, 0, 1), Err(TreeError::ChildHasSiblings));
    assert_eq!(add_child(&mut table, 0, 2), Err(TreeError::ChildHasSiblings));
    assert_eq!(snapshot(&table, 8), before);
}

#[test]
fn a_tail_with_a_next_sibling_is_rejected() {
    let (mut table, p, _) = parent_with_3_children();
    let tail = fields_of(&table, &2);
    overwrite(&mut table, 2, Tree { next_sibling: Some(6), ..tail });
    let before = snapshot(&table, 8);
    assert_eq!(add_child(&mut table, p, 7), Err(TreeError::TailHasNextSibling));
    assert_eq!(snapshot(&table, 8), before);
}

#[test]
fn a_parent_without_ends_is_rejected() {
    let mut table = SideTable::new();
    overwrite(&mut table, 1, Tree { parent: Some(0), ..empty() });
    let before = snapshot(&table, 4);
    assert_eq!(remove_child(&mut table, 0, 1), Err(TreeError::ParentHasNoFirstChild));
    assert_eq!(snapshot(&table, 4), before);
    overwrite(&mut table, 0, Tree { first_child: Some(1), ..empty() });
    let before = snapshot(&table, 4);
    assert_eq!(remove_child(&mut table, 0, 1), Err(TreeError::ParentHasNoLastChild));
    assert_eq!(snapshot(&table, 4), before);
}

#[test]
fn forward_and_backward_walks_mirror() {
    let mut table = SideTable::new();
    let p = 100u64;
    let q = 200u64;
    for c in 0..6u64 {
        assert_eq!(add_child(&mut table, p, c), Ok(()));
    }
    assert_eq!(remove_child(&mut table, p, 0), Ok(()));
    assert_eq!(remove_child(&mut table, p, 3), Ok(()));
    assert_eq!(add_child(&mut table, q, 3), Ok(()));
    assert_eq!(add_child(&mut table, p, 0), Ok(()));
    assert_eq!(remove_child(&mut table, p, 5), Ok(()));
    assert_eq!(add_child(&mut table, q, 5), Ok(()));
    assert_eq!(forward(&table, p), vec![1, 2, 4, 0]);
    assert_eq!(forward(&table, q), vec![3, 5]);
    for n in [p, q, 1] {
        let mut back = backward(&table, n);
        back.reverse();
        assert_eq!(forward(&table, n), back);
        assert_eq!(each_child(&table, &n, |_c: &u64| true), back);
    }
}

#[test]
fn reading_goes_through_the_record_once() {
    let (table, _, _) = parent_with_3_children();
    let calls = Cell::new(0u32);
    let got = ReadMethods::with_tree_fields(&table, &1, |tf: &Tree<u64>| {
        calls.set(calls.get() + 1);
        tf.next_sibling
    });
    assert_eq!(got, Some(2));
    assert_eq!(calls.get(), 1);
}

#[test]
fn writing_stores_what_the_callback_hands_back() {
    let mut table = SideTable::new();
    let got = WriteMethods::with_tree_fields(&mut table, &4, |tf: &mut Tree<u64>| {
        tf.parent = Some(9);
        17u8
    });
    assert_eq!(got, 17);
    assert_eq!(links(&table, 4), [Some(9), None, None, None, None]);
    assert_eq!(links(&table, 9), [None; 5]);
    assert!(table.tree_eq(&4, &4));
    assert!(!table.tree_eq(&4, &9));
}

#[test]
fn a_node_can_be_appended_under_its_own_descendant() {
    let mut table = SideTable::new();
    assert_eq!(add_child(&mut table, 1, 2), Ok(()));
    assert_eq!(add_child(&mut table, 2, 1), Ok(()));
    assert_eq!(parent(&table, &1), Some(2));
    assert_eq!(parent(&table, &2), Some(1));
}
