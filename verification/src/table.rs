use vstd::prelude::*;
use std::collections::HashMap;
use crate::capability::{ReadMethods, WriteMethods};
use crate::fields::{empty, empty_fields, Tree};
use crate::laws::law_empty_is_well_formed;
use crate::model::{children_of, well_formed};

verus! {

/// A host that keeps the records in a table beside the nodes, keyed by the
/// node's number. Every number names a node; a node that was never written to
/// has the empty record.
pub struct SideTable {
    records: HashMap<u64, Tree<u64>>,
}

impl SideTable {
    /// A table in which no node has a parent, a child or a sibling.
    pub fn new() -> (t: SideTable)
        ensures
            forall|n: u64| #[trigger] t.fields(n) == empty_fields::<u64>(),
            well_formed(t),
            forall|p: u64| #[trigger] children_of(t, p) == Seq::<u64>::empty(),
    {
        let t = SideTable { records: HashMap::new() };
        proof {
            law_empty_is_well_formed(t);
        }
        t
    }
}

impl ReadMethods<u64> for SideTable {
    closed spec fn fields(&self, id: u64) -> Tree<u64> {
        if self.records@.contains_key(id) {
            self.records@[id]
        } else {
            empty_fields::<u64>()
        }
    }

    fn with_tree_fields<R, F: FnOnce(&Tree<u64>) -> R>(&self, node: &u64, f: F) -> (r: R) {
        match self.records.get(node) {
            Some(tf) => f(tf),
            None => {
                let tf = empty::<u64>();
                f(&tf)
            },
        }
    }
}

impl WriteMethods<u64> for SideTable {
    fn with_tree_fields<R, F: FnOnce(&mut Tree<u64>) -> R>(&mut self, node: &u64, f: F) -> (r: R) {
        let mut tf = match self.records.get(node) {
            Some(tf) => *tf,
            None => empty::<u64>(),
        };
        let r = f(&mut tf);
        self.records.insert(*node, tf);
        r
    }

    fn tree_eq(&self, a: &u64, b: &u64) -> (same: bool) {
        *a == *b
    }
}

} // verus!
