pub mod fields;
pub mod capability;
pub mod model;
pub mod access;
pub mod insert;
pub mod remove;
pub mod laws;
pub mod table;

pub use access::{
    each_child, fields_of, first_child, get_parent, is_leaf, last_child, next_sibling, parent,
    prev_sibling,
};
pub use capability::{ReadMethods, WriteMethods};
pub use fields::{empty, Tree, TreeError};
pub use insert::add_child;
pub use remove::remove_child;
pub use table::SideTable;
