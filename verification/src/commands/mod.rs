//! The logic of the `clone`, `cat-file` and `ls-tree` commands, and of
//! writing out the work tree of a cloned commit.

pub mod cat_file;
pub mod checkout;
pub mod clone;
pub mod ls_tree;
