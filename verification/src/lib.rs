//! Verified core of a POSIX.1e ACL manager: the ACL entry model, the
//! extended-attribute wire format, the load/stage/apply lifecycle, the lazy
//! filesystem tree and the decisions behind the terminal dialogs.
pub mod acl;
pub mod sorting;
pub mod tree;
pub mod ui;
