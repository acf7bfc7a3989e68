//! Hierarchy tools for flat parent/child rows: choosing the root marker,
//! building an ordered forest, and querying descendants.

pub mod record;
pub mod root;
pub mod tree;
pub mod hierarchy;
pub mod role;
pub mod validate;
pub mod paginate;
pub mod forest_laws;
pub mod scope_laws;
