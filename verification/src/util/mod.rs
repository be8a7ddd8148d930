pub mod list;
pub mod tree;
