pub mod circuits;
pub mod field;
pub mod path;
pub mod tree;
