pub mod binary_indexed_tree;

pub use binary_indexed_tree::BinaryIndexedTree;
