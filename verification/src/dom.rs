//! The document-tree side of the transpiler: dotted paths and the tree model
//! with its depth-aware traversal.

pub mod rbx_path;
pub mod tree;
