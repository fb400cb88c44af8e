//! Renders a rooted tree of labeled nodes as text, drawing box characters
//! ("├─", "└─", "│ ") to show parent/child and sibling structure.
//!
//! The rendering of every tree is pinned down by the spec functions in
//! [`model`]; the executable [`tree::TreeNode`] type carries contracts that
//! tie its output to that model, and [`laws`] proves the layout properties
//! the format guarantees.

pub mod laws;
pub mod model;
pub mod tree;

pub use tree::TreeNode;
