//! Heading-structured text turned into a tree of addressable sections, with
//! lookup, breadcrumb, outline and subtree-text queries over it.
pub mod text;
pub mod tree;
pub mod parser;
pub mod traversal;
