//! A small HTML sanitizer.
//!
//! The crate consumes an already-parsed HTML node tree (a [`tree::Tree`],
//! typically converted from the output of an HTML parser) and walks it
//! depth-first.  For every element node a fresh [`tag::Tag`] decision object
//! is built and handed to a caller-supplied [`policy::Policy`]; the policy
//! rules on the element by calling the `Tag` mutators (allow an attribute,
//! suppress the tag, suppress the tag and its subtree, or rewrite the whole
//! subtree as literal text).  The walk then serializes the tree according to
//! those decisions and returns a single output string.
//!
//! Parsing raw HTML into a tree, and all file or stream I/O, are outside
//! this crate: callers build the tree and receive the sanitized string.

pub mod policy;
pub mod render;
pub mod tag;
pub mod text;
pub mod tree;
