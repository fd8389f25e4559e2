//! File selection and rendering for a tool that gathers source files into one document.
//!
//! - `pattern`: wildcard patterns with `*`, matched by a left-to-right scan.
//! - `filter`: which files are selected (hidden files, extensions, include and exclude patterns).
//! - `walk`: the selected files among the paths a walk of the roots visited, in visiting order.
//! - `tree`: the directory listing, siblings in lexicographic order.
//! - `output`: the document, as plain text or in a small XML dialect.
pub mod text;
pub mod pattern;
pub mod filter;
pub mod walk;
pub mod output;
pub mod tree;
