//! Who owns which file of a source tree.
//!
//! An ownership file lists patterns with their owners, one rule per line.
//! [`rules::compile_rules`] reads it; [`resolve::resolve`] finds the owners
//! of a path, the last matching rule deciding; [`tree::aggregate`] sums the
//! owners of many files up into a tree of directories, each with the owner
//! that all of it shares, if there is one; [`report::group_by_owner`] lists
//! files by owner.
//!
//! Paths are [`path::RelPath`] values: relative, `/`-separated, without
//! empty, `.` or `..` segments. Text that is no such path is refused where
//! it is read, with a [`path::PathError`].
//!
//! The `*_laws` modules hold what is proved of these functions beyond
//! their own contracts.

pub mod json;
pub mod listing;
pub mod path;
pub mod pattern;
pub mod pattern_laws;
pub mod progress;
pub mod report;
pub mod resolve;
pub mod rules;
pub mod text;
pub mod text_laws;
pub mod tree;
pub mod tree_laws;
