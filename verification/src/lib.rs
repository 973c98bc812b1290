//! Support library for run-make tests: artifact naming per target, path and
//! file-name predicates, search-path lists, text helpers, line counting with
//! regular expressions, and the comparison of directory trees.

pub mod files;
pub mod interner;
pub mod naming;
pub mod paths;
pub mod pattern;
pub mod search_paths;
pub mod targets;
pub mod text;
pub mod tree;
