//! A static analysis engine that scans source files with regular
//! expressions, syntax-tree queries and taint tracking, and reports
//! deduplicated findings.
//!
//! - [`text`]: character-level text operations.
//! - [`patterns`]: regular expressions and wildcard patterns.
//! - [`issues`]: findings and their fingerprints.
//! - [`rules`]: the rule catalog.
//! - [`ast_parser`]: syntax trees and their traversal.
//! - [`call_names`]: the names that nodes refer to and that calls call.
//! - [`graph`]: control-flow graphs of functions and the call graph of a
//!   project.
//! - [`analysis`]: the line scanner, the tree matcher, the two taint
//!   trackers, and the orchestration of a scan.

pub mod analysis;
pub mod ast_parser;
pub mod call_names;
pub mod graph;
pub mod issues;
pub mod patterns;
pub mod rules;
pub mod text;
