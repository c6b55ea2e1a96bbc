//! Metadata-annotated inventory of a directory tree.
//!
//! The library holds the decisions of the walk: how one directory's listing
//! and its metadata lookups combine into entities, which children are
//! descended into, and how the results of the subdirectories merge into one
//! flat collection, failing as a whole when any part fails. The filesystem
//! calls themselves are made by the caller, which hands their outcomes in.
pub mod entity;
pub mod fs;
pub mod naming;
pub mod tree;
