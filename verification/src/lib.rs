//! A verified directory-tree scanner core.
//!
//! The crate holds the decisions of a recursive scan of model folders as pure
//! functions on plain values: which directories a traversal may enter, which
//! files an extension filter keeps, how partial results of concurrent workers
//! are merged, and in which order the final listing is returned. Reading the
//! file system is left to the caller, who hands over what it saw.
//!
//! - [`order`]: the byte-wise order of strings.
//! - [`table`]: a sorted table keyed by strings, with a one-pass merge.
//! - [`string_set`], [`dir_map`]: the file set and the directory map.
//! - [`entry`]: what a traversal reports, the traversal filter and the
//!   extension matcher.
//! - [`scan`]: the scan engine, sequential and partitioned.
//! - [`laws`]: what is proved of every scan.
//! - [`progress`]: the rule for the progress spinner.

pub mod order;
pub mod table;
pub mod string_set;
pub mod dir_map;
pub mod entry;
pub mod scan;
pub mod laws;
pub mod progress;
