//! Disk-usage aggregation over a snapshot of a directory tree.
//!
//! A scan is a function from what was observed of a tree (the names, kinds and
//! lengths of its nodes) to a report: one entry per node with its size, and the
//! total of the file bytes below the root. The functions here are verified
//! against spec functions that say what these sums and listings are.
//!
//! - [`tree`]: the observed tree and the byte sums defined on it.
//! - [`exclusion`]: which names a scan skips, and where.
//! - [`report`]: entries, reports, their totals and summaries.
//! - [`scan`]: the size of a subtree, the full listing, and the report of a
//!   root in shallow and in recursive mode.
//! - [`laws`], [`paths`]: what holds of every scan.
//! - [`order`]: the sorted listing.
//! - [`columns`], [`truncate`], [`ansi`], [`layout`]: widths, cut names and
//!   rows for the text listing.
//! - [`text`]: string helpers.
//!
//! Nothing here touches the file system: the caller reads the tree and hands
//! it over as a [`tree::Node`].

pub mod ansi;
pub mod columns;
pub mod exclusion;
pub mod laws;
pub mod layout;
pub mod order;
pub mod paths;
pub mod report;
pub mod scan;
pub mod text;
pub mod tree;
pub mod truncate;
