//! Directory-usage aggregation over line-oriented filesystem inventories.
//!
//! A scan of a filesystem produces a report: one line per object, holding the
//! object's inode number, hard-link count, size and absolute path.  This
//! library parses such reports and reduces them to directory-level summaries:
//! a whole-tree total, a depth-bounded per-directory rollup, or a full
//! hierarchical tree suitable for interactive browsing export.  Hard-linked
//! objects are counted once per accounting scope.

pub mod config;
pub mod depth;
pub mod digits;
pub mod laws;
pub mod ncdu;
pub mod paths;
pub mod policy;
pub mod report;
pub mod scan;
pub mod total;
pub mod usage;
