//! Configuration values the aggregation core is driven by.

use vstd::prelude::*;

verus! {

/// Which byte accounting a record's size field carries: the apparent file
/// size, or the allocated size in kibibytes.
#[derive(Clone, Copy, Debug, PartialEq, Eq, Structural)]
pub enum ByteMode {
    FileSize,
    KBAllocated,
}

/// Which output fields a flat row carries.
#[derive(Clone, Copy, Debug, PartialEq, Eq, Structural)]
pub enum CountMode {
    Inodes,
    Bytes,
    Both,
}

/// The encoding of a requested report file.
#[derive(Clone, Copy, Debug, PartialEq, Eq, Structural)]
pub enum ReportType {
    Du,
    Ncdu,
}

/// A requested report: where to write it and in which encoding.  A path
/// pattern opening with `{}/` is resolved against the scanned directory.
#[derive(Clone, Debug, PartialEq, Eq)]
pub struct Report {
    pub path_or_pattern: String,
    pub tpe: ReportType,
}

} // verus!
