//! Data model: the per-secret age record and the run configuration.

use vstd::prelude::*;

verus! {

/// Largest author timestamp (seconds since the epoch, by magnitude) that the
/// blame-output parser accepts. Timestamps beyond this are rejected as out of
/// range, mirroring the bounded range of calendar date-time libraries and
/// keeping the age subtraction free of overflow.
pub const MAX_AUTHOR_TIME: i64 = 0x10_0000_0000_0000;

/// Largest elapsed age (seconds, by magnitude) a record can carry:
/// the difference of two in-range timestamps.
pub const MAX_ELAPSED: i64 = 0x20_0000_0000_0000;

/// An elapsed age that the pipeline can humanize without overflowing the
/// underlying duration arithmetic.
pub open spec fn valid_elapsed(e: i64) -> bool {
    -MAX_ELAPSED <= e <= MAX_ELAPSED
}

/// Sort key for the report: by secret name or by elapsed age.
#[derive(Clone, Copy, PartialEq, Eq, Structural, Debug)]
pub enum SortBy {
    Name,
    LastModified,
}

/// Which side of the retention threshold to keep, if any. The two one-sided
/// modes are mutually exclusive by construction.
#[derive(Clone, Copy, PartialEq, Eq, Structural, Debug)]
pub enum ModFilter {
    NoFilter,
    OnlyUnmodified,
    OnlyModified,
}

/// One secret's age, as interpreted from a single blame query.
///
/// `path` is the store-relative identifier with the storage suffix stripped;
/// `elapsed` is the age in seconds at the moment of measurement (negative
/// values, from clock skew or future-dated commits, pass through unclamped);
/// `has_history` records whether the attribution found any prior revision.
#[derive(Debug)]
pub struct AgeRecord {
    pub path: Vec<u8>,
    pub elapsed: i64,
    pub has_history: bool,
}

impl AgeRecord {
    pub fn new(path: Vec<u8>, elapsed: i64, has_history: bool) -> (r: AgeRecord)
        ensures
            r.path == path,
            r.elapsed == elapsed,
            r.has_history == has_history,
    {
        AgeRecord { path, elapsed, has_history }
    }
}

/// The validated run configuration, as the argument-parsing front end hands
/// it to the core.
pub struct Args {
    /// Revisions to exclude from attribution.
    pub ignore_rev: Vec<String>,
    /// Files listing revisions to exclude from attribution.
    pub ignore_revs_file: Vec<String>,
    /// Retention side selection.
    pub filter: ModFilter,
    /// Retention threshold in seconds, if one was supplied.
    pub since: Option<i64>,
    /// Invert the sorted order before rendering.
    pub reverse: bool,
    /// Sort key.
    pub sort_by: SortBy,
    /// Target path patterns; empty means the whole store.
    pub file: Vec<String>,
}

} // verus!
