//! Library for reporting the age of each secret in a password store.
//!
//! The store's version-control history is queried one file at a time by a
//! line-history attribution ("blame") command; this crate builds the argument
//! list for that command, interprets its raw output into one [`record::AgeRecord`]
//! per file, and runs the aggregation pipeline: sort, optional reversal,
//! retention filtering by a duration threshold, and rendering of one
//! human-readable line per surviving record.

pub mod bytes;
pub mod gitargs;
pub mod parse;
pub mod pipeline;
pub mod record;
pub mod since;
