//! Sort-based record deduplication for delimited tabular data, together with
//! the regex-driven field replacement that shares its row model.
//!
//! A record is an ordered sequence of raw byte-string fields. A selection is
//! an ordered list of field positions; projecting a record through a selection
//! yields its comparison key. The engine sorts all records by their projected
//! keys (stably, so ties keep their input order), then scans the sorted
//! sequence once, keeping the first record of every run of key-equal records
//! and routing the rest to an optional duplicates output.

pub mod compare;
pub mod dedup;
pub mod fold;
pub mod laws;
pub mod replace;
pub mod rows;
pub mod sort;
