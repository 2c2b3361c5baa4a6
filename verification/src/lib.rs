//! Top-N filesystem entry reporting: a bounded best-K ranker and the
//! worklist-driven traversal state machine that feeds it.
//!
//! The library holds the decision logic only. Directory enumeration and
//! metadata queries are performed by the surrounding application, which
//! hands each discovered entry to the traversal state machine as plain
//! values (a path, an entry kind, and an optional ranking metric).
pub mod ranking;
pub mod entry;
pub mod ops;
pub mod traversal;

use vstd::prelude::*;

verus! {

/// Whether a larger or a smaller ranking key is considered better.
#[derive(Clone, Copy, PartialEq, Eq, Structural, Debug)]
pub enum Direction {
    GreaterIsBetter,
    LesserIsBetter,
}

/// `a` is strictly better than `b` under direction `d`.
pub open spec fn better(d: Direction, a: u128, b: u128) -> bool {
    match d {
        Direction::GreaterIsBetter => a > b,
        Direction::LesserIsBetter => a < b,
    }
}

/// Every failure is local to one entry or directory: the walk goes on, the
/// failure is handed to an error channel. The carried string is the path
/// (or, for an unreadable entry, the enclosing directory) at fault.
#[derive(Clone, Debug)]
pub enum WalkError {
    /// A directory on the worklist could not be opened for enumeration.
    DirUnreadable(String),
    /// One entry of a directory could not be read during enumeration.
    EntryUnreadable(String),
    /// The metadata query for a path failed.
    MetadataUnreadable(String),
    /// Metadata was readable, but the requested ranking attribute was not.
    MetricUnavailable(String),
}

} // verus!
