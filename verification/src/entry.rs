//! The two shapes a reported result takes: an entry ranked by a point in
//! time and an entry ranked by its size. Times are carried as plain
//! nanosecond counts so the core can be verified over them; the
//! presentation layer turns them back into calendar form.
use vstd::prelude::*;

verus! {

/// A result ranked by a timestamp, in nanoseconds.
#[derive(Clone, Debug)]
pub struct TimeEntry {
    pub path: String,
    pub time: u128,
}

/// A result ranked by a byte count.
#[derive(Clone, Debug)]
pub struct LenEntry {
    pub path: String,
    pub len: u64,
}

impl TimeEntry {
    pub fn new(path: String, time: u128) -> (r: Self)
        ensures
            r.path == path,
            r.time == time,
    {
        Self { path, time }
    }

    /// The value this entry is ranked by.
    pub fn ranking_key(&self) -> (k: u128)
        ensures
            k == self.time,
    {
        self.time
    }
}

impl LenEntry {
    pub fn new(path: String, len: u64) -> (r: Self)
        ensures
            r.path == path,
            r.len == len,
    {
        Self { path, len }
    }

    /// The value this entry is ranked by.
    pub fn ranking_key(&self) -> (k: u128)
        ensures
            k == self.len as u128,
    {
        self.len as u128
    }
}

} // verus!
