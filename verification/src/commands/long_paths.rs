//! The search for long shortest paths between random articles.

use vstd::prelude::*;

verus! {

/// The number of searches that run side by side.
pub const SAMPLERS: usize = 16;

/// The longest path found so far, by its number of articles.
#[derive(Debug)]
pub struct Record {
    pub longest: usize,
}

impl Record {
    /// No path has been found yet.
    pub fn new() -> (r: Self)
        ensures
            r.longest == 0,
    {
        Record { longest: 0 }
    }

    /// Takes note of a path of `len` articles. The result says whether the
    /// path is reported: whether it is at least as long as the longest
    /// before it.
    pub fn offer(&mut self, len: usize) -> (reported: bool)
        ensures
            reported == (len >= old(self).longest),
            final(self).longest == if reported {
                len
            } else {
                old(self).longest
            },
    {
        if len >= self.longest {
            self.longest = len;
            true
        } else {
            false
        }
    }
}

/// Whether the number of paths tried so far is one at which progress is
/// reported: every hundredth.
pub fn reports_progress(paths_tried: usize) -> (b: bool)
    ensures
        b == (paths_tried % 100 == 0),
{
    paths_tried % 100 == 0
}

} // verus!
