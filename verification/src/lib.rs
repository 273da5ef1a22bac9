//! A verified assignment allocator: distributes a roster of enabled
//! participants over a catalog of weighted tasks ("services"), either by
//! near-equal split (basic mode) or with a coverage guarantee followed by
//! weight-proportional distribution (detailed mode).

pub mod allocator;
pub mod detailed;
pub mod model;
pub mod render;
mod shuffle;

use vstd::prelude::*;

verus! {

/// The view of a list of owned strings as a sequence of character sequences.
pub open spec fn names_of(s: Seq<String>) -> Seq<Seq<char>> {
    s.map_values(|n: String| n@)
}

} // verus!

