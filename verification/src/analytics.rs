//! Whole-graph analytics helpers that need no floating point.

use vstd::prelude::*;

use crate::index::{Dir, TraversalOpts};

verus! {

/// An all-time, all-types traversal option set for whole-graph analytics.
pub fn all_time() -> (o: TraversalOpts)
    ensures
        o.time is None,
        o.etypes is None,
        o.max_hops == u32::MAX / 2,
        o.direction == Dir::Both,
{
    TraversalOpts { time: None, etypes: None, max_hops: u32::MAX / 2, direction: Dir::Both }
}

} // verus!
