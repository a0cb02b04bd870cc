//! The CAP choice a system makes under a network partition, and the ring
//! distance between nodes that latency estimates grow with.

use vstd::prelude::*;

verus! {

/// What a partitioned system keeps: consistency or availability.
#[derive(Debug, Clone, Copy, PartialEq, Eq, Structural)]
pub enum CapChoice {
    Consistency,
    Availability,
}

/// The number of hops between nodes `i` and `j` on a ring of `n` nodes,
/// going the shorter way round.
pub open spec fn circular_distance(i: int, j: int, n: int) -> int {
    let d = if i >= j { i - j } else { j - i };
    if d <= n - d { d } else { n - d }
}

/// The shorter way round a ring of `nodes` nodes from node `i` to node `j`.
pub fn ring_distance(i: usize, j: usize, nodes: usize) -> (d: usize)
    requires
        i < nodes,
        j < nodes,
    ensures
        d == circular_distance(i as int, j as int, nodes as int),
        d <= nodes / 2,
{
    let d = if i >= j { i - j } else { j - i };
    if d <= nodes - d { d } else { nodes - d }
}

} // verus!
