use vstd::prelude::*;

verus! {

/// A directed edge of the graph: the node it points to, and that node's
/// distance from the node (or query) the edge was computed for.
///
/// Distances are order keys: any integer whose order is the order of the
/// underlying distances (for non-negative `f32` distances, their bit patterns).
#[derive(Clone, Copy, Debug, PartialEq, Eq, Structural)]
pub struct Link {
    pub node_index: usize,
    pub distance: u32,
}

/// The order of links: by distance, and by node index among equal distances.
pub open spec fn link_lt(a: Link, b: Link) -> bool {
    a.distance < b.distance || (a.distance == b.distance && a.node_index < b.node_index)
}

impl Link {
    /// Whether `self` comes strictly before `other` in the order of links.
    pub fn precedes(&self, other: &Link) -> (r: bool)
        ensures
            r == link_lt(*self, *other),
    {
        self.distance < other.distance || (self.distance == other.distance && self.node_index
            < other.node_index)
    }
}

} // verus!
