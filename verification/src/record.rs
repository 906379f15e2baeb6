//! The shared state of one list node.

use vstd::prelude::*;

verus! {

/// The state that all handles of one list node share.
///
/// A record is addressed by its position in the [`Arena`](crate::arena::Arena)
/// that holds it; the four adjacency fields hold such positions.
#[derive(Clone, Copy, Debug, PartialEq, Eq, Structural)]
pub struct Record {
    /// The value given at construction. It never changes.
    pub data: i64,
    /// The successor in the list topology.
    pub link_next: Option<usize>,
    /// The predecessor in the list topology.
    pub link_prev: Option<usize>,
    /// The successor in the liveness chain: set together with `link_next`,
    /// patched when a neighbour loses its last handle.
    pub liveness_next: Option<usize>,
    /// The predecessor in the liveness chain.
    pub liveness_prev: Option<usize>,
    /// The number of live handles that refer to this record.
    pub external_count: usize,
}

impl Record {
    /// A record as construction leaves it: one handle, no adjacency.
    pub open spec fn fresh(data: i64) -> Record {
        Record {
            data,
            link_next: None,
            link_prev: None,
            liveness_next: None,
            liveness_prev: None,
            external_count: 1,
        }
    }

    /// Neither link nor liveness field is set.
    pub open spec fn is_isolated(self) -> bool {
        &&& self.link_next is None
        &&& self.link_prev is None
        &&& self.liveness_next is None
        &&& self.liveness_prev is None
    }

    /// No handle refers to the record and no link leads from it: the state in
    /// which the last release and a reclaim together leave a record.
    pub open spec fn is_reclaimed(self) -> bool {
        &&& self.external_count == 0
        &&& self.link_next is None
        &&& self.link_prev is None
    }

    /// This record with both link fields emptied.
    pub open spec fn unlinked(self) -> Record {
        Record { link_next: None, link_prev: None, ..self }
    }

    /// Whether no handle refers to the record and no link leads from it.
    pub fn has_been_reclaimed(&self) -> (reclaimed: bool)
        ensures
            reclaimed == self.is_reclaimed(),
    {
        self.external_count == 0 && self.link_next.is_none() && self.link_prev.is_none()
    }
}

} // verus!
