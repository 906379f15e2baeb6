//! Handles to records.

use crate::arena::Arena;
use crate::lemmas::{
    lemma_attach, lemma_connect_keeps_well_formed, lemma_detach_predecessor,
    lemma_detach_successor, lemma_release_keeps_well_formed,
};
use crate::model::{
    after_clone, after_connect, after_release, detach_predecessor, detach_successor, record_ok,
    release_reclaims, same_counts, same_data, well_formed, with_count,
};
use crate::reclaim::reclaim;
use crate::record::Record;
use vstd::prelude::*;

verus! {

/// A handle to one record of an arena.
///
/// Each live handle counts for one in its record's `external_count`:
/// [`Node::new`] and [`Node::clone`] make a handle, [`Node::release`] ends one.
/// A handle is neither `Clone` nor `Copy`, so no handle comes to be without
/// being counted. Its view is the position of its record.
#[derive(Debug)]
pub struct Node {
    id: usize,
}

impl View for Node {
    type V = usize;

    closed spec fn view(&self) -> usize {
        self.id
    }
}

impl Node {
    /// The handle's record exists in `arena`.
    pub open spec fn is_in(&self, arena: &Arena) -> bool {
        self@ < arena@.len()
    }

    /// Creates a record holding `data`, with one handle and no adjacency, and
    /// returns that handle. No existing record changes.
    pub fn new(data: i64, arena: &mut Arena) -> (node: Node)
        requires
            old(arena).wf(),
            old(arena)@.len() < usize::MAX,
        ensures
            node@ == old(arena)@.len(),
            final(arena)@ == old(arena)@.push(Record::fresh(data)),
            final(arena).wf(),
            node.is_in(final(arena)),
    {
        let ghost s = arena@;
        let id = arena.allocate(data);
        proof {
            assert forall|i: int| 0 <= i < arena@.len() implies #[trigger] record_ok(arena@, i) by {
                if i < s.len() {
                    assert(record_ok(s, i));
                }
            }
        }
        Node { id }
    }

    /// Makes one more handle to the same record, and counts it.
    pub fn clone(&self, arena: &mut Arena) -> (node: Node)
        requires
            old(arena).wf(),
            self.is_in(old(arena)),
            old(arena)@[self@ as int].external_count < usize::MAX,
        ensures
            node@ == self@,
            final(arena)@ == after_clone(old(arena)@, self@),
            final(arena)@[self@ as int].external_count == old(arena)@[self@ as int].external_count
                + 1,
            same_data(old(arena)@, final(arena)@),
            final(arena).wf(),
    {
        from_internals(self.id, arena)
    }

    /// The value that the record was created with.
    pub fn data(&self, arena: &Arena) -> (data: i64)
        requires
            self.is_in(arena),
        ensures
            data == arena@[self@ as int].data,
    {
        arena.get(self.id).data
    }

    /// The position of the handle's record in its arena.
    pub fn id(&self) -> (id: usize)
        ensures
            id == self@,
    {
        self.id
    }

    /// Makes `other` the successor of `self`.
    ///
    /// First `self` lets go of the successor it has, if any: where `self` still
    /// has a `liveness_next`, the old successor has a handle behind it and is
    /// only unhooked; where it has none, the old successor's chain is
    /// reclaimed at once. Then `other` lets go of its predecessor in the same
    /// way, decided by its `liveness_prev`. Then the two records are joined in
    /// the link chain and in the liveness chain. No count changes.
    pub fn connect(&self, other: &Node, arena: &mut Arena)
        requires
            old(arena).wf(),
            self.is_in(old(arena)),
            other.is_in(old(arena)),
        ensures
            final(arena)@ == after_connect(old(arena)@, self@, other@),
            final(arena)@[self@ as int].link_next == Some(other@),
            final(arena)@[other@ as int].link_prev == Some(self@),
            final(arena)@[self@ as int].liveness_next == Some(other@),
            final(arena)@[other@ as int].liveness_prev == Some(self@),
            same_data(old(arena)@, final(arena)@),
            same_counts(old(arena)@, final(arena)@),
            final(arena).wf(),
    {
        let a = self.id;
        let b = other.id;
        let ghost s = arena@;
        proof {
            lemma_connect_keeps_well_formed(s, a, b);
            lemma_detach_successor(s, a);
            lemma_detach_predecessor(detach_successor(s, a), b);
            lemma_attach(detach_predecessor(detach_successor(s, a), b), a, b);
            assert(record_ok(s, a as int));
        }
        let first = arena.get(a);
        if let Some(old_next) = first.link_next {
            if let Some(backed) = first.liveness_next {
                arena.set_liveness_prev(backed, None);
                arena.set_liveness_next(a, None);
                arena.set_link_prev(old_next, None);
                arena.set_link_next(a, None);
            } else {
                reclaim(arena, old_next);
            }
        }
        assert(arena@ == detach_successor(s, a));
        proof {
            assert(record_ok(arena@, b as int));
        }
        let second = arena.get(b);
        if let Some(old_prev) = second.link_prev {
            if let Some(backed) = second.liveness_prev {
                arena.set_liveness_next(backed, None);
                arena.set_liveness_prev(b, None);
                arena.set_link_next(old_prev, None);
                arena.set_link_prev(b, None);
            } else {
                reclaim(arena, old_prev);
            }
        }
        assert(arena@ == detach_predecessor(detach_successor(s, a), b));
        arena.set_link_next(a, Some(b));
        arena.set_link_prev(b, Some(a));
        arena.set_liveness_next(a, Some(b));
        arena.set_liveness_prev(b, Some(a));
    }

    /// Ends this handle. Returns whether the record's chain was reclaimed.
    ///
    /// The record's count goes down by one; a count that is already zero
    /// stays zero, and nothing else happens then. When the count reaches zero,
    /// the liveness chain is led around the record: its liveness predecessor
    /// takes over its liveness successor, and the other way round. If the
    /// record has neither of the two, its chain is reclaimed.
    pub fn release(self, arena: &mut Arena) -> (reclaimed: bool)
        requires
            old(arena).wf(),
            self.is_in(old(arena)),
        ensures
            final(arena)@ == after_release(old(arena)@, self@),
            reclaimed == release_reclaims(old(arena)@, self@),
            same_data(old(arena)@, final(arena)@),
            final(arena).wf(),
    {
        let a = self.id;
        let ghost s = arena@;
        proof {
            lemma_release_keeps_well_formed(s, a);
            assert(record_ok(s, a as int));
        }
        let before = arena.get(a);
        let count = before.external_count.saturating_sub(1);
        arena.set_count(a, count);
        if before.external_count == 0 || count != 0 {
            assert(arena@ =~= after_release(s, a));
            return false;
        }
        if let Some(p) = before.liveness_prev {
            let next = arena.get(a).liveness_next;
            arena.set_liveness_next(p, next);
        }
        if let Some(n) = arena.get(a).liveness_next {
            let prev = arena.get(a).liveness_prev;
            arena.set_liveness_prev(n, prev);
        }
        let after = arena.get(a);
        if after.liveness_next.is_none() && after.liveness_prev.is_none() {
            proof {
                let s1 = with_count(s, a, 0);
                assert(arena@ == s1);
                assert forall|i: int| 0 <= i < s1.len() implies #[trigger] record_ok(s1, i) by {
                    assert(record_ok(s, i));
                }
                assert(well_formed(s1));
            }
            reclaim(arena, a);
            true
        } else {
            false
        }
    }
}

/// Makes a handle to the record at position `id`, and counts it.
fn from_internals(id: usize, arena: &mut Arena) -> (node: Node)
    requires
        old(arena).wf(),
        id < old(arena)@.len(),
        old(arena)@[id as int].external_count < usize::MAX,
    ensures
        node@ == id,
        final(arena)@ == after_clone(old(arena)@, id),
        final(arena).wf(),
{
    let ghost s = arena@;
    let count = arena.get(id).external_count + 1;
    arena.set_count(id, count);
    proof {
        assert forall|i: int| 0 <= i < arena@.len() implies #[trigger] record_ok(arena@, i) by {
            assert(record_ok(s, i));
        }
    }
    Node { id }
}

} // verus!
