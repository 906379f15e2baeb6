//! The store of records.

use crate::model::{
    in_range, points_to, record_ok, well_formed, with_count, with_link_next, with_link_prev,
    with_liveness_next, with_liveness_prev,
};
use crate::record::Record;
use vstd::prelude::*;

verus! {

/// Holds every record, each at a position that never changes.
///
/// The view of an arena is the sequence of its records. Handles and adjacency
/// fields are positions in that sequence. Records are only ever added, so a
/// position, once given out, stays good.
#[derive(Debug)]
pub struct Arena {
    records: Vec<Record>,
}

impl View for Arena {
    type V = Seq<Record>;

    closed spec fn view(&self) -> Seq<Record> {
        self.records@
    }
}

impl Arena {
    /// The arena's invariant: see [`well_formed`].
    pub open spec fn wf(&self) -> bool {
        well_formed(self@)
    }

    /// An arena without records.
    pub fn new() -> (arena: Arena)
        ensures
            arena@ == Seq::<Record>::empty(),
            arena.wf(),
    {
        Arena { records: Vec::new() }
    }

    /// The number of records ever created in this arena.
    pub fn len(&self) -> (n: usize)
        ensures
            n == self@.len(),
    {
        self.records.len()
    }

    /// A copy of the record at position `id`, if there is one.
    pub fn record(&self, id: usize) -> (r: Option<Record>)
        ensures
            r == if id < self@.len() {
                Some(self@[id as int])
            } else {
                None
            },
    {
        if id < self.records.len() {
            Some(self.records[id])
        } else {
            None
        }
    }

    /// Whether the invariant holds, found out by looking at every record.
    ///
    /// Every arena that [`Arena::new`] and the operations of this library
    /// have made is well formed, so this is for callers that cannot
    /// rely on the proofs.
    pub fn is_well_formed(&self) -> (ok: bool)
        ensures
            ok == self.wf(),
    {
        let n = self.records.len();
        let mut i: usize = 0;
        while i < n
            invariant
                n == self@.len(),
                i <= n,
                forall|j: int| 0 <= j < i ==> #[trigger] record_ok(self@, j),
            decreases n - i,
        {
            let r = self.records[i];
            let ok = self.holds(r.link_next) && self.holds(r.link_prev) && self.holds(
                r.liveness_next,
            ) && self.holds(r.liveness_prev) && self.is_answered_by_prev(r.link_next, i)
                && self.is_answered_by_next(r.link_prev, i);
            if !ok {
                assert(!record_ok(self@, i as int));
                return false;
            }
            i += 1;
        }
        true
    }

    /// Whether `field` is empty or names a record of this arena.
    fn holds(&self, field: Option<usize>) -> (ok: bool)
        ensures
            ok == in_range(self@, field),
    {
        match field {
            Some(j) => j < self.records.len(),
            None => true,
        }
    }

    /// Whether the record that `link_next` names, if any, has `i` as its
    /// `link_prev`.
    fn is_answered_by_prev(&self, link_next: Option<usize>, i: usize) -> (ok: bool)
        requires
            in_range(self@, link_next),
        ensures
            ok == (link_next matches Some(n) ==> points_to(self@[n as int].link_prev, i as int)),
    {
        match link_next {
            Some(n) => match self.records[n].link_prev {
                Some(back) => back == i,
                None => false,
            },
            None => true,
        }
    }

    /// Whether the record that `link_prev` names, if any, has `i` as its
    /// `link_next`.
    fn is_answered_by_next(&self, link_prev: Option<usize>, i: usize) -> (ok: bool)
        requires
            in_range(self@, link_prev),
        ensures
            ok == (link_prev matches Some(p) ==> points_to(self@[p as int].link_next, i as int)),
    {
        match link_prev {
            Some(p) => match self.records[p].link_next {
                Some(back) => back == i,
                None => false,
            },
            None => true,
        }
    }

    /// Appends a fresh record holding `data` and returns its position.
    pub(crate) fn allocate(&mut self, data: i64) -> (id: usize)
        ensures
            id == old(self)@.len(),
            final(self)@ == old(self)@.push(Record::fresh(data)),
    {
        let id = self.records.len();
        self.records.push(
            Record {
                data,
                link_next: None,
                link_prev: None,
                liveness_next: None,
                liveness_prev: None,
                external_count: 1,
            },
        );
        id
    }

    /// The record at position `id`.
    pub(crate) fn get(&self, id: usize) -> (r: Record)
        requires
            id < self@.len(),
        ensures
            r == self@[id as int],
    {
        self.records[id]
    }

    /// Replaces the `link_next` of the record at position `id`; nothing else
    /// changes, and nothing is done about the record that the field named.
    pub(crate) fn set_link_next(&mut self, id: usize, v: Option<usize>)
        requires
            id < old(self)@.len(),
        ensures
            final(self)@ == with_link_next(old(self)@, id, v),
    {
        self.records[id].link_next = v;
    }

    /// Replaces the `link_prev` of the record at position `id`; nothing else
    /// changes, and nothing is done about the record that the field named.
    pub(crate) fn set_link_prev(&mut self, id: usize, v: Option<usize>)
        requires
            id < old(self)@.len(),
        ensures
            final(self)@ == with_link_prev(old(self)@, id, v),
    {
        self.records[id].link_prev = v;
    }

    /// Replaces the `liveness_next` of the record at position `id`; nothing else
    /// changes, and nothing is done about the record that the field named.
    pub(crate) fn set_liveness_next(&mut self, id: usize, v: Option<usize>)
        requires
            id < old(self)@.len(),
        ensures
            final(self)@ == with_liveness_next(old(self)@, id, v),
    {
        self.records[id].liveness_next = v;
    }

    /// Replaces the `liveness_prev` of the record at position `id`; nothing else
    /// changes, and nothing is done about the record that the field named.
    pub(crate) fn set_liveness_prev(&mut self, id: usize, v: Option<usize>)
        requires
            id < old(self)@.len(),
        ensures
            final(self)@ == with_liveness_prev(old(self)@, id, v),
    {
        self.records[id].liveness_prev = v;
    }

    /// Replaces the `external_count` of the record at position `id`.
    pub(crate) fn set_count(&mut self, id: usize, v: usize)
        requires
            id < old(self)@.len(),
        ensures
            final(self)@ == with_count(old(self)@, id, v),
    {
        self.records[id].external_count = v;
    }
}

} // verus!
