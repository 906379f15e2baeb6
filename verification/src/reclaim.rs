//! Clearing the links of a chain.

use crate::arena::Arena;
use crate::lemmas::{
    lemma_closed_holds_predecessors, lemma_closed_holds_successors,
    lemma_reclaim_keeps_well_formed,
};
use crate::model::{
    after_reclaim, follows, in_chain, only_unlinked, points_to, precedes, predecessor,
    record_ok, successor, well_formed,
};
use crate::record::Record;
use vstd::prelude::*;
use vstd::set_lib::{lemma_int_range, lemma_len_subset, set_int_range};

verus! {

/// `s` is `s0` with `link_next` emptied on `no_next`, `link_prev` emptied on
/// `no_prev`, and nothing else changed.
spec fn cleared_on(s0: Seq<Record>, s: Seq<Record>, no_next: Set<int>, no_prev: Set<int>) -> bool {
    &&& s.len() == s0.len()
    &&& forall|i: int|
        0 <= i < s0.len() ==> #[trigger] s[i] == (Record {
            link_next: if no_next.contains(i) {
                None
            } else {
                s0[i].link_next
            },
            link_prev: if no_prev.contains(i) {
                None
            } else {
                s0[i].link_prev
            },
            ..s0[i]
        })
}

/// What the forward walk has established once it stands on `cur`:
/// `walked` holds the records whose `link_next` it has taken, `entered` those
/// it reached through a link, whose `link_prev` it has emptied.
spec fn forward_walk(
    s0: Seq<Record>,
    start: usize,
    walked: Set<int>,
    entered: Set<int>,
    cur: usize,
) -> bool {
    &&& walked.finite()
    &&& walked.contains(start as int)
    &&& walked.contains(cur as int)
    &&& forall|i: int| #[trigger] walked.contains(i) ==> 0 <= i < s0.len() && follows(s0, start, i)
    &&& forall|i: int| #[trigger] entered.contains(i) ==> walked.contains(i)
    &&& forall|i: int| #[trigger] walked.contains(i) && i != start ==> entered.contains(i)
    &&& forall|i: int| #[trigger]
        walked.contains(i) && i != cur ==> (s0[i].link_next matches Some(j) ==> walked.contains(
            j as int,
        ))
    &&& forall|i: int| #[trigger]
        entered.contains(i) ==> (s0[i].link_prev matches Some(j) ==> walked.contains(j as int))
}

/// What the forward walk leaves behind: `walked` holds exactly what follows
/// `start`, and is closed under `link_next`.
spec fn forward_done(s0: Seq<Record>, start: usize, walked: Set<int>, entered: Set<int>) -> bool {
    &&& walked.contains(start as int)
    &&& forall|i: int| #[trigger] walked.contains(i) ==> 0 <= i < s0.len() && follows(s0, start, i)
    &&& forall|i: int| #[trigger] entered.contains(i) ==> walked.contains(i)
    &&& forall|i: int| #[trigger] walked.contains(i) && i != start ==> entered.contains(i)
    &&& forall|i: int| #[trigger]
        walked.contains(i) ==> (s0[i].link_next matches Some(j) ==> walked.contains(j as int))
    &&& forall|i: int| #[trigger]
        entered.contains(i) ==> (s0[i].link_prev matches Some(j) ==> walked.contains(j as int))
}

/// What the backward walk has established: `back` holds the records it has
/// emptied, and `prev` is where it goes next.
spec fn backward_walk(
    s0: Seq<Record>,
    start: usize,
    walked: Set<int>,
    back: Set<int>,
    prev: Option<usize>,
) -> bool {
    &&& back.finite()
    &&& back.contains(start as int) || prev == Some(start)
    &&& forall|i: int| #[trigger] back.contains(i) ==> 0 <= i < s0.len() && precedes(s0, start, i)
    &&& prev matches Some(j) ==> j < s0.len() && precedes(s0, start, j as int)
    &&& forall|i: int| #[trigger]
        back.contains(i) ==> (s0[i].link_prev matches Some(j) ==> walked.contains(j as int)
            || back.contains(j as int) || prev == Some(j))
}

/// A set of positions below `n` is finite and has at most `n` members.
proof fn lemma_bounded_set(set: Set<int>, n: nat)
    requires
        forall|i: int| #[trigger] set.contains(i) ==> 0 <= i < n,
    ensures
        set.finite(),
        set.len() <= n,
{
    lemma_int_range(0, n as int);
    assert(set.subset_of(set_int_range(0, n as int)));
    lemma_len_subset(set, set_int_range(0, n as int));
}

/// Both walks together have emptied exactly the chain of `start`.
proof fn lemma_walks_cover_chain(
    s0: Seq<Record>,
    s: Seq<Record>,
    start: usize,
    walked: Set<int>,
    entered: Set<int>,
    back: Set<int>,
)
    requires
        well_formed(s0),
        start < s0.len(),
        forward_done(s0, start, walked, entered),
        backward_walk(s0, start, walked, back, None),
        cleared_on(s0, s, walked.union(back), entered.union(back)),
    ensures
        s == after_reclaim(s0, start),
{
    let all = walked.union(back);
    assert forall|i: int| 0 <= i < s0.len() implies s[i] == after_reclaim(s0, start)[i] by {
        if follows(s0, start, i) {
            let k = choose|k: nat| points_to(#[trigger] successor(s0, start, k), i);
            lemma_closed_holds_successors(s0, start, walked, k);
        }
        if precedes(s0, start, i) {
            let k = choose|k: nat| points_to(#[trigger] predecessor(s0, start, k), i);
            lemma_closed_holds_predecessors(s0, start, all, k);
        }
        if in_chain(s0, start, i) {
            assert(all.contains(i));
            assert(entered.union(back).contains(i));
        }
    }
    assert(s =~= after_reclaim(s0, start));
}

/// Breaks the chain that `start` belongs to.
///
/// The forward walk starts at `start`: it takes the record's `link_next`,
/// empties the `link_prev` of the record taken, and goes on from there until
/// it stands on a record without `link_next`. The backward walk starts at
/// `start` again: it takes the record's `link_prev`, empties its `link_next`,
/// and goes on from the record taken until there is none.
///
/// Afterwards every record of the chain has both links empty, and no other
/// field of any record has changed. On a chain that closes into a ring the
/// walks end where they meet a record that is already empty.
pub fn reclaim(arena: &mut Arena, start: usize)
    requires
        old(arena).wf(),
        start < old(arena)@.len(),
    ensures
        final(arena)@ == after_reclaim(old(arena)@, start),
        only_unlinked(old(arena)@, final(arena)@),
        final(arena).wf(),
{
    let ghost s0 = arena@;
    let ghost mut walked: Set<int> = Set::empty().insert(start as int);
    let ghost mut entered: Set<int> = Set::empty();
    let ghost mut cur: usize = start;
    let mut next = arena.get(start).link_next;
    arena.set_link_next(start, None);
    proof {
        assert(successor(s0, start, 0) == Some(start));
        assert(points_to(successor(s0, start, 0), start as int));
        assert(record_ok(s0, start as int));
    }
    while next.is_some()
        invariant
            well_formed(s0),
            start < s0.len(),
            forward_walk(s0, start, walked, entered, cur),
            cleared_on(s0, arena@, walked, entered),
            next matches Some(j) ==> s0[cur as int].link_next == Some(j),
            next is None ==> (s0[cur as int].link_next matches Some(j) ==> walked.contains(
                j as int,
            )),
        decreases s0.len() - walked.len() + (if next is Some { 1int } else { 0int }),
    {
        let curr = next.unwrap();
        proof {
            assert(record_ok(s0, cur as int));
            assert(record_ok(s0, curr as int));
            let k = choose|k: nat| points_to(#[trigger] successor(s0, start, k), cur as int);
            assert(points_to(successor(s0, start, k + 1), curr as int));
            lemma_bounded_set(walked, s0.len());
            lemma_bounded_set(walked.insert(curr as int), s0.len());
        }
        arena.set_link_prev(curr, None);
        next = arena.get(curr).link_next;
        arena.set_link_next(curr, None);
        proof {
            walked = walked.insert(curr as int);
            entered = entered.insert(curr as int);
            cur = curr;
        }
    }
    let ghost mut back: Set<int> = Set::empty();
    let mut prev = Some(start);
    proof {
        assert(predecessor(s0, start, 0) == Some(start));
        assert(points_to(predecessor(s0, start, 0), start as int));
        assert(walked.union(back) =~= walked);
        assert(entered.union(back) =~= entered);
    }
    while prev.is_some()
        invariant
            well_formed(s0),
            start < s0.len(),
            forward_done(s0, start, walked, entered),
            backward_walk(s0, start, walked, back, prev),
            cleared_on(s0, arena@, walked.union(back), entered.union(back)),
        decreases s0.len() - back.len() + (if prev is Some { 1int } else { 0int }),
    {
        let curr = prev.unwrap();
        proof {
            assert(record_ok(s0, curr as int));
            let k = choose|k: nat| points_to(#[trigger] predecessor(s0, start, k), curr as int);
            if let Some(j) = s0[curr as int].link_prev {
                assert(points_to(predecessor(s0, start, k + 1), j as int));
            }
            lemma_bounded_set(back, s0.len());
            lemma_bounded_set(back.insert(curr as int), s0.len());
        }
        prev = arena.get(curr).link_prev;
        arena.set_link_prev(curr, None);
        arena.set_link_next(curr, None);
        proof {
            back = back.insert(curr as int);
        }
    }
    proof {
        lemma_walks_cover_chain(s0, arena@, start, walked, entered, back);
        lemma_reclaim_keeps_well_formed(s0, start);
    }
}

} // verus!
