//! The mathematical model: an arena is a sequence of records, and every
//! operation is a function from one such sequence to the next.

use crate::record::Record;
use vstd::prelude::*;

verus! {

/// A field either is empty or holds a position inside `s`.
pub open spec fn in_range(s: Seq<Record>, field: Option<usize>) -> bool {
    field matches Some(j) ==> j < s.len()
}

/// A field holds exactly the position `i`.
pub open spec fn points_to(field: Option<usize>, i: int) -> bool {
    field matches Some(j) && j == i
}

/// What must hold of the record at position `i`: its four adjacency fields
/// stay inside `s`, and each of its links is answered by the record it names.
pub open spec fn record_ok(s: Seq<Record>, i: int) -> bool {
    let r = s[i];
    &&& in_range(s, r.link_next)
    &&& in_range(s, r.link_prev)
    &&& in_range(s, r.liveness_next)
    &&& in_range(s, r.liveness_prev)
    &&& r.link_next matches Some(n) ==> points_to(s[n as int].link_prev, i)
    &&& r.link_prev matches Some(p) ==> points_to(s[p as int].link_next, i)
}

/// The invariant of an arena between operations: every position fits in a
/// `usize`, and `link_next(a) == b` holds exactly when `link_prev(b) == a`.
pub open spec fn well_formed(s: Seq<Record>) -> bool {
    &&& s.len() <= usize::MAX
    &&& forall|i: int| 0 <= i < s.len() ==> #[trigger] record_ok(s, i)
}

/// The record reached from `start` by following `link_next` `k` times, if
/// the links lead that far.
pub open spec fn successor(s: Seq<Record>, start: usize, k: nat) -> Option<usize>
    decreases k,
{
    if k == 0 {
        Some(start)
    } else {
        match successor(s, start, (k - 1) as nat) {
            Some(j) => s[j as int].link_next,
            None => None,
        }
    }
}

/// The record reached from `start` by following `link_prev` `k` times, if
/// the links lead that far.
pub open spec fn predecessor(s: Seq<Record>, start: usize, k: nat) -> Option<usize>
    decreases k,
{
    if k == 0 {
        Some(start)
    } else {
        match predecessor(s, start, (k - 1) as nat) {
            Some(j) => s[j as int].link_prev,
            None => None,
        }
    }
}

/// Position `i` is `start` or comes after it along `link_next`.
pub open spec fn follows(s: Seq<Record>, start: usize, i: int) -> bool {
    exists|k: nat| points_to(#[trigger] successor(s, start, k), i)
}

/// Position `i` is `start` or comes before it along `link_prev`.
pub open spec fn precedes(s: Seq<Record>, start: usize, i: int) -> bool {
    exists|k: nat| points_to(#[trigger] predecessor(s, start, k), i)
}

/// Position `i` belongs to the chain of `start`: the records that the links
/// join to `start`, in either direction, `start` itself among them.
pub open spec fn in_chain(s: Seq<Record>, start: usize, i: int) -> bool {
    follows(s, start, i) || precedes(s, start, i)
}

/// The arena after the chain of `start` has been reclaimed: every record of
/// the chain has lost both links, and nothing else has changed.
pub open spec fn after_reclaim(s: Seq<Record>, start: usize) -> Seq<Record> {
    Seq::new(
        s.len(),
        |i: int|
            if in_chain(s, start, i) {
                s[i].unlinked()
            } else {
                s[i]
            },
    )
}

/// `s` with the `link_next` of record `i` replaced.
pub open spec fn with_link_next(s: Seq<Record>, i: usize, v: Option<usize>) -> Seq<Record> {
    s.update(i as int, Record { link_next: v, ..s[i as int] })
}

/// `s` with the `link_prev` of record `i` replaced.
pub open spec fn with_link_prev(s: Seq<Record>, i: usize, v: Option<usize>) -> Seq<Record> {
    s.update(i as int, Record { link_prev: v, ..s[i as int] })
}

/// `s` with the `liveness_next` of record `i` replaced.
pub open spec fn with_liveness_next(s: Seq<Record>, i: usize, v: Option<usize>) -> Seq<Record> {
    s.update(i as int, Record { liveness_next: v, ..s[i as int] })
}

/// `s` with the `liveness_prev` of record `i` replaced.
pub open spec fn with_liveness_prev(s: Seq<Record>, i: usize, v: Option<usize>) -> Seq<Record> {
    s.update(i as int, Record { liveness_prev: v, ..s[i as int] })
}

/// `s` with the `external_count` of record `i` replaced.
pub open spec fn with_count(s: Seq<Record>, i: usize, v: usize) -> Seq<Record> {
    s.update(i as int, Record { external_count: v, ..s[i as int] })
}

/// The arena after record `a` has let go of its successor.
///
/// Where `a` has no `link_next`, nothing changes. Where it has one and also a
/// `liveness_next`, the successor still has a handle of its own behind it: the
/// liveness link is emptied on both sides, and so is the link itself. Where it
/// has a `link_next` but no `liveness_next`, no handle will ever see the
/// successor again, and its chain is reclaimed.
pub open spec fn detach_successor(s: Seq<Record>, a: usize) -> Seq<Record> {
    match s[a as int].link_next {
        None => s,
        Some(n) => match s[a as int].liveness_next {
            Some(x) => with_link_next(
                with_link_prev(
                    with_liveness_next(with_liveness_prev(s, x, None), a, None),
                    n,
                    None,
                ),
                a,
                None,
            ),
            None => after_reclaim(s, n),
        },
    }
}

/// The arena after record `b` has let go of its predecessor: the mirror image
/// of [`detach_successor`], decided by `liveness_prev`.
pub open spec fn detach_predecessor(s: Seq<Record>, b: usize) -> Seq<Record> {
    match s[b as int].link_prev {
        None => s,
        Some(p) => match s[b as int].liveness_prev {
            Some(y) => with_link_prev(
                with_link_next(
                    with_liveness_prev(with_liveness_next(s, y, None), b, None),
                    p,
                    None,
                ),
                b,
                None,
            ),
            None => after_reclaim(s, p),
        },
    }
}

/// The arena after `b` has been made the successor of `a` in both the link
/// and the liveness chain.
pub open spec fn attach(s: Seq<Record>, a: usize, b: usize) -> Seq<Record> {
    with_liveness_prev(
        with_liveness_next(with_link_prev(with_link_next(s, a, Some(b)), b, Some(a)), a, Some(b)),
        b,
        Some(a),
    )
}

/// The arena after `a.connect(b)`: `a` lets go of its old successor, then `b`
/// of its old predecessor, then the two are joined.
pub open spec fn after_connect(s: Seq<Record>, a: usize, b: usize) -> Seq<Record> {
    attach(detach_predecessor(detach_successor(s, a), b), a, b)
}

/// The arena after one more handle to record `a` has been made.
pub open spec fn after_clone(s: Seq<Record>, a: usize) -> Seq<Record> {
    with_count(s, a, (s[a as int].external_count + 1) as usize)
}

/// The arena after record `a`, now without handles, has been taken out of
/// the liveness chain: its liveness predecessor is given its liveness
/// successor, and the other way round. The record's own fields stay.
pub open spec fn bypass(s: Seq<Record>, a: usize) -> Seq<Record> {
    let r = s[a as int];
    let s1 = match r.liveness_prev {
        Some(p) => with_liveness_next(s, p, r.liveness_next),
        None => s,
    };
    match r.liveness_next {
        Some(n) => with_liveness_prev(s1, n, r.liveness_prev),
        None => s1,
    }
}

/// Releasing a handle of record `a` reclaims the record's chain: the handle
/// is the last one, and the record has no place in the liveness chain.
pub open spec fn release_reclaims(s: Seq<Record>, a: usize) -> bool {
    let r = s[a as int];
    r.external_count == 1 && r.liveness_next is None && r.liveness_prev is None
}

/// The arena after one handle of record `a` has been released.
///
/// A count that is already zero stays zero and nothing happens. Otherwise the
/// count goes down by one. Where it reaches zero, the record's chain is
/// reclaimed if the record stands alone in the liveness chain, and else the
/// liveness chain is led around the record.
pub open spec fn after_release(s: Seq<Record>, a: usize) -> Seq<Record> {
    let r = s[a as int];
    if r.external_count == 0 {
        s
    } else {
        let s1 = with_count(s, a, (r.external_count - 1) as usize);
        if r.external_count != 1 {
            s1
        } else if release_reclaims(s, a) {
            after_reclaim(s1, a)
        } else {
            bypass(s1, a)
        }
    }
}

/// Between `s` and `t` no record was added or removed, and no `data` has
/// changed.
pub open spec fn same_data(s: Seq<Record>, t: Seq<Record>) -> bool {
    &&& t.len() == s.len()
    &&& forall|i: int| 0 <= i < s.len() ==> (#[trigger] t[i]).data == s[i].data
}

/// Between `s` and `t` no record was added or removed, and no
/// `external_count` has changed.
pub open spec fn same_counts(s: Seq<Record>, t: Seq<Record>) -> bool {
    &&& t.len() == s.len()
    &&& forall|i: int|
        0 <= i < s.len() ==> (#[trigger] t[i]).external_count == s[i].external_count
}

/// Between `s` and `t` no `data` and no `external_count` has changed, and no
/// link was set: each link field of `t` is empty or as it was in `s`.
pub open spec fn only_unlinked(s: Seq<Record>, t: Seq<Record>) -> bool {
    &&& same_data(s, t)
    &&& same_counts(s, t)
    &&& forall|i: int|
        0 <= i < s.len() ==> {
            &&& (#[trigger] t[i]).link_next is None || t[i].link_next == s[i].link_next
            &&& t[i].link_prev is None || t[i].link_prev == s[i].link_prev
        }
}

} // verus!
