//! Proofs about the model that the operations and the laws rest on.

use crate::model::{
    after_connect, after_reclaim, after_release, attach, detach_predecessor, detach_successor,
    follows, in_chain, in_range, only_unlinked, points_to, precedes, predecessor, record_ok,
    release_reclaims, same_counts, same_data, successor, well_formed, with_count,
};
use crate::record::Record;
use vstd::prelude::*;

verus! {

/// Every record that the links reach from `start` lies inside the arena.
pub proof fn lemma_orbit_in_range(s: Seq<Record>, start: usize, k: nat)
    requires
        well_formed(s),
        start < s.len(),
    ensures
        in_range(s, successor(s, start, k)),
        in_range(s, predecessor(s, start, k)),
    decreases k,
{
    if k > 0 {
        lemma_orbit_in_range(s, start, (k - 1) as nat);
        if let Some(j) = successor(s, start, (k - 1) as nat) {
            assert(record_ok(s, j as int));
        }
        if let Some(j) = predecessor(s, start, (k - 1) as nat) {
            assert(record_ok(s, j as int));
        }
    }
}

/// A set that holds `start` and, with each record, its successor, holds all
/// that follows `start`.
pub proof fn lemma_closed_holds_successors(s: Seq<Record>, start: usize, set: Set<int>, k: nat)
    requires
        set.contains(start as int),
        forall|i: int| #[trigger]
            set.contains(i) ==> (s[i].link_next matches Some(j) ==> set.contains(j as int)),
    ensures
        successor(s, start, k) matches Some(j) ==> set.contains(j as int),
    decreases k,
{
    if k > 0 {
        lemma_closed_holds_successors(s, start, set, (k - 1) as nat);
    }
}

/// A set that holds `start` and, with each record, its predecessor, holds all
/// that precedes `start`.
pub proof fn lemma_closed_holds_predecessors(s: Seq<Record>, start: usize, set: Set<int>, k: nat)
    requires
        set.contains(start as int),
        forall|i: int| #[trigger]
            set.contains(i) ==> (s[i].link_prev matches Some(j) ==> set.contains(j as int)),
    ensures
        predecessor(s, start, k) matches Some(j) ==> set.contains(j as int),
    decreases k,
{
    if k > 0 {
        lemma_closed_holds_predecessors(s, start, set, (k - 1) as nat);
    }
}

/// A chain is closed under both links: a record that a member of the chain
/// names is a member too.
pub proof fn lemma_chain_closed(s: Seq<Record>, start: usize, i: int)
    requires
        well_formed(s),
        start < s.len(),
        0 <= i < s.len(),
        in_chain(s, start, i),
    ensures
        s[i].link_next matches Some(j) ==> in_chain(s, start, j as int),
        s[i].link_prev matches Some(j) ==> in_chain(s, start, j as int),
{
    assert(record_ok(s, i));
    if follows(s, start, i) {
        let k = choose|k: nat| points_to(#[trigger] successor(s, start, k), i);
        if let Some(j) = s[i].link_next {
            assert(points_to(successor(s, start, k + 1), j as int));
        }
        if let Some(j) = s[i].link_prev {
            if k == 0 {
                assert(predecessor(s, start, 0) == Some(start));
                assert(points_to(predecessor(s, start, 1), j as int));
            } else {
                lemma_orbit_in_range(s, start, (k - 1) as nat);
                let m = successor(s, start, (k - 1) as nat).unwrap();
                assert(record_ok(s, m as int));
                assert(points_to(successor(s, start, (k - 1) as nat), j as int));
            }
        }
    } else {
        let k = choose|k: nat| points_to(#[trigger] predecessor(s, start, k), i);
        if let Some(j) = s[i].link_prev {
            assert(points_to(predecessor(s, start, k + 1), j as int));
        }
        if let Some(j) = s[i].link_next {
            if k == 0 {
                assert(successor(s, start, 0) == Some(start));
                assert(points_to(successor(s, start, 1), j as int));
            } else {
                lemma_orbit_in_range(s, start, (k - 1) as nat);
                let m = predecessor(s, start, (k - 1) as nat).unwrap();
                assert(record_ok(s, m as int));
                assert(points_to(predecessor(s, start, (k - 1) as nat), j as int));
            }
        }
    }
}

/// Reclaiming a chain keeps the arena well formed.
pub proof fn lemma_reclaim_keeps_well_formed(s: Seq<Record>, start: usize)
    requires
        well_formed(s),
        start < s.len(),
    ensures
        well_formed(after_reclaim(s, start)),
{
    let t = after_reclaim(s, start);
    assert forall|i: int| 0 <= i < t.len() implies #[trigger] record_ok(t, i) by {
        assert(record_ok(s, i));
        if !in_chain(s, start, i) {
            if let Some(j) = s[i].link_next {
                assert(record_ok(s, j as int));
                if in_chain(s, start, j as int) {
                    lemma_chain_closed(s, start, j as int);
                }
            }
            if let Some(j) = s[i].link_prev {
                assert(record_ok(s, j as int));
                if in_chain(s, start, j as int) {
                    lemma_chain_closed(s, start, j as int);
                }
            }
        }
    }
}

/// Letting go of a successor keeps the arena well formed, sets no link, and
/// leaves `a` without `link_next`.
pub proof fn lemma_detach_successor(s: Seq<Record>, a: usize)
    requires
        well_formed(s),
        a < s.len(),
    ensures
        well_formed(detach_successor(s, a)),
        only_unlinked(s, detach_successor(s, a)),
        detach_successor(s, a)[a as int].link_next is None,
{
    let t = detach_successor(s, a);
    assert(record_ok(s, a as int));
    if let Some(n) = s[a as int].link_next {
        assert(record_ok(s, n as int));
        if s[a as int].liveness_next is Some {
            assert forall|i: int| 0 <= i < t.len() implies #[trigger] record_ok(t, i) by {
                assert(record_ok(s, i));
                if let Some(j) = s[i].link_next {
                    assert(record_ok(s, j as int));
                }
                if let Some(j) = s[i].link_prev {
                    assert(record_ok(s, j as int));
                }
            }
        } else {
            lemma_reclaim_keeps_well_formed(s, n);
            assert(predecessor(s, n, 0) == Some(n));
            assert(points_to(predecessor(s, n, 1), a as int));
        }
    }
}

/// Letting go of a predecessor keeps the arena well formed, sets no link, and
/// leaves `b` without `link_prev`.
pub proof fn lemma_detach_predecessor(s: Seq<Record>, b: usize)
    requires
        well_formed(s),
        b < s.len(),
    ensures
        well_formed(detach_predecessor(s, b)),
        only_unlinked(s, detach_predecessor(s, b)),
        detach_predecessor(s, b)[b as int].link_prev is None,
{
    let t = detach_predecessor(s, b);
    assert(record_ok(s, b as int));
    if let Some(p) = s[b as int].link_prev {
        assert(record_ok(s, p as int));
        if s[b as int].liveness_prev is Some {
            assert forall|i: int| 0 <= i < t.len() implies #[trigger] record_ok(t, i) by {
                assert(record_ok(s, i));
                if let Some(j) = s[i].link_next {
                    assert(record_ok(s, j as int));
                }
                if let Some(j) = s[i].link_prev {
                    assert(record_ok(s, j as int));
                }
            }
        } else {
            lemma_reclaim_keeps_well_formed(s, p);
            assert(successor(s, p, 0) == Some(p));
            assert(points_to(successor(s, p, 1), b as int));
        }
    }
}

/// Joining a record without successor to one without predecessor keeps the
/// arena well formed.
pub proof fn lemma_attach(s: Seq<Record>, a: usize, b: usize)
    requires
        well_formed(s),
        a < s.len(),
        b < s.len(),
        s[a as int].link_next is None,
        s[b as int].link_prev is None,
    ensures
        well_formed(attach(s, a, b)),
{
    let t = attach(s, a, b);
    assert forall|i: int| 0 <= i < t.len() implies #[trigger] record_ok(t, i) by {
        assert(record_ok(s, i));
        assert(record_ok(s, a as int));
        assert(record_ok(s, b as int));
        if let Some(j) = s[i].link_next {
            assert(record_ok(s, j as int));
        }
        if let Some(j) = s[i].link_prev {
            assert(record_ok(s, j as int));
        }
    }
}

/// `connect` keeps the arena well formed, and changes no `data` and no count.
pub proof fn lemma_connect_keeps_well_formed(s: Seq<Record>, a: usize, b: usize)
    requires
        well_formed(s),
        a < s.len(),
        b < s.len(),
    ensures
        well_formed(after_connect(s, a, b)),
        same_data(s, after_connect(s, a, b)),
        same_counts(s, after_connect(s, a, b)),
{
    let s1 = detach_successor(s, a);
    lemma_detach_successor(s, a);
    let s2 = detach_predecessor(s1, b);
    lemma_detach_predecessor(s1, b);
    lemma_attach(s2, a, b);
    let t = after_connect(s, a, b);
    assert forall|i: int| 0 <= i < s.len() implies (#[trigger] t[i]).data == s[i].data
        && t[i].external_count == s[i].external_count by {
        assert(s1[i].data == s[i].data && s1[i].external_count == s[i].external_count);
        assert(s2[i].data == s1[i].data && s2[i].external_count == s1[i].external_count);
    }
}

/// Releasing a handle keeps the arena well formed, and changes no `data`.
pub proof fn lemma_release_keeps_well_formed(s: Seq<Record>, a: usize)
    requires
        well_formed(s),
        a < s.len(),
    ensures
        well_formed(after_release(s, a)),
        same_data(s, after_release(s, a)),
{
    assert(record_ok(s, a as int));
    let r = s[a as int];
    let t = after_release(s, a);
    if r.external_count != 0 {
        let s1 = with_count(s, a, (r.external_count - 1) as usize);
        assert forall|i: int| 0 <= i < s1.len() implies #[trigger] record_ok(s1, i) by {
            assert(record_ok(s, i));
        }
        if r.external_count == 1 {
            if release_reclaims(s, a) {
                lemma_reclaim_keeps_well_formed(s1, a);
            } else {
                assert(record_ok(s, a as int));
                assert forall|i: int| 0 <= i < t.len() implies #[trigger] record_ok(t, i) by {
                    assert(record_ok(s1, i));
                }
            }
        }
    }
}

/// Following the links `k` times and then `d` times more is following them
/// `k + d` times.
pub proof fn lemma_orbit_continues(s: Seq<Record>, start: usize, k: nat, d: nat)
    ensures
        successor(s, start, k) matches Some(m) ==> successor(s, start, k + d) == successor(s, m, d),
        predecessor(s, start, k) matches Some(m) ==> predecessor(s, start, k + d) == predecessor(
            s,
            m,
            d,
        ),
    decreases d,
{
    if d > 0 {
        lemma_orbit_continues(s, start, k, (d - 1) as nat);
    }
}

/// Where the links lead `k` steps from `start`, they lead every shorter way.
pub proof fn lemma_orbit_prefix(s: Seq<Record>, start: usize, k: nat, j: nat)
    requires
        j <= k,
    ensures
        successor(s, start, k) is Some ==> successor(s, start, j) is Some,
        predecessor(s, start, k) is Some ==> predecessor(s, start, j) is Some,
    decreases k,
{
    if j < k {
        lemma_orbit_prefix(s, start, (k - 1) as nat, j);
    }
}

/// In a well-formed arena the two directions undo each other: from the record
/// `k` steps away, `d` steps back lead to the record `k - d` steps away.
pub proof fn lemma_orbit_returns(s: Seq<Record>, start: usize, k: nat, d: nat)
    requires
        well_formed(s),
        start < s.len(),
        d <= k,
    ensures
        successor(s, start, k) matches Some(m) ==> predecessor(s, m, d) == successor(
            s,
            start,
            (k - d) as nat,
        ),
        predecessor(s, start, k) matches Some(m) ==> successor(s, m, d) == predecessor(
            s,
            start,
            (k - d) as nat,
        ),
    decreases d,
{
    if d > 0 {
        lemma_orbit_returns(s, start, k, (d - 1) as nat);
        lemma_orbit_prefix(s, start, k, (k - d) as nat);
        lemma_orbit_prefix(s, start, k, (k - d + 1) as nat);
        lemma_orbit_in_range(s, start, (k - d) as nat);
        if successor(s, start, k) is Some {
            let y = successor(s, start, (k - d) as nat).unwrap();
            assert(record_ok(s, y as int));
            assert(successor(s, start, (k - d + 1) as nat) == s[y as int].link_next);
        }
        if predecessor(s, start, k) is Some {
            let y = predecessor(s, start, (k - d) as nat).unwrap();
            assert(record_ok(s, y as int));
            assert(predecessor(s, start, (k - d + 1) as nat) == s[y as int].link_prev);
        }
    }
}

/// Two members of one chain are in each other's chain.
pub proof fn lemma_chain_shared(s: Seq<Record>, start: usize, m: usize, i: int)
    requires
        well_formed(s),
        start < s.len(),
        in_chain(s, start, m as int),
        in_chain(s, start, i),
    ensures
        in_chain(s, m, i),
{
    if follows(s, start, m as int) {
        let km = choose|k: nat| points_to(#[trigger] successor(s, start, k), m as int);
        if follows(s, start, i) {
            let ki = choose|k: nat| points_to(#[trigger] successor(s, start, k), i);
            if ki >= km {
                lemma_orbit_continues(s, start, km, (ki - km) as nat);
                assert(points_to(successor(s, m, (ki - km) as nat), i));
            } else {
                lemma_orbit_returns(s, start, km, (km - ki) as nat);
                assert(points_to(predecessor(s, m, (km - ki) as nat), i));
            }
        } else {
            let ki = choose|k: nat| points_to(#[trigger] predecessor(s, start, k), i);
            lemma_orbit_returns(s, start, km, km);
            assert(successor(s, start, 0) == Some(start));
            lemma_orbit_continues(s, m, km, ki);
            assert(points_to(predecessor(s, m, km + ki), i));
        }
    } else {
        let km = choose|k: nat| points_to(#[trigger] predecessor(s, start, k), m as int);
        if precedes(s, start, i) {
            let ki = choose|k: nat| points_to(#[trigger] predecessor(s, start, k), i);
            if ki >= km {
                lemma_orbit_continues(s, start, km, (ki - km) as nat);
                assert(points_to(predecessor(s, m, (ki - km) as nat), i));
            } else {
                lemma_orbit_returns(s, start, km, (km - ki) as nat);
                assert(points_to(successor(s, m, (km - ki) as nat), i));
            }
        } else {
            let ki = choose|k: nat| points_to(#[trigger] successor(s, start, k), i);
            lemma_orbit_returns(s, start, km, km);
            assert(predecessor(s, start, 0) == Some(start));
            lemma_orbit_continues(s, m, km, ki);
            assert(points_to(successor(s, m, km + ki), i));
        }
    }
}

/// From a record without `link_next` the links lead nowhere.
pub proof fn lemma_nothing_follows_unlinked(s: Seq<Record>, i: usize, k: nat)
    requires
        s[i as int].link_next is None,
    ensures
        successor(s, i, k) == if k == 0 {
            Some(i)
        } else {
            None
        },
    decreases k,
{
    if k > 0 {
        lemma_nothing_follows_unlinked(s, i, (k - 1) as nat);
    }
}

/// To a record without `link_prev` the links lead from nowhere.
pub proof fn lemma_nothing_precedes_unlinked(s: Seq<Record>, i: usize, k: nat)
    requires
        s[i as int].link_prev is None,
    ensures
        predecessor(s, i, k) == if k == 0 {
            Some(i)
        } else {
            None
        },
    decreases k,
{
    if k > 0 {
        lemma_nothing_precedes_unlinked(s, i, (k - 1) as nat);
    }
}

/// Which records form a chain does not depend on any count.
pub proof fn lemma_chain_ignores_counts(s: Seq<Record>, start: usize, a: usize, count: usize, i: int)
    requires
        well_formed(s),
        start < s.len(),
        a < s.len(),
    ensures
        in_chain(with_count(s, a, count), start, i) == in_chain(s, start, i),
{
    let t = with_count(s, a, count);
    assert forall|k: nat|
        #![trigger successor(t, start, k)]
        #![trigger successor(s, start, k)]
        successor(t, start, k) == successor(s, start, k) by {
        lemma_orbit_ignores_counts(s, start, a, count, k);
    }
    assert forall|k: nat|
        #![trigger predecessor(t, start, k)]
        #![trigger predecessor(s, start, k)]
        predecessor(t, start, k) == predecessor(s, start, k) by {
        lemma_orbit_ignores_counts(s, start, a, count, k);
    }
    assert(follows(t, start, i) == follows(s, start, i));
    assert(precedes(t, start, i) == precedes(s, start, i));
}

/// Where the links lead does not depend on any count.
pub proof fn lemma_orbit_ignores_counts(s: Seq<Record>, start: usize, a: usize, count: usize, k: nat)
    requires
        well_formed(s),
        start < s.len(),
        a < s.len(),
    ensures
        successor(with_count(s, a, count), start, k) == successor(s, start, k),
        predecessor(with_count(s, a, count), start, k) == predecessor(s, start, k),
    decreases k,
{
    if k > 0 {
        lemma_orbit_ignores_counts(s, start, a, count, (k - 1) as nat);
        lemma_orbit_in_range(s, start, (k - 1) as nat);
    }
}

} // verus!
