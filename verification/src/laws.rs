//! What holds of the operations, stated over the model and proved.

use crate::lemmas::{
    lemma_chain_ignores_counts, lemma_chain_shared, lemma_connect_keeps_well_formed,
    lemma_detach_predecessor, lemma_detach_successor, lemma_nothing_follows_unlinked,
    lemma_nothing_precedes_unlinked, lemma_reclaim_keeps_well_formed,
    lemma_release_keeps_well_formed,
};
use crate::model::{
    after_clone, after_connect, after_reclaim, after_release, attach, detach_predecessor,
    detach_successor, in_chain, points_to, predecessor, record_ok, release_reclaims, successor,
    well_formed, with_count,
};
use crate::record::Record;
use vstd::prelude::*;

verus! {

/// One operation on an arena. Records are named by position.
pub enum Op {
    /// [`Node::new`](crate::node::Node::new) with this value.
    New(i64),
    /// [`Node::clone`](crate::node::Node::clone) on a handle of this record.
    Clone(usize),
    /// [`Node::release`](crate::node::Node::release) of a handle of this record.
    Release(usize),
    /// [`Node::connect`](crate::node::Node::connect) from the first record to
    /// the second.
    Connect(usize, usize),
    /// [`reclaim`](crate::reclaim::reclaim) started at this record.
    Reclaim(usize),
}

/// The arena after `op`.
pub open spec fn apply(s: Seq<Record>, op: Op) -> Seq<Record> {
    match op {
        Op::New(data) => s.push(Record::fresh(data)),
        Op::Clone(a) => after_clone(s, a),
        Op::Release(a) => after_release(s, a),
        Op::Connect(a, b) => after_connect(s, a, b),
        Op::Reclaim(a) => after_reclaim(s, a),
    }
}

/// `op` can be carried out on `s`: the records it names exist, and the
/// machine can hold the record or the count that it adds.
pub open spec fn permitted(s: Seq<Record>, op: Op) -> bool {
    match op {
        Op::New(_) => s.len() < usize::MAX,
        Op::Clone(a) => a < s.len() && s[a as int].external_count < usize::MAX,
        Op::Release(a) => a < s.len(),
        Op::Connect(a, b) => a < s.len() && b < s.len(),
        Op::Reclaim(a) => a < s.len(),
    }
}

/// The arena after `ops`, carried out from left to right.
pub open spec fn run(s: Seq<Record>, ops: Seq<Op>) -> Seq<Record>
    decreases ops.len(),
{
    if ops.len() == 0 {
        s
    } else {
        apply(run(s, ops.drop_last()), ops.last())
    }
}

/// Each of `ops` can be carried out on the arena that those before it leave.
pub open spec fn all_permitted(s: Seq<Record>, ops: Seq<Op>) -> bool
    decreases ops.len(),
{
    ops.len() == 0 || (all_permitted(s, ops.drop_last()) && permitted(
        run(s, ops.drop_last()),
        ops.last(),
    ))
}

/// The number of live handles of record `a` after `ops`, where `before` were
/// live at the start: each clone of a handle of `a` adds one, each release of
/// one takes one away.
pub open spec fn live_handles(before: int, a: usize, ops: Seq<Op>) -> int
    decreases ops.len(),
{
    if ops.len() == 0 {
        before
    } else {
        live_handles(before, a, ops.drop_last()) + (match ops.last() {
            Op::Clone(b) if b == a => 1int,
            Op::Release(b) if b == a => -1int,
            _ => 0int,
        })
    }
}

/// Whenever `ops` release a handle of record `a`, there is a live one to
/// release.
pub open spec fn releases_live_handles(before: int, a: usize, ops: Seq<Op>) -> bool
    decreases ops.len(),
{
    ops.len() == 0 || (releases_live_handles(before, a, ops.drop_last()) && (ops.last()
        == Op::Release(a) ==> live_handles(before, a, ops.drop_last()) >= 1))
}

/// Reclaiming changes no `data` and no `external_count`, and no liveness
/// field.
pub proof fn lemma_reclaim_touches_links_only(s: Seq<Record>, start: usize, i: int)
    requires
        0 <= i < s.len(),
    ensures
        after_reclaim(s, start).len() == s.len(),
        after_reclaim(s, start)[i].data == s[i].data,
        after_reclaim(s, start)[i].external_count == s[i].external_count,
        after_reclaim(s, start)[i].liveness_next == s[i].liveness_next,
        after_reclaim(s, start)[i].liveness_prev == s[i].liveness_prev,
{
}

/// The invariant holds after every operation: it leaves a well-formed arena
/// well formed, with `link_next(a) == b` exactly when `link_prev(b) == a`,
/// and removes no record.
pub proof fn lemma_step_keeps_well_formed(s: Seq<Record>, op: Op)
    requires
        well_formed(s),
        permitted(s, op),
    ensures
        well_formed(apply(s, op)),
        apply(s, op).len() >= s.len(),
{
    match op {
        Op::New(data) => {
            let t = s.push(Record::fresh(data));
            assert forall|j: int| 0 <= j < t.len() implies #[trigger] record_ok(t, j) by {
                if j < s.len() {
                    assert(record_ok(s, j));
                }
            }
        },
        Op::Clone(a) => {
            let t = after_clone(s, a);
            assert forall|j: int| 0 <= j < t.len() implies #[trigger] record_ok(t, j) by {
                assert(record_ok(s, j));
            }
        },
        Op::Release(a) => {
            lemma_release_keeps_well_formed(s, a);
        },
        Op::Connect(a, b) => {
            lemma_connect_keeps_well_formed(s, a, b);
        },
        Op::Reclaim(a) => {
            lemma_reclaim_keeps_well_formed(s, a);
        },
    }
}

/// No operation changes the `data` of a record, and none changes a count but
/// a clone or a release of a handle of that very record.
pub proof fn lemma_step_frame(s: Seq<Record>, op: Op, i: int)
    requires
        well_formed(s),
        permitted(s, op),
        0 <= i < s.len(),
    ensures
        i < apply(s, op).len(),
        apply(s, op)[i].data == s[i].data,
        apply(s, op)[i].external_count == s[i].external_count + (match op {
            Op::Clone(a) if a == i => 1int,
            Op::Release(a) if a == i && s[i].external_count > 0 => -1int,
            _ => 0int,
        }),
{
    match op {
        Op::Release(a) => {
            assert(record_ok(s, a as int));
            if s[a as int].external_count == 1 {
                lemma_reclaim_touches_links_only(with_count(s, a, 0), a, i);
            }
        },
        Op::Connect(a, b) => {
            lemma_connect_keeps_well_formed(s, a, b);
        },
        _ => {},
    }
}

/// The invariant holds in every state: whatever is done to a well-formed
/// arena leaves a well-formed arena. No record is ever removed.
pub proof fn lemma_run_keeps_well_formed(s: Seq<Record>, ops: Seq<Op>)
    requires
        well_formed(s),
        all_permitted(s, ops),
    ensures
        well_formed(run(s, ops)),
        run(s, ops).len() >= s.len(),
    decreases ops.len(),
{
    if ops.len() > 0 {
        lemma_run_keeps_well_formed(s, ops.drop_last());
        lemma_step_keeps_well_formed(run(s, ops.drop_last()), ops.last());
    }
}

/// The value of a record is the one it was created with, whatever is done to
/// the arena afterwards.
pub proof fn lemma_data_never_changes(s: Seq<Record>, ops: Seq<Op>, i: int)
    requires
        well_formed(s),
        all_permitted(s, ops),
        0 <= i < s.len(),
    ensures
        i < run(s, ops).len(),
        run(s, ops)[i].data == s[i].data,
    decreases ops.len(),
{
    if ops.len() > 0 {
        lemma_data_never_changes(s, ops.drop_last(), i);
        lemma_run_keeps_well_formed(s, ops.drop_last());
        lemma_step_frame(run(s, ops.drop_last()), ops.last(), i);
    }
}

/// A record's `external_count` is the number of its live handles.
///
/// Let the count of record `a` be the number of its live handles at the
/// start. Then after any operations on the arena, on this record or on others,
/// it is that number again, as long as only live handles are released.
pub proof fn lemma_count_is_live_handles(s: Seq<Record>, a: usize, ops: Seq<Op>)
    requires
        well_formed(s),
        a < s.len(),
        all_permitted(s, ops),
        releases_live_handles(s[a as int].external_count as int, a, ops),
    ensures
        a < run(s, ops).len(),
        run(s, ops)[a as int].external_count == live_handles(
            s[a as int].external_count as int,
            a,
            ops,
        ),
    decreases ops.len(),
{
    if ops.len() > 0 {
        lemma_count_is_live_handles(s, a, ops.drop_last());
        lemma_run_keeps_well_formed(s, ops.drop_last());
        lemma_step_frame(run(s, ops.drop_last()), ops.last(), a as int);
    }
}

/// The same, from construction on: a record made by `new` has one live
/// handle, and its count follows the clones and releases that come after.
pub proof fn lemma_count_from_new(s: Seq<Record>, data: i64, ops: Seq<Op>)
    requires
        well_formed(s),
        s.len() < usize::MAX,
        all_permitted(apply(s, Op::New(data)), ops),
        releases_live_handles(1, s.len() as usize, ops),
    ensures
        s.len() < run(apply(s, Op::New(data)), ops).len(),
        run(apply(s, Op::New(data)), ops)[s.len() as int].external_count == live_handles(
            1,
            s.len() as usize,
            ops,
        ),
        run(apply(s, Op::New(data)), ops)[s.len() as int].data == data,
{
    let t = apply(s, Op::New(data));
    let first = seq![Op::New(data)];
    assert(first.drop_last() =~= Seq::<Op>::empty());
    assert(run(s, first.drop_last()) == s);
    assert(all_permitted(s, first.drop_last()));
    assert(first.last() == Op::New(data));
    assert(run(s, first) == t);
    assert(all_permitted(s, first));
    lemma_run_keeps_well_formed(s, first);
    lemma_count_is_live_handles(t, s.len() as usize, ops);
    lemma_data_never_changes(t, ops, s.len() as int);
}

/// After `a.connect(b)` the two records name each other, in the link chain
/// and in the liveness chain.
pub proof fn lemma_connect_joins(s: Seq<Record>, a: usize, b: usize)
    requires
        well_formed(s),
        a < s.len(),
        b < s.len(),
    ensures
        after_connect(s, a, b)[a as int].link_next == Some(b),
        after_connect(s, a, b)[b as int].link_prev == Some(a),
        after_connect(s, a, b)[a as int].liveness_next == Some(b),
        after_connect(s, a, b)[b as int].liveness_prev == Some(a),
{
    lemma_detach_successor(s, a);
    lemma_detach_predecessor(detach_successor(s, a), b);
}

/// Connecting the same two records again changes nothing.
pub proof fn lemma_connect_again(s: Seq<Record>, a: usize, b: usize)
    requires
        well_formed(s),
        a < s.len(),
        b < s.len(),
    ensures
        after_connect(after_connect(s, a, b), a, b) == after_connect(s, a, b),
{
    let t = after_connect(s, a, b);
    lemma_connect_keeps_well_formed(s, a, b);
    lemma_connect_joins(s, a, b);
    assert(record_ok(t, a as int));
    assert(record_ok(t, b as int));
    let t1 = detach_successor(t, a);
    assert(t1[b as int].link_prev is None);
    assert(detach_predecessor(t1, b) == t1);
    assert(attach(t1, a, b) =~= t);
}

/// A release that does not reclaim leaves every link as it was: it changes
/// the count and the liveness chain only.
pub proof fn lemma_release_without_reclaim_keeps_links(s: Seq<Record>, a: usize, i: int)
    requires
        well_formed(s),
        a < s.len(),
        !release_reclaims(s, a),
        0 <= i < s.len(),
    ensures
        after_release(s, a)[i].link_next == s[i].link_next,
        after_release(s, a)[i].link_prev == s[i].link_prev,
{
    assert(record_ok(s, a as int));
}

/// Where `a` has the successor `b` and is connected to another record `c`,
/// `b` loses its `link_prev`, and no count changes, that of `b` included.
pub proof fn lemma_connect_detaches_old_successor(s: Seq<Record>, a: usize, b: usize, c: usize)
    requires
        well_formed(s),
        a < s.len(),
        c < s.len(),
        s[a as int].link_next == Some(b),
        b != c,
    ensures
        after_connect(s, a, c)[b as int].link_prev is None,
        after_connect(s, a, c)[b as int].external_count == s[b as int].external_count,
        forall|i: int|
            0 <= i < s.len() ==> (#[trigger] after_connect(s, a, c)[i]).external_count
                == s[i].external_count,
{
    assert(record_ok(s, a as int));
    let s1 = detach_successor(s, a);
    lemma_detach_successor(s, a);
    assert(s1[b as int].link_prev is None) by {
        if s[a as int].liveness_next is None {
            assert(points_to(successor(s, b, 0), b as int));
        }
    }
    let s2 = detach_predecessor(s1, c);
    lemma_detach_predecessor(s1, c);
    assert(s2[b as int].link_prev is None);
    let t = attach(s2, a, c);
    assert forall|i: int| 0 <= i < s.len() implies (#[trigger] t[i]).external_count
        == s[i].external_count by {
        assert(s1[i].external_count == s[i].external_count);
        assert(s2[i].external_count == s1[i].external_count);
    }
}

/// Reclaiming empties both links of every record of the chain.
pub proof fn lemma_reclaim_empties_chain(s: Seq<Record>, start: usize, i: int)
    requires
        well_formed(s),
        start < s.len(),
        0 <= i < s.len(),
        in_chain(s, start, i),
    ensures
        after_reclaim(s, start)[i].link_next is None,
        after_reclaim(s, start)[i].link_prev is None,
{
}

/// It does not matter on which record of a chain reclaim is invoked: the
/// chain of a member is the whole chain, and the arena afterwards is the same.
pub proof fn lemma_reclaim_from_any_member(s: Seq<Record>, start: usize, member: usize)
    requires
        well_formed(s),
        start < s.len(),
        member < s.len(),
        in_chain(s, start, member as int),
    ensures
        forall|i: int| in_chain(s, member, i) <==> in_chain(s, start, i),
        after_reclaim(s, member) == after_reclaim(s, start),
{
    assert(in_chain(s, start, start as int)) by {
        assert(points_to(successor(s, start, 0), start as int));
    }
    lemma_chain_shared(s, start, member, start as int);
    assert forall|i: int| in_chain(s, member, i) <==> in_chain(s, start, i) by {
        if in_chain(s, start, i) {
            lemma_chain_shared(s, start, member, i);
        }
        if in_chain(s, member, i) {
            lemma_chain_shared(s, member, start, i);
        }
    }
    assert(after_reclaim(s, member) =~= after_reclaim(s, start));
}

/// After a chain has been reclaimed, each of its records is a chain of its
/// own: no link leads from it or to it.
pub proof fn lemma_reclaimed_records_stand_alone(s: Seq<Record>, start: usize, i: usize, j: int)
    requires
        well_formed(s),
        start < s.len(),
        i < s.len(),
        in_chain(s, start, i as int),
        in_chain(after_reclaim(s, start), i, j),
    ensures
        j == i,
{
    let t = after_reclaim(s, start);
    if exists|k: nat| points_to(#[trigger] successor(t, i, k), j) {
        let k = choose|k: nat| points_to(#[trigger] successor(t, i, k), j);
        lemma_nothing_follows_unlinked(t, i, k);
    } else {
        let k = choose|k: nat| points_to(#[trigger] predecessor(t, i, k), j);
        lemma_nothing_precedes_unlinked(t, i, k);
    }
}

/// A release that reclaims leaves the released record reclaimed, and every
/// record of its chain without links.
pub proof fn lemma_reclaiming_release(s: Seq<Record>, a: usize, i: int)
    requires
        well_formed(s),
        a < s.len(),
        release_reclaims(s, a),
        0 <= i < s.len(),
        in_chain(s, a, i),
    ensures
        after_release(s, a)[a as int].is_reclaimed(),
        after_release(s, a)[i].link_next is None,
        after_release(s, a)[i].link_prev is None,
{
    let s1 = with_count(s, a, 0);
    assert(in_chain(s1, a, a as int)) by {
        assert(points_to(successor(s1, a, 0), a as int));
    }
    assert(in_chain(s1, a, i)) by {
        lemma_chain_ignores_counts(s, a, a, 0, i);
    }
}

/// Releasing the last handle of a record without adjacency reclaims it at
/// once, and only once: the release reports the reclaim and leaves the
/// record with count zero and all fields empty, nothing else changes, and a
/// further release neither reclaims nor changes anything.
pub proof fn lemma_last_release_reclaims_once(s: Seq<Record>, a: usize)
    requires
        well_formed(s),
        a < s.len(),
        s[a as int].external_count == 1,
        s[a as int].is_isolated(),
    ensures
        release_reclaims(s, a),
        after_release(s, a) == with_count(s, a, 0),
        after_release(s, a)[a as int].is_isolated(),
        !release_reclaims(after_release(s, a), a),
        after_release(after_release(s, a), a) == after_release(s, a),
{
    let s1 = with_count(s, a, 0);
    assert forall|i: int| 0 <= i < s.len() implies after_reclaim(s1, a)[i] == s1[i] by {
        if in_chain(s1, a, i) {
            if exists|k: nat| points_to(#[trigger] successor(s1, a, k), i) {
                let k = choose|k: nat| points_to(#[trigger] successor(s1, a, k), i);
                lemma_nothing_follows_unlinked(s1, a, k);
            } else {
                let k = choose|k: nat| points_to(#[trigger] predecessor(s1, a, k), i);
                lemma_nothing_precedes_unlinked(s1, a, k);
            }
        }
    }
    assert(after_reclaim(s1, a) =~= s1);
}

} // verus!
