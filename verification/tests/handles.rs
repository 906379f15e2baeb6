use node_chain::{Arena, Node, Record};

fn count_of(arena: &Arena, id: usize) -> usize {
    arena.record(id).unwrap().external_count
}

fn bare(data: i64, external_count: usize) -> Record {
    Record {
        data,
        link_next: None,
        link_prev: None,
        liveness_next: None,
        liveness_prev: None,
        external_count,
    }
}

#[test]
fn arena_starts_empty() {
    let arena = Arena::new();
    assert_eq!(arena.len(), 0);
    assert_eq!(arena.record(0), None);
}

#[test]
fn new_record_has_one_handle_and_no_adjacency() {
    let mut arena = Arena::new();
    let a = Node::new(7, &mut arena);
    assert_eq!(a.id(), 0);
    assert_eq!(arena.len(), 1);
    assert_eq!(arena.record(0), Some(bare(7, 1)));

    let b = Node::new(-3, &mut arena);
    assert_eq!(b.id(), 1);
    assert_eq!(arena.len(), 2);
    assert_eq!(arena.record(1), Some(bare(-3, 1)));
    // the first record is as it was
    assert_eq!(arena.record(0), Some(bare(7, 1)));
}

#[test]
fn record_lookup_outside_arena_is_none() {
    let mut arena = Arena::new();
    let _a = Node::new(1, &mut arena);
    assert!(arena.record(0).is_some());
    assert_eq!(arena.record(1), None);
    assert_eq!(arena.record(usize::MAX), None);
}

#[test]
fn clone_shares_the_record_and_counts() {
    let mut arena = Arena::new();
    let a = Node::new(5, &mut arena);
    let b = a.clone(&mut arena);
    assert_eq!(b.id(), a.id());
    assert_eq!(arena.len(), 1);
    assert_eq!(arena.record(0), Some(bare(5, 2)));
    assert_eq!(b.data(&arena), 5);
}

#[test]
fn count_follows_live_handles() {
    let mut arena = Arena::new();
    let other = Node::new(0, &mut arena);
    let n = Node::new(5, &mut arena);
    let id = n.id();
    assert_eq!(count_of(&arena, id), 1);
    let c1 = n.clone(&mut arena);
    assert_eq!(count_of(&arena, id), 2);
    let c2 = c1.clone(&mut arena);
    assert_eq!(count_of(&arena, id), 3);
    assert!(!c1.release(&mut arena));
    assert_eq!(count_of(&arena, id), 2);
    let c3 = c2.clone(&mut arena);
    assert_eq!(count_of(&arena, id), 3);
    assert!(!n.release(&mut arena));
    assert_eq!(count_of(&arena, id), 2);
    assert!(!c3.release(&mut arena));
    assert_eq!(count_of(&arena, id), 1);
    // the last one: the record has no adjacency, so it is reclaimed
    assert!(c2.release(&mut arena));
    assert_eq!(count_of(&arena, id), 0);
    // none of this touched the other record
    assert_eq!(arena.record(other.id()), Some(bare(0, 1)));
}

#[test]
fn last_release_of_isolated_record_reclaims_it() {
    let mut arena = Arena::new();
    let keep = Node::new(10, &mut arena);
    let gone = Node::new(20, &mut arena);
    let id = gone.id();
    assert!(gone.release(&mut arena));
    assert_eq!(arena.record(id), Some(bare(20, 0)));
    assert_eq!(arena.record(keep.id()), Some(bare(10, 1)));
    assert_eq!(arena.len(), 2);
}

#[test]
fn release_below_zero_stays_at_zero_and_does_nothing() {
    let mut arena = Arena::new();
    let a = Node::new(1, &mut arena);
    let b = Node::new(2, &mut arena);
    a.connect(&b, &mut arena);

    // a handle to position 1 that this arena has not counted
    let mut elsewhere = Arena::new();
    let _zero = Node::new(0, &mut elsewhere);
    let stray = Node::new(0, &mut elsewhere);
    assert_eq!(stray.id(), b.id());

    assert!(!b.release(&mut arena));
    let after_first = arena.record(1).unwrap();
    assert_eq!(after_first.external_count, 0);
    let all_after_first = (arena.record(0), arena.record(1));

    assert!(!stray.release(&mut arena));
    assert_eq!(arena.record(1).unwrap().external_count, 0);
    assert_eq!((arena.record(0), arena.record(1)), all_after_first);
}

#[test]
fn reclaim_happens_once() {
    let mut arena = Arena::new();
    let a = Node::new(1, &mut arena);

    let mut elsewhere = Arena::new();
    let stray = Node::new(9, &mut elsewhere);
    assert_eq!(stray.id(), a.id());

    assert!(a.release(&mut arena));
    assert_eq!(arena.record(0), Some(bare(1, 0)));
    // a second release finds the count at zero: no reclaim, no change
    assert!(!stray.release(&mut arena));
    assert_eq!(arena.record(0), Some(bare(1, 0)));
}

#[test]
fn data_is_a_pure_accessor() {
    let mut arena = Arena::new();
    let a = Node::new(i64::MIN, &mut arena);
    let b = Node::new(i64::MAX, &mut arena);
    let c = Node::new(0, &mut arena);
    let before = (arena.record(0), arena.record(1), arena.record(2));
    for _ in 0..3 {
        assert_eq!(a.data(&arena), i64::MIN);
        assert_eq!(b.data(&arena), i64::MAX);
        assert_eq!(c.data(&arena), 0);
    }
    assert_eq!((arena.record(0), arena.record(1), arena.record(2)), before);

    // whatever happens to the records, the values stay
    a.connect(&b, &mut arena);
    b.connect(&c, &mut arena);
    let a2 = a.clone(&mut arena);
    a.connect(&c, &mut arena);
    b.release(&mut arena);
    assert_eq!(a2.data(&arena), i64::MIN);
    assert_eq!(arena.record(1).unwrap().data, i64::MAX);
    assert_eq!(c.data(&arena), 0);
    assert_eq!(a.data(&arena), i64::MIN);
}
