use node_chain::reclaim::reclaim;
use node_chain::{Arena, Node, Record};

fn rec(
    data: i64,
    link_next: Option<usize>,
    link_prev: Option<usize>,
    liveness_next: Option<usize>,
    liveness_prev: Option<usize>,
    external_count: usize,
) -> Option<Record> {
    Some(Record { data, link_next, link_prev, liveness_next, liveness_prev, external_count })
}

fn make(arena: &mut Arena, n: usize) -> Vec<Node> {
    let mut nodes = Vec::new();
    for i in 0..n {
        nodes.push(Node::new(i as i64 * 10, arena));
    }
    nodes
}

#[test]
fn connect_joins_both_chains() {
    let mut arena = Arena::new();
    let n = make(&mut arena, 2);
    n[0].connect(&n[1], &mut arena);
    assert_eq!(arena.record(0), rec(0, Some(1), None, Some(1), None, 1));
    assert_eq!(arena.record(1), rec(10, None, Some(0), None, Some(0), 1));
}

#[test]
fn connect_backwards_in_the_arena() {
    let mut arena = Arena::new();
    let n = make(&mut arena, 3);
    n[2].connect(&n[0], &mut arena);
    assert_eq!(arena.record(2), rec(20, Some(0), None, Some(0), None, 1));
    assert_eq!(arena.record(0), rec(0, None, Some(2), None, Some(2), 1));
    assert_eq!(arena.record(1), rec(10, None, None, None, None, 1));
}

#[test]
fn reconnect_detaches_old_successor() {
    let mut arena = Arena::new();
    let n = make(&mut arena, 3);
    let extra = n[1].clone(&mut arena);
    n[0].connect(&n[1], &mut arena);
    n[0].connect(&n[2], &mut arena);
    // the old successor is off the chain, and keeps its two handles
    assert_eq!(arena.record(1), rec(10, None, None, None, None, 2));
    assert_eq!(arena.record(0), rec(0, Some(2), None, Some(2), None, 1));
    assert_eq!(arena.record(2), rec(20, None, Some(0), None, Some(0), 1));
    assert_eq!(extra.data(&arena), 10);
}

#[test]
fn reconnect_to_the_same_successor_keeps_it() {
    let mut arena = Arena::new();
    let n = make(&mut arena, 2);
    n[0].connect(&n[1], &mut arena);
    n[0].connect(&n[1], &mut arena);
    assert_eq!(arena.record(0), rec(0, Some(1), None, Some(1), None, 1));
    assert_eq!(arena.record(1), rec(10, None, Some(0), None, Some(0), 1));
}

#[test]
fn connect_takes_successor_from_its_old_predecessor() {
    let mut arena = Arena::new();
    let n = make(&mut arena, 3);
    n[0].connect(&n[2], &mut arena);
    n[1].connect(&n[2], &mut arena);
    assert_eq!(arena.record(0), rec(0, None, None, None, None, 1));
    assert_eq!(arena.record(1), rec(10, Some(2), None, Some(2), None, 1));
    assert_eq!(arena.record(2), rec(20, None, Some(1), None, Some(1), 1));
}

#[test]
fn connect_in_the_middle_of_a_chain_splits_it() {
    let mut arena = Arena::new();
    let n = make(&mut arena, 4);
    n[0].connect(&n[1], &mut arena);
    n[1].connect(&n[2], &mut arena);
    // 0 -> 1 -> 2, then 1 -> 3
    n[1].connect(&n[3], &mut arena);
    assert_eq!(arena.record(0), rec(0, Some(1), None, Some(1), None, 1));
    assert_eq!(arena.record(1), rec(10, Some(3), Some(0), Some(3), Some(0), 1));
    assert_eq!(arena.record(2), rec(20, None, None, None, None, 1));
    assert_eq!(arena.record(3), rec(30, None, Some(1), None, Some(1), 1));
}

#[test]
fn release_of_a_middle_record_leads_liveness_around_it() {
    let mut arena = Arena::new();
    let mut n = make(&mut arena, 3);
    n[0].connect(&n[1], &mut arena);
    n[1].connect(&n[2], &mut arena);
    let middle = n.remove(1);
    assert!(!middle.release(&mut arena));
    // the links stay, the liveness chain now skips the middle record
    assert_eq!(arena.record(0), rec(0, Some(1), None, Some(2), None, 1));
    assert_eq!(arena.record(1), rec(10, Some(2), Some(0), Some(2), Some(0), 0));
    assert_eq!(arena.record(2), rec(20, None, Some(1), None, Some(0), 1));
}

#[test]
fn release_with_other_handles_left_changes_only_the_count() {
    let mut arena = Arena::new();
    let n = make(&mut arena, 2);
    n[0].connect(&n[1], &mut arena);
    let extra = n[1].clone(&mut arena);
    assert!(!extra.release(&mut arena));
    assert_eq!(arena.record(0), rec(0, Some(1), None, Some(1), None, 1));
    assert_eq!(arena.record(1), rec(10, None, Some(0), None, Some(0), 1));
}

#[test]
fn connect_reclaims_a_successor_without_liveness_backing() {
    let mut arena = Arena::new();
    let mut n = make(&mut arena, 4);
    // 0 -> 1 -> 2
    n[0].connect(&n[1], &mut arena);
    n[1].connect(&n[2], &mut arena);
    let last = n.remove(2);
    assert!(!last.release(&mut arena));
    assert_eq!(arena.record(1), rec(10, Some(2), Some(0), None, Some(0), 1));
    assert_eq!(arena.record(2), rec(20, None, Some(1), None, Some(1), 0));

    // record 1 still links to 2 but has no liveness successor: connecting it
    // elsewhere reclaims the whole chain that 2 stands in, 0 and 1 included
    let (one, three) = (&n[1], &n[2]);
    assert_eq!((one.id(), three.id()), (1, 3));
    one.connect(three, &mut arena);
    assert_eq!(arena.record(0), rec(0, None, None, Some(1), None, 1));
    assert_eq!(arena.record(1), rec(10, Some(3), None, Some(3), Some(0), 1));
    assert_eq!(arena.record(2), rec(20, None, None, None, Some(1), 0));
    assert_eq!(arena.record(3), rec(30, None, Some(1), None, Some(1), 1));
}

#[test]
fn connect_reclaims_a_predecessor_without_liveness_backing() {
    let mut arena = Arena::new();
    let mut n = make(&mut arena, 3);
    n[0].connect(&n[2], &mut arena);
    let first = n.remove(0);
    // the first record has a liveness successor, so it is not reclaimed
    assert!(!first.release(&mut arena));
    assert_eq!(arena.record(0), rec(0, Some(2), None, Some(2), None, 0));
    assert_eq!(arena.record(2), rec(20, None, Some(0), None, None, 1));

    let (one, two) = (&n[0], &n[1]);
    assert_eq!((one.id(), two.id()), (1, 2));
    one.connect(two, &mut arena);
    assert_eq!(arena.record(0), rec(0, None, None, Some(2), None, 0));
    assert_eq!(arena.record(1), rec(10, Some(2), None, Some(2), None, 1));
    assert_eq!(arena.record(2), rec(20, None, Some(1), None, Some(1), 1));
}

#[test]
fn reclaim_clears_the_whole_chain_from_the_middle() {
    let mut arena = Arena::new();
    let n = make(&mut arena, 6);
    // 0 -> 1 -> 2 -> 3, and apart from it 4 -> 5
    n[0].connect(&n[1], &mut arena);
    n[1].connect(&n[2], &mut arena);
    n[2].connect(&n[3], &mut arena);
    n[4].connect(&n[5], &mut arena);
    reclaim(&mut arena, 1);
    // links are gone along the chain, liveness fields and counts stay
    assert_eq!(arena.record(0), rec(0, None, None, Some(1), None, 1));
    assert_eq!(arena.record(1), rec(10, None, None, Some(2), Some(0), 1));
    assert_eq!(arena.record(2), rec(20, None, None, Some(3), Some(1), 1));
    assert_eq!(arena.record(3), rec(30, None, None, None, Some(2), 1));
    // the other chain is untouched
    assert_eq!(arena.record(4), rec(40, Some(5), None, Some(5), None, 1));
    assert_eq!(arena.record(5), rec(50, None, Some(4), None, Some(4), 1));
}

#[test]
fn reclaim_from_either_end_gives_the_same() {
    let mut results = Vec::new();
    for start in 0..3 {
        let mut arena = Arena::new();
        let n = make(&mut arena, 3);
        n[0].connect(&n[1], &mut arena);
        n[1].connect(&n[2], &mut arena);
        reclaim(&mut arena, start);
        results.push((arena.record(0), arena.record(1), arena.record(2)));
    }
    assert_eq!(
        results[0],
        (
            rec(0, None, None, Some(1), None, 1),
            rec(10, None, None, Some(2), Some(0), 1),
            rec(20, None, None, None, Some(1), 1),
        )
    );
    assert_eq!(results[1], results[0]);
    assert_eq!(results[2], results[0]);
}

#[test]
fn reclaim_of_a_lone_record_changes_nothing() {
    let mut arena = Arena::new();
    let n = make(&mut arena, 2);
    reclaim(&mut arena, 0);
    assert_eq!(arena.record(0), rec(0, None, None, None, None, 1));
    assert_eq!(arena.record(1), rec(10, None, None, None, None, 1));
    assert_eq!(n[0].data(&arena), 0);
}

#[test]
fn reclaim_ends_on_a_ring() {
    let mut arena = Arena::new();
    let n = make(&mut arena, 3);
    n[0].connect(&n[1], &mut arena);
    n[1].connect(&n[2], &mut arena);
    n[2].connect(&n[0], &mut arena);
    assert_eq!(arena.record(0), rec(0, Some(1), Some(2), Some(1), Some(2), 1));
    assert_eq!(arena.record(1), rec(10, Some(2), Some(0), Some(2), Some(0), 1));
    assert_eq!(arena.record(2), rec(20, Some(0), Some(1), Some(0), Some(1), 1));
    reclaim(&mut arena, 1);
    assert_eq!(arena.record(0), rec(0, None, None, Some(1), Some(2), 1));
    assert_eq!(arena.record(1), rec(10, None, None, Some(2), Some(0), 1));
    assert_eq!(arena.record(2), rec(20, None, None, Some(0), Some(1), 1));
}

#[test]
fn self_connection_makes_a_ring_of_one() {
    let mut arena = Arena::new();
    let a = Node::new(1, &mut arena);
    a.connect(&a, &mut arena);
    assert_eq!(arena.record(0), rec(1, Some(0), Some(0), Some(0), Some(0), 1));
    // doing it again detaches the record from itself first, and joins it again
    a.connect(&a, &mut arena);
    assert_eq!(arena.record(0), rec(1, Some(0), Some(0), Some(0), Some(0), 1));
    reclaim(&mut arena, 0);
    assert_eq!(arena.record(0), rec(1, None, None, Some(0), Some(0), 1));
    // its own liveness links keep the record from being reclaimed on release
    assert!(!a.release(&mut arena));
    assert_eq!(arena.record(0), rec(1, None, None, Some(0), Some(0), 0));
}

#[test]
fn releasing_a_whole_chain_back_to_front() {
    let mut arena = Arena::new();
    let mut n = make(&mut arena, 3);
    n[0].connect(&n[1], &mut arena);
    n[1].connect(&n[2], &mut arena);
    // each release leads the liveness chain around the record; the last
    // record left finds itself alone and reclaims the chain
    assert!(!n.pop().unwrap().release(&mut arena));
    assert_eq!(arena.record(1), rec(10, Some(2), Some(0), None, Some(0), 1));
    assert!(!n.pop().unwrap().release(&mut arena));
    assert_eq!(arena.record(0), rec(0, Some(1), None, None, None, 1));
    assert!(n.pop().unwrap().release(&mut arena));
    assert_eq!(arena.record(0), rec(0, None, None, None, None, 0));
    assert_eq!(arena.record(1), rec(10, None, None, None, Some(0), 0));
    assert_eq!(arena.record(2), rec(20, None, None, None, Some(1), 0));
}

#[test]
fn invariant_holds_after_every_step() {
    let mut arena = Arena::new();
    assert!(arena.is_well_formed());
    let mut n = make(&mut arena, 5);
    assert!(arena.is_well_formed());
    let steps: [(usize, usize); 9] =
        [(0, 1), (1, 2), (2, 3), (0, 2), (3, 3), (4, 0), (2, 4), (1, 1), (3, 0)];
    for (from, to) in steps {
        n[from].connect(&n[to], &mut arena);
        assert!(arena.is_well_formed());
        for i in 0..arena.len() {
            let r = arena.record(i).unwrap();
            if let Some(next) = r.link_next {
                assert_eq!(arena.record(next).unwrap().link_prev, Some(i));
            }
            if let Some(prev) = r.link_prev {
                assert_eq!(arena.record(prev).unwrap().link_next, Some(i));
            }
        }
    }
    let extra = n[2].clone(&mut arena);
    assert!(arena.is_well_formed());
    while let Some(node) = n.pop() {
        node.release(&mut arena);
        assert!(arena.is_well_formed());
    }
    reclaim(&mut arena, 2);
    assert!(arena.is_well_formed());
    extra.release(&mut arena);
    assert!(arena.is_well_formed());
    for i in 0..arena.len() {
        assert_eq!(arena.record(i).unwrap().external_count, 0);
        assert_eq!(arena.record(i).unwrap().data, i as i64 * 10);
    }
}

#[test]
fn reclaimed_means_no_handle_and_no_link() {
    let (none, some) = (None, Some(0));
    let with = |link_next, link_prev, external_count| Record {
        data: 3,
        link_next,
        link_prev,
        liveness_next: Some(1),
        liveness_prev: None,
        external_count,
    };
    assert!(with(none, none, 0).has_been_reclaimed());
    assert!(!with(none, none, 1).has_been_reclaimed());
    assert!(!with(some, none, 0).has_been_reclaimed());
    assert!(!with(none, some, 0).has_been_reclaimed());
}
