use point_cloud::arena::{Allocation, ArenaError, PointArena};
use point_cloud::sample::PointSample;

fn sample(v: u32) -> PointSample {
    PointSample { x: v, y: v + 1, z: v + 2, w: v + 3 }
}

#[test]
fn fresh_arena_is_one_gap() {
    let arena = PointArena::with_capacity(1000);
    assert_eq!(arena.capacity, 1000);
    assert_eq!(arena.gaps, vec![Allocation { offset: 0, length: 1000 }]);
    assert!(arena.live.is_empty());
    assert_eq!(arena.store.len(), 1000);
}

#[test]
fn exhaustion_then_free_then_retry_at_offset_zero() {
    // Arena capacity 1000: allocate 600, allocate 600 fails, free the
    // first, retry succeeds at offset 0.
    let mut arena = PointArena::with_capacity(1000);
    let first = arena.allocate(600).unwrap();
    assert_eq!(first, Allocation { offset: 0, length: 600 });
    let second = arena.allocate(600);
    assert_eq!(second, Err(ArenaError::Exhausted));
    arena.free(first);
    let retried = arena.allocate(600).unwrap();
    assert_eq!(retried, Allocation { offset: 0, length: 600 });
}

#[test]
fn failed_allocate_leaves_bookkeeping_untouched() {
    let mut arena = PointArena::with_capacity(100);
    let a = arena.allocate(80).unwrap();
    let gaps_before = arena.gaps.clone();
    let live_before = arena.live.clone();
    assert_eq!(arena.allocate(50), Err(ArenaError::Exhausted));
    assert_eq!(arena.gaps, gaps_before);
    assert_eq!(arena.live, live_before);
    arena.free(a);
}

#[test]
fn first_fit_splits_the_gap() {
    let mut arena = PointArena::with_capacity(100);
    let a = arena.allocate(30).unwrap();
    let b = arena.allocate(20).unwrap();
    assert_eq!(a, Allocation { offset: 0, length: 30 });
    assert_eq!(b, Allocation { offset: 30, length: 20 });
    assert_eq!(arena.gaps, vec![Allocation { offset: 50, length: 50 }]);
}

#[test]
fn free_coalesces_with_both_neighbours() {
    let mut arena = PointArena::with_capacity(90);
    let a = arena.allocate(30).unwrap();
    let b = arena.allocate(30).unwrap();
    let c = arena.allocate(30).unwrap();
    assert!(arena.gaps.is_empty());
    arena.free(a);
    arena.free(c);
    assert_eq!(
        arena.gaps,
        vec![Allocation { offset: 0, length: 30 }, Allocation { offset: 60, length: 30 }]
    );
    // freeing the middle range merges all three gaps into one
    arena.free(b);
    assert_eq!(arena.gaps, vec![Allocation { offset: 0, length: 90 }]);
    assert!(arena.live.is_empty());
}

#[test]
fn free_coalesces_left_only_and_right_only() {
    let mut arena = PointArena::with_capacity(100);
    let a = arena.allocate(10).unwrap();
    let b = arena.allocate(10).unwrap();
    arena.free(a);
    // [0,10) is free, b = [10,20) live, [20,100) free
    assert_eq!(
        arena.gaps,
        vec![Allocation { offset: 0, length: 10 }, Allocation { offset: 20, length: 80 }]
    );
    arena.free(b);
    assert_eq!(arena.gaps, vec![Allocation { offset: 0, length: 100 }]);
}

#[test]
fn zero_length_requests_always_succeed_and_are_not_tracked() {
    let mut arena = PointArena::with_capacity(4);
    let a = arena.allocate(0).unwrap();
    assert_eq!(a.length, 0);
    assert!(arena.live.is_empty());
    // a zero-length surrender is a vacuous success
    assert_eq!(arena.checked_free(a), Ok(()));
    // the whole capacity is still a single gap
    assert_eq!(arena.gaps, vec![Allocation { offset: 0, length: 4 }]);
}

#[test]
fn double_free_fails_loudly() {
    let mut arena = PointArena::with_capacity(50);
    let a = arena.allocate(20).unwrap();
    assert_eq!(arena.checked_free(a), Ok(()));
    assert_eq!(arena.checked_free(a), Err(ArenaError::StaleAllocation));
}

#[test]
fn freeing_a_range_never_handed_out_fails_loudly() {
    let mut arena = PointArena::with_capacity(50);
    let _a = arena.allocate(20).unwrap();
    let bogus = Allocation { offset: 30, length: 5 };
    assert_eq!(arena.checked_free(bogus), Err(ArenaError::StaleAllocation));
}

#[test]
fn write_then_read_round_trips() {
    // Round trip: writing N point samples and reading them back from the
    // same offset/length yields the written samples back unchanged.
    let mut arena = PointArena::with_capacity(32);
    let a = arena.allocate(5).unwrap();
    let pts: Vec<PointSample> = (0..5).map(|i| sample(i * 10)).collect();
    arena.write_points(a, &pts);
    let back = arena.read_points(a);
    assert_eq!(back, pts);
}

#[test]
fn writes_to_one_allocation_leave_others_intact() {
    let mut arena = PointArena::with_capacity(16);
    let a = arena.allocate(4).unwrap();
    let b = arena.allocate(4).unwrap();
    let pts_a: Vec<PointSample> = (0..4).map(|i| sample(i)).collect();
    let pts_b: Vec<PointSample> = (0..4).map(|i| sample(100 + i)).collect();
    arena.write_points(a, &pts_a);
    arena.write_points(b, &pts_b);
    assert_eq!(arena.read_points(a), pts_a);
    assert_eq!(arena.read_points(b), pts_b);
}

#[test]
fn reallocation_after_free_does_not_overlap_live_allocations() {
    // Freeing an allocation and immediately re-requesting the same size
    // returns a region disjoint from every still-live allocation.
    let mut arena = PointArena::with_capacity(100);
    let a = arena.allocate(40).unwrap();
    let b = arena.allocate(40).unwrap();
    arena.free(a);
    let c = arena.allocate(40).unwrap();
    let disjoint = c.offset + c.length <= b.offset || b.offset + b.length <= c.offset;
    assert!(disjoint);
    assert_eq!(c, Allocation { offset: 0, length: 40 });
}

#[test]
fn allocated_and_free_space_partition_the_capacity() {
    // sum(allocated) + sum(free) == capacity at every observation point.
    let mut arena = PointArena::with_capacity(64);
    let check = |arena: &PointArena| {
        let live: u32 = arena.live.iter().map(|a| a.length).sum();
        let free: u32 = arena.gaps.iter().map(|g| g.length).sum();
        assert_eq!(live + free, arena.capacity);
        // free gaps are sorted and never overlap
        for w in arena.gaps.windows(2) {
            assert!(w[0].offset + w[0].length < w[1].offset);
        }
    };
    check(&arena);
    let a = arena.allocate(10).unwrap();
    check(&arena);
    let b = arena.allocate(20).unwrap();
    check(&arena);
    arena.free(a);
    check(&arena);
    let c = arena.allocate(5).unwrap();
    check(&arena);
    arena.free(b);
    check(&arena);
    arena.free(c);
    check(&arena);
    assert_eq!(arena.gaps, vec![Allocation { offset: 0, length: 64 }]);
}
