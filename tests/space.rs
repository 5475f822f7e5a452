use large_space::freelist::{FreeListNode, FreeListSpace, NodeMark};

fn at(addr: usize) -> impl FnOnce(usize, usize) -> usize {
    move |_size, _align| addr
}

fn never() -> impl FnOnce(usize, usize) -> usize {
    |_size, _align| panic!("no block may be requested")
}

fn sum_sizes(nodes: &[FreeListNode]) -> usize {
    nodes.iter().map(|n| n.size()).sum()
}

#[test]
fn new_space_is_empty() {
    let space = FreeListSpace::new(1000);
    assert_eq!(space.capacity(), 1000);
    assert_eq!(space.used_bytes(), 0);
    assert_eq!(space.next_id(), 0);
    assert!(space.current_nodes().is_empty());
}

#[test]
fn capacity_exhaustion_then_reclaim() {
    let mut space = FreeListSpace::new(1000);
    let a = space.allocate(400, 8, at(0x10000));
    assert_eq!(a, Some(0x10000));
    assert_eq!(space.used_bytes(), 400);
    let node_a = space.current_nodes()[0];
    assert_eq!(node_a.id(), 0);
    assert_eq!(node_a.mark(), NodeMark::FreshAlloc);

    let b = space.allocate(400, 8, at(0x20000));
    assert_eq!(b, Some(0x20000));
    assert_eq!(space.used_bytes(), 800);
    assert_eq!(space.current_nodes()[0].id(), 1);
    assert_eq!(space.current_nodes()[0].mark(), NodeMark::FreshAlloc);

    assert_eq!(space.allocate(400, 8, never()), None);
    assert_eq!(space.used_bytes(), 800);
    assert_eq!(space.current_nodes().len(), 2);

    space.mark(0x10000);
    let released = space.sweep();
    assert_eq!(space.used_bytes(), 400);
    assert_eq!(space.current_nodes().len(), 1);
    assert_eq!(space.current_nodes()[0].id(), 0);
    assert_eq!(space.current_nodes()[0].mark(), NodeMark::PrevLive);
    assert_eq!(released.len(), 1);
    assert_eq!(released[0].id(), 1);
    assert_eq!(released[0].start(), 0x20000);

    let c = space.allocate(400, 8, at(0x30000));
    assert_eq!(c, Some(0x30000));
    assert_eq!(space.current_nodes()[0].id(), 2);
    assert_eq!(space.current_nodes()[0].mark(), NodeMark::FreshAlloc);
    assert_eq!(space.used_bytes(), 800);
}

#[test]
fn aligned_block_then_budget_refusal() {
    let mut space = FreeListSpace::new(100);
    let block = vec![0u64; 8];
    let shown = format!("{:p}", &block[0]);
    let base = usize::from_str_radix(shown.trim_start_matches("0x"), 16).unwrap();
    let a = space.allocate(50, 8, at(base)).unwrap();
    assert_eq!(a % 8, 0);
    assert_eq!(space.current_nodes()[0].align(), 8);
    assert_eq!(space.allocate(60, 8, never()), None);
    assert_eq!(space.used_bytes(), 50);
    assert!(space.fits(50));
    assert!(!space.fits(51));
}

#[test]
fn provider_gets_size_and_align() {
    let mut space = FreeListSpace::new(4096);
    let mut seen = (0, 0);
    let r = space.allocate(300, 64, |s, a| {
        seen = (s, a);
        0x4000
    });
    assert_eq!(r, Some(0x4000));
    assert_eq!(seen, (300, 64));
    let n = space.current_nodes()[0];
    assert_eq!((n.start(), n.size(), n.align()), (0x4000, 300, 64));
}

#[test]
fn used_bytes_is_sum_of_present_nodes() {
    let mut space = FreeListSpace::new(10_000);
    let sizes = [100usize, 250, 3000, 7, 1024];
    for (i, s) in sizes.iter().enumerate() {
        space.allocate(*s, 8, at(0x100000 * (i + 1))).unwrap();
        assert_eq!(space.used_bytes(), sum_sizes(space.current_nodes()));
        assert!(space.used_bytes() <= space.capacity());
    }
    space.mark(0x100000 * 2 + 10);
    space.mark(0x100000 * 5);
    space.sweep();
    assert_eq!(space.used_bytes(), sum_sizes(space.current_nodes()));
    assert_eq!(space.used_bytes(), 250 + 1024);
}

#[test]
fn ids_strictly_increase_and_never_repeat() {
    let mut space = FreeListSpace::new(1000);
    let mut seen = Vec::new();
    for round in 0..4usize {
        for k in 0..3usize {
            let addr = 0x1000 * (10 * round + k + 1);
            space.allocate(100, 8, at(addr)).unwrap();
            seen.push(space.current_nodes()[0].id());
        }
        let first = space.current_nodes()[2].start();
        space.mark(first);
        space.sweep();
        let ids: Vec<usize> = space.current_nodes().iter().map(|n| n.id()).collect();
        for w in ids.windows(2) {
            assert!(w[0] > w[1]);
        }
    }
    for w in seen.windows(2) {
        assert!(w[0] < w[1]);
    }
    assert_eq!(seen, (0..12).collect::<Vec<usize>>());
}

#[test]
fn sweep_keeps_exactly_the_marked_subset() {
    let mut space = FreeListSpace::new(100_000);
    for i in 0..6usize {
        space.allocate(100 * (i + 1), 8, at(0x10000 * (i + 1))).unwrap();
    }
    // ids 0..6 at 0x10000 * (id + 1), size 100 * (id + 1)
    for id in [1usize, 3, 4] {
        space.mark(0x10000 * (id + 1));
    }
    let released = space.sweep();
    let kept: Vec<usize> = space.current_nodes().iter().map(|n| n.id()).collect();
    assert_eq!(kept, vec![4, 3, 1]);
    assert!(space.current_nodes().iter().all(|n| n.mark() == NodeMark::PrevLive));
    assert_eq!(space.used_bytes(), 200 + 400 + 500);
    let gone: Vec<usize> = released.iter().map(|n| n.id()).collect();
    assert_eq!(gone, vec![5, 2, 0]);
    assert!(released.iter().all(|n| n.mark() == NodeMark::FreshAlloc));
}

#[test]
fn marking_twice_equals_marking_once() {
    let build = || {
        let mut s = FreeListSpace::new(1000);
        s.allocate(100, 8, at(0x1000)).unwrap();
        s.allocate(200, 8, at(0x2000)).unwrap();
        s
    };
    let mut once = build();
    once.mark(0x2000);
    let released_once = once.sweep();
    let mut twice = build();
    twice.mark(0x2000);
    twice.mark(0x2000);
    let released_twice = twice.sweep();
    let ids = |s: &FreeListSpace| s.current_nodes().iter().map(|n| n.id()).collect::<Vec<_>>();
    assert_eq!(ids(&once), ids(&twice));
    assert_eq!(once.used_bytes(), twice.used_bytes());
    assert_eq!(released_once.len(), released_twice.len());
    assert_eq!(once.used_bytes(), 200);
}

#[test]
fn prev_live_survives_only_when_marked_again() {
    let mut space = FreeListSpace::new(1000);
    space.allocate(100, 8, at(0x1000)).unwrap();
    space.allocate(100, 8, at(0x2000)).unwrap();
    space.mark(0x1000);
    space.mark(0x2000);
    space.sweep();
    assert_eq!(space.current_nodes().len(), 2);
    assert!(space.current_nodes().iter().all(|n| n.mark() == NodeMark::PrevLive));

    space.mark(0x1000);
    let released = space.sweep();
    assert_eq!(space.current_nodes().len(), 1);
    assert_eq!(space.current_nodes()[0].start(), 0x1000);
    assert_eq!(released.len(), 1);
    assert_eq!(released[0].start(), 0x2000);
    assert_eq!(released[0].mark(), NodeMark::PrevLive);

    let released = space.sweep();
    assert!(space.current_nodes().is_empty());
    assert_eq!(space.used_bytes(), 0);
    assert_eq!(released.len(), 1);
}

#[test]
fn mark_resolves_interior_address() {
    let mut space = FreeListSpace::new(1000);
    space.allocate(64, 8, at(0x1000)).unwrap();
    space.allocate(64, 8, at(0x2000)).unwrap();
    space.mark(0x2000 + 16);
    assert_eq!(space.current_nodes()[0].mark(), NodeMark::Live);
    assert_eq!(space.current_nodes()[1].mark(), NodeMark::FreshAlloc);
    space.mark(0x1000 + 63);
    assert_eq!(space.current_nodes()[1].mark(), NodeMark::Live);
}

#[test]
fn mark_outside_every_block_changes_nothing() {
    let mut space = FreeListSpace::new(1000);
    space.allocate(64, 8, at(0x1000)).unwrap();
    space.mark(0x1000 + 64);
    space.mark(0x0fff);
    assert_eq!(space.current_nodes()[0].mark(), NodeMark::FreshAlloc);
    let released = space.sweep();
    assert_eq!(released.len(), 1);
    assert_eq!(space.used_bytes(), 0);
}

#[test]
fn sweep_of_empty_space() {
    let mut space = FreeListSpace::new(10);
    assert!(space.sweep().is_empty());
    assert_eq!(space.used_bytes(), 0);
}

#[test]
fn allocation_filling_capacity_exactly() {
    let mut space = FreeListSpace::new(100);
    assert_eq!(space.allocate(100, 1, at(0x1000)), Some(0x1000));
    assert_eq!(space.used_bytes(), 100);
    assert_eq!(space.allocate(1, 1, never()), None);
}

#[test]
fn set_mark_changes_only_the_mark() {
    let mut space = FreeListSpace::new(100);
    space.allocate(10, 2, at(0x1000)).unwrap();
    let mut n = space.current_nodes()[0];
    n.set_mark(NodeMark::Live);
    assert_eq!(n.mark(), NodeMark::Live);
    assert_eq!((n.id(), n.start(), n.size(), n.align()), (0, 0x1000, 10, 2));
}
