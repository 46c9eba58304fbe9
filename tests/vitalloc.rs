use vitalloc::{Allocation, Layout, Release, Vitalloc};

type Small = Vitalloc<4096, 4096, 2048, 4096>;

const SLOT_BASE: usize = 0x10_0000;
const SLOT_SIZE: usize = 4096;

/// A backing allocator with three 4096-byte slots.
struct MockAlloc {
    allocated: [bool; 3],
}

impl MockAlloc {
    fn new() -> Self {
        MockAlloc { allocated: [false; 3] }
    }

    fn slot(i: usize) -> usize {
        SLOT_BASE + i * SLOT_SIZE
    }

    fn allocate(&mut self, _layout: Layout) -> Option<usize> {
        for i in 0..3 {
            if !self.allocated[i] {
                self.allocated[i] = true;
                return Some(Self::slot(i));
            }
        }
        None
    }

    fn deallocate(&mut self, ptr: usize, _layout: Layout) {
        for i in 0..3 {
            if ptr == Self::slot(i) {
                if !self.allocated[i] {
                    panic!("double free")
                } else {
                    self.allocated[i] = false;
                    return;
                }
            }
        }
        panic!("no such block !")
    }

    fn in_use(&self) -> usize {
        self.allocated.iter().filter(|a| **a).count()
    }
}

fn run_alloc(va: &mut Small, ma: &mut MockAlloc, layout: Layout) -> Option<usize> {
    match va.allocate(layout) {
        Allocation::Served(p) => Some(p),
        Allocation::Forward(l) => ma.allocate(l),
        Allocation::NeedBlock(l) => {
            let base = ma.allocate(l)?;
            assert!(va.is_fresh_region(base));
            match va.allocate_in_new_block(base, layout) {
                Some(p) => Some(p),
                None => {
                    ma.deallocate(base, l);
                    None
                }
            }
        }
        Allocation::Refused => None,
    }
}

fn run_dealloc(va: &mut Small, ma: &mut MockAlloc, ptr: usize, layout: Layout) {
    if let Release::Region { addr, layout } = va.deallocate(ptr, layout) {
        ma.deallocate(addr, layout);
    }
}

fn in_slot(p: usize, slot: usize) -> bool {
    let base = MockAlloc::slot(slot);
    base <= p && p < base + SLOT_SIZE
}

#[test]
fn mockalloc() {
    let mut ma = MockAlloc::new();
    let layout = Layout::from_size_align(4096, 4096).expect("bad layout");

    let pt1 = ma.allocate(layout).expect("could not allocate block 1");
    let _pt2 = ma.allocate(layout).expect("could not allocate block 2");
    let pt3 = ma.allocate(layout).expect("could not allocate block 3");
    assert!(ma.allocate(layout).is_none(), "all blocks were not allocated");

    for i in 0..3 {
        assert!(ma.allocated[i]);
    }

    ma.deallocate(pt1, layout);
    assert!(!ma.allocated[0]);

    ma.deallocate(pt3, layout);
    assert!(!ma.allocated[2]);

    let pt4 = ma.allocate(layout).expect("could not allocate block 4");
    assert!(ma.allocated[0]);
    assert!(!ma.allocated[2]);
    assert_eq!(pt4, pt1);
}

#[test]
fn vitalloc_blocks() {
    let mut ma = MockAlloc::new();
    let mut va = Small::new();

    let layout = Layout::from_size_align(32, 8).expect("bad layout");
    let ptr1 = run_alloc(&mut va, &mut ma, layout).expect("could not allocate 1");
    assert_eq!(ma.allocated, [true, false, false]);

    let ptr2 = run_alloc(&mut va, &mut ma, layout).expect("could not allocate 2");
    assert_ne!(ptr1, ptr2);
    assert_eq!(ma.allocated, [true, false, false]);

    let layout = Layout::from_size_align(3129, 4096).expect("bad layout");
    let ptr3 = run_alloc(&mut va, &mut ma, layout).expect("could not allocate 3");
    assert_eq!(ma.allocated, [true, true, false]);

    let layout = Layout::from_size_align(32, 8).expect("bad layout");
    run_dealloc(&mut va, &mut ma, ptr1, layout);

    let layout = Layout::from_size_align(3129, 4096).expect("bad layout");
    run_dealloc(&mut va, &mut ma, ptr3, layout);
    assert_eq!(ma.allocated, [true, false, false]);
}

fn small(size: usize, align: usize) -> Layout {
    Layout::from_size_align(size, align).expect("bad layout")
}

fn normalized(size: usize) -> usize {
    let s = if size < 16 { 16 } else { size };
    (s + 7) / 8 * 8
}

fn owning_block(va: &Small, p: usize) -> Option<usize> {
    (0..va.block_count()).find(|i| va.block(*i).contains_addr(p))
}

fn is_free_in(va: &Small, p: usize) -> bool {
    (0..va.block_count()).any(|i| {
        va.block(i)
            .holes()
            .iter()
            .any(|h| h.addr <= p && p < h.addr + h.size)
    })
}

#[test]
fn small_only_growth() {
    let mut ma = MockAlloc::new();
    let mut va = Small::new();
    let ptr1 = run_alloc(&mut va, &mut ma, small(32, 8)).unwrap();
    let ptr2 = run_alloc(&mut va, &mut ma, small(32, 8)).unwrap();
    assert_eq!(ma.in_use(), 1);
    assert_ne!(ptr1, ptr2);
    assert_eq!(ptr1 % 8, 0);
    assert_eq!(ptr2 % 8, 0);
    assert!(in_slot(ptr1, 0) && in_slot(ptr2, 0));
    assert_eq!(va.block_count(), 1);
}

#[test]
fn small_then_large_and_release() {
    let mut ma = MockAlloc::new();
    let mut va = Small::new();
    let ptr1 = run_alloc(&mut va, &mut ma, small(32, 8)).unwrap();
    let ptr2 = run_alloc(&mut va, &mut ma, small(32, 8)).unwrap();
    let ptr3 = run_alloc(&mut va, &mut ma, small(3129, 4096)).unwrap();
    assert_eq!(ma.in_use(), 2);
    assert_eq!(ptr3 % 4096, 0);
    assert!(!in_slot(ptr3, 0));
    assert_eq!(va.block_count(), 1);

    run_dealloc(&mut va, &mut ma, ptr3, small(3129, 4096));
    assert_eq!(ma.in_use(), 1);
    assert_eq!(va.block_count(), 1);
    assert!(!is_free_in(&va, ptr1));
    assert!(!is_free_in(&va, ptr2));
    assert_eq!(owning_block(&va, ptr1), Some(0));
}

#[test]
fn exhaustion_then_release() {
    let mut ma = MockAlloc::new();
    let mut va = Small::new();
    let layout = small(2000, 8);
    let mut live = Vec::new();
    while let Some(p) = run_alloc(&mut va, &mut ma, layout) {
        live.push(p);
        assert!(live.len() <= 6);
    }
    assert_eq!(live.len(), 6);
    assert_eq!(ma.in_use(), 3);
    assert_eq!(va.block_count(), 3);
    assert!(run_alloc(&mut va, &mut ma, layout).is_none());
    assert_eq!(va.block_count(), 3);

    for p in &live {
        assert!(!is_free_in(&va, *p));
    }
    for p in live {
        run_dealloc(&mut va, &mut ma, p, layout);
    }
    assert_eq!(ma.in_use(), 1);
    assert_eq!(va.block_count(), 1);
    assert!(va.block(0).is_empty());
    assert!(run_alloc(&mut va, &mut ma, layout).is_some());
}

#[test]
fn alignment_fidelity() {
    for (size, align) in [(1, 1), (1, 8), (17, 16), (255, 64), (2047, 2048)] {
        let mut ma = MockAlloc::new();
        let mut va = Small::new();
        let layout = small(size, align);
        let p = run_alloc(&mut va, &mut ma, layout).unwrap();
        assert_eq!(p % align, 0);
        assert!(in_slot(p, 0));
        assert_eq!(owning_block(&va, p), Some(0));
        run_dealloc(&mut va, &mut ma, p, layout);
        let b = va.block(0);
        assert!(b.is_empty());
        assert_eq!(b.holes().len(), 1);
        assert_eq!(b.holes()[0].addr, MockAlloc::slot(0));
        assert_eq!(b.holes()[0].size, 4096);
    }
}

#[test]
fn routing_boundary() {
    let mut va = Small::new();
    assert_eq!(va.allocate(small(2048, 8)), Allocation::Forward(small(4096, 4096)));
    assert_eq!(va.allocate(small(2047, 8)), Allocation::NeedBlock(small(4096, 4096)));
    assert_eq!(va.block_count(), 0);
}

#[test]
fn large_round_trip() {
    let mut va = Small::new();
    let layout = small(5000, 8);
    let forwarded = match va.allocate(layout) {
        Allocation::Forward(l) => l,
        other => panic!("unexpected {:?}", other),
    };
    assert_eq!(forwarded, small(8192, 4096));
    assert_eq!(
        va.deallocate(0x40_0000, layout),
        Release::Region { addr: 0x40_0000, layout: forwarded }
    );
    assert_eq!(va.block_count(), 0);
}

#[test]
fn large_request_that_overflows_is_refused() {
    let mut va = Small::new();
    assert_eq!(va.allocate(small(usize::MAX, 1)), Allocation::Refused);
    assert_eq!(va.deallocate(0x1000, small(usize::MAX, 1)), Release::Nothing);
}

#[test]
fn last_block_is_kept_when_empty() {
    let mut ma = MockAlloc::new();
    let mut va = Small::new();
    let p = run_alloc(&mut va, &mut ma, small(64, 8)).unwrap();
    assert_eq!(va.deallocate(p, small(64, 8)), Release::Nothing);
    assert_eq!(va.block_count(), 1);
    assert!(va.block(0).is_empty());
    assert_eq!(ma.in_use(), 1);
}

#[test]
fn emptied_block_is_reclaimed() {
    let mut ma = MockAlloc::new();
    let mut va = Small::new();
    let layout = small(16, 4096);
    let ptr1 = run_alloc(&mut va, &mut ma, layout).unwrap();
    let ptr2 = run_alloc(&mut va, &mut ma, layout).unwrap();
    assert_eq!(va.block_count(), 2);
    let base0 = va.block(0).base();
    assert_eq!(
        va.deallocate(ptr1, layout),
        Release::Region { addr: base0, layout: small(4096, 4096) }
    );
    assert_eq!(va.block_count(), 1);
    assert_eq!(owning_block(&va, ptr2), Some(0));
    ma.deallocate(base0, small(4096, 4096));
    assert_eq!(ma.in_use(), 1);
}

#[test]
fn first_fit_goes_back_to_older_block() {
    let mut ma = MockAlloc::new();
    let mut va = Small::new();
    let layout = small(2000, 8);
    let ptr1 = run_alloc(&mut va, &mut ma, layout).unwrap();
    let _p2 = run_alloc(&mut va, &mut ma, layout).unwrap();
    let ptr3 = run_alloc(&mut va, &mut ma, layout).unwrap();
    assert_eq!(owning_block(&va, ptr1), Some(0));
    assert_eq!(owning_block(&va, ptr3), Some(1));
    run_dealloc(&mut va, &mut ma, ptr1, layout);
    let ptr4 = run_alloc(&mut va, &mut ma, layout).unwrap();
    assert_eq!(ptr4, ptr1);
    assert_eq!(owning_block(&va, ptr4), Some(0));
}

#[test]
fn live_allocations_do_not_overlap_and_are_accounted() {
    let mut ma = MockAlloc::new();
    let mut va = Small::new();
    let requests = [(1, 1), (40, 8), (100, 32), (16, 16), (700, 64), (9, 4), (1500, 8), (33, 128)];
    let mut live: Vec<(usize, usize)> = Vec::new();
    for (size, align) in requests {
        let p = run_alloc(&mut va, &mut ma, small(size, align)).unwrap();
        assert_eq!(p % align, 0);
        assert!(owning_block(&va, p).is_some());
        live.push((p, size));
    }
    run_dealloc(&mut va, &mut ma, live[1].0, small(40, 8));
    run_dealloc(&mut va, &mut ma, live[4].0, small(700, 64));
    let kept: Vec<(usize, usize)> =
        live.iter().enumerate().filter(|(i, _)| *i != 1 && *i != 4).map(|(_, x)| *x).collect();
    for (i, (p, s)) in kept.iter().enumerate() {
        for (q, t) in kept.iter().skip(i + 1) {
            let (a_end, b_end) = (p + normalized(*s), q + normalized(*t));
            assert!(a_end <= *q || b_end <= *p);
        }
    }
    for b in 0..va.block_count() {
        let block = va.block(b);
        let holes = block.holes();
        for w in holes.windows(2) {
            assert!(w[0].addr + w[0].size < w[1].addr);
        }
        let free: usize = holes.iter().map(|h| h.size).sum();
        let used: usize = kept
            .iter()
            .filter(|(p, _)| block.contains_addr(*p))
            .map(|(_, s)| normalized(*s))
            .sum();
        assert!(free + used <= block.capacity());
        assert!(holes.iter().all(|h| h.size >= 16));
    }
}

#[test]
fn foreign_pointer_changes_nothing() {
    let mut ma = MockAlloc::new();
    let mut va = Small::new();
    let p = run_alloc(&mut va, &mut ma, small(64, 8)).unwrap();
    assert_eq!(va.deallocate(0x9000_0000, small(64, 8)), Release::Nothing);
    assert_eq!(va.deallocate(p + 64, small(64, 8)), Release::Nothing);
    assert!(!is_free_in(&va, p));
    assert_eq!(va.block(0).holes().len(), 1);
}

#[test]
fn new_block_that_cannot_serve_is_left_out() {
    let mut va = Small::new();
    assert!(va.is_fresh_region(0x10_1000));
    assert_eq!(va.allocate_in_new_block(0x10_1000, small(16, 8192)), None);
    assert_eq!(va.block_count(), 0);
    assert_eq!(va.allocate_in_new_block(0x10_0000, small(16, 8192)), Some(0x10_0000));
    assert_eq!(va.block_count(), 1);
    assert!(!va.is_fresh_region(0x10_0000));
    assert!(va.is_fresh_region(0x10_1000));
}
