use vitalloc::{align_down, align_up, is_power_of_two, mutex_name, write_hex};
use vitalloc::{DefaultVitalloc, FitError, HeapBlock, Hole, Layout};

#[test]
fn align_down_values() {
    assert_eq!(align_down(17, 8), 16);
    assert_eq!(align_down(16, 8), 16);
    assert_eq!(align_down(0x1234, 0x100), 0x1200);
    assert_eq!(align_down(17, 0), 17);
    assert_eq!(align_down(7, 1), 7);
}

#[test]
fn align_up_values() {
    assert_eq!(align_up(17, 8), 24);
    assert_eq!(align_up(16, 8), 16);
    assert_eq!(align_up(0, 4096), 0);
    assert_eq!(align_up(1, 4096), 4096);
}

#[test]
fn power_of_two_check() {
    assert!(!is_power_of_two(0));
    assert!(is_power_of_two(1));
    assert!(!is_power_of_two(6));
    assert!(is_power_of_two(4096));
}

#[test]
fn layout_rejects_bad_alignment() {
    assert_eq!(Layout::from_size_align(8, 3), None);
    assert_eq!(Layout::from_size_align(8, 0), None);
    let l = Layout::from_size_align(8, 4).unwrap();
    assert_eq!((l.size(), l.align()), (8, 4));
}

#[test]
fn layout_padding() {
    let l = Layout::from_size_align(3129, 4096).unwrap();
    assert_eq!(l.padded(4096), Layout::from_size_align(4096, 4096));
    let l = Layout::from_size_align(8192, 8).unwrap();
    assert_eq!(l.padded(4096), Layout::from_size_align(8192, 4096));
    let l = Layout::from_size_align(usize::MAX, 8).unwrap();
    assert_eq!(l.padded(4096), None);
}

const WIDTH: usize = 2 * std::mem::size_of::<usize>();

#[test]
fn hex_digits_fill_the_tail_most_significant_first() {
    let mut buf = [0u8; WIDTH];
    write_hex(0x1A2B, &mut buf);
    assert_eq!(buf.to_vec(), format!("{:0w$X}", 0x1A2B, w = WIDTH).into_bytes());
    write_hex(0xDEADBEEF, &mut buf);
    assert_eq!(&buf[WIDTH - 8..], b"DEADBEEF");
    assert!(buf[..WIDTH - 8].iter().all(|c| *c == b'0'));
}

#[test]
fn hex_leaves_leading_bytes_alone() {
    let mut buf = vec![b'x'; WIDTH + 3];
    write_hex(0xABC, &mut buf);
    assert_eq!(&buf[..3], b"xxx");
    assert_eq!(buf[3..].to_vec(), format!("{:0w$X}", 0xABC, w = WIDTH).into_bytes());
    let mut zeroed = vec![0u8; WIDTH + 1];
    write_hex(usize::MAX, &mut zeroed);
    assert_eq!(zeroed[0], 0);
    assert!(zeroed[1..].iter().all(|c| *c == b'F'));
}

#[test]
fn mutex_names_follow_the_address() {
    let expected = format!("__rust_mutex_0x{:0w$X}\0", 0xDEADBEEFusize, w = WIDTH).into_bytes();
    assert_eq!(mutex_name(0xDEADBEEF), expected);
    assert_eq!(mutex_name(0x10).len(), 15 + WIDTH + 1);
    assert_ne!(mutex_name(0x10), mutex_name(0x20));
}

#[test]
fn block_first_fit_splits_holes() {
    let mut b = HeapBlock::new(0x1000, 256);
    assert!(b.is_empty());
    assert_eq!(HeapBlock::min_size(), 16);
    assert_eq!(b.allocate_first_fit(Layout { size: 1, align: 1 }), Ok(0x1000));
    assert_eq!(b.holes().clone(), vec![Hole { addr: 0x1010, size: 240 }]);
    assert_eq!(b.allocate_first_fit(Layout { size: 17, align: 16 }), Ok(0x1010));
    assert_eq!(b.holes().clone(), vec![Hole { addr: 0x1028, size: 216 }]);
    assert!(!b.is_empty());
}

#[test]
fn block_front_padding_becomes_a_hole() {
    let mut b = HeapBlock::new(0x1008, 256);
    assert_eq!(b.allocate_first_fit(Layout { size: 16, align: 32 }), Ok(0x1020));
    assert_eq!(
        b.holes().clone(),
        vec![Hole { addr: 0x1008, size: 24 }, Hole { addr: 0x1030, size: 216 }]
    );
}

#[test]
fn block_padding_too_small_for_a_hole_is_no_fit() {
    let mut b = HeapBlock::new(0x1018, 256);
    assert_eq!(b.allocate_first_fit(Layout { size: 16, align: 32 }), Err(FitError::Exhausted));
    assert!(b.is_empty());
}

#[test]
fn block_size_overflow_is_reported() {
    let mut b = HeapBlock::new(0x1000, 256);
    assert_eq!(b.allocate_first_fit(Layout { size: usize::MAX, align: 8 }), Err(FitError::Overflow));
    assert_eq!(b.allocate_first_fit(Layout { size: 512, align: 8 }), Err(FitError::Exhausted));
}

#[test]
fn block_free_coalesces_neighbours() {
    let mut b = HeapBlock::new(0x1000, 64);
    let l = Layout { size: 16, align: 8 };
    let ptr1 = b.allocate_first_fit(l).unwrap();
    let ptr2 = b.allocate_first_fit(l).unwrap();
    let ptr3 = b.allocate_first_fit(l).unwrap();
    assert_eq!((ptr1, ptr2, ptr3), (0x1000, 0x1010, 0x1020));
    assert!(b.deallocate(ptr1, 16));
    assert!(b.deallocate(ptr3, 16));
    assert_eq!(
        b.holes().clone(),
        vec![Hole { addr: 0x1000, size: 16 }, Hole { addr: 0x1020, size: 32 }]
    );
    assert!(b.deallocate(ptr2, 16));
    assert_eq!(b.holes().clone(), vec![Hole { addr: 0x1000, size: 64 }]);
    assert!(b.is_empty());
}

#[test]
fn block_rejects_regions_it_does_not_hold() {
    let mut b = HeapBlock::new(0x1000, 64);
    let p = b.allocate_first_fit(Layout { size: 16, align: 8 }).unwrap();
    assert!(!b.deallocate(0x1010, 16));
    assert!(!b.deallocate(0x2000, 16));
    assert!(!b.deallocate(0x0ff8, 16));
    assert!(!b.deallocate(p, usize::MAX));
    assert!(b.deallocate(p, 1));
    assert!(!b.deallocate(p, 1));
    assert!(b.is_empty());
}

#[test]
fn default_parameters() {
    let mut va = DefaultVitalloc::new();
    let l = Layout::from_size_align(16384, 8).unwrap();
    assert_eq!(va.allocate(l), vitalloc::Allocation::Forward(Layout { size: 16384, align: 4096 }));
    let l = Layout::from_size_align(16383, 8).unwrap();
    assert_eq!(
        va.allocate(l),
        vitalloc::Allocation::NeedBlock(Layout { size: 65536, align: 4096 })
    );
    assert_eq!(va.allocate_in_new_block(0x2_0000, l), Some(0x2_0000));
    assert_eq!(va.block(0).holes().clone(), vec![Hole { addr: 0x2_0000 + 16384, size: 65536 - 16384 }]);
}
