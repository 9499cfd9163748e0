use microkernelia::frames::{
    alloc_aligned, alloc_frame, alloc_frame_get, free_frame, FrameAllocator, FRAME_SIZE, MAX_FRAMES,
};

#[test]
fn first_allocations_are_consecutive_frames() {
    let mut f = FrameAllocator::new();
    assert_eq!(alloc_frame_get(&mut f), Some(0));
    assert_eq!(alloc_frame_get(&mut f), Some(FRAME_SIZE));
    assert!(f.is_used(0));
    assert!(f.is_used(1));
    assert!(!f.is_used(2));
}

#[test]
fn alloc_frame_marks_without_returning() {
    let mut f = FrameAllocator::new();
    alloc_frame(&mut f);
    assert!(f.is_used(0));
    assert_eq!(alloc_frame_get(&mut f), Some(FRAME_SIZE));
}

#[test]
fn free_then_alloc_reuses_frame() {
    let mut f = FrameAllocator::new();
    let a = alloc_frame_get(&mut f).unwrap();
    let b = alloc_frame_get(&mut f).unwrap();
    free_frame(&mut f, a);
    assert!(!f.is_used(0));
    assert_eq!(alloc_frame_get(&mut f), Some(a));
    assert_ne!(a, b);
}

#[test]
fn free_inside_frame_frees_that_frame() {
    let mut f = FrameAllocator::new();
    alloc_frame(&mut f);
    alloc_frame(&mut f);
    free_frame(&mut f, FRAME_SIZE + 12345);
    assert!(f.is_used(0));
    assert!(!f.is_used(1));
}

#[test]
fn free_past_last_frame_changes_nothing() {
    let mut f = FrameAllocator::new();
    alloc_frame(&mut f);
    free_frame(&mut f, MAX_FRAMES * FRAME_SIZE);
    assert!(f.is_used(0));
}

#[test]
fn exhausted_allocator_returns_none() {
    let mut f = FrameAllocator::new();
    for i in 0..MAX_FRAMES {
        assert_eq!(alloc_frame_get(&mut f), Some(i * FRAME_SIZE));
    }
    assert_eq!(alloc_frame_get(&mut f), None);
    assert_eq!(alloc_aligned(&mut f, 1, 1), None);
}

#[test]
fn alloc_aligned_takes_first_long_enough_run() {
    let mut f = FrameAllocator::new();
    // frames 0,1 used; free 1; then hole at 2 only of length 1 before frame 3 used.
    alloc_frame(&mut f); // 0
    alloc_frame(&mut f); // 1
    alloc_frame(&mut f); // 2
    alloc_frame(&mut f); // 3
    free_frame(&mut f, 2 * FRAME_SIZE); // hole of one frame at 2
    let r = alloc_aligned(&mut f, 2 * FRAME_SIZE, 1);
    assert_eq!(r, Some(4 * FRAME_SIZE));
    assert!(f.is_used(4));
    assert!(f.is_used(5));
    assert!(!f.is_used(2));
    assert!(!f.is_used(6));
}

#[test]
fn alloc_aligned_rounds_size_up_to_frames() {
    let mut f = FrameAllocator::new();
    let r = alloc_aligned(&mut f, FRAME_SIZE + 1, 1);
    assert_eq!(r, Some(0));
    assert!(f.is_used(0));
    assert!(f.is_used(1));
    assert!(!f.is_used(2));
}

#[test]
fn alloc_aligned_rounds_address_up() {
    let mut f = FrameAllocator::new();
    alloc_frame(&mut f);
    let r = alloc_aligned(&mut f, 10, 4 * FRAME_SIZE);
    // frame 0 is taken; the next frame whose address is a multiple of
    // 8 MiB is frame 4, which is reserved and returned as it is.
    assert_eq!(r, Some(4 * FRAME_SIZE));
    assert!(f.is_used(4));
    assert!(!f.is_used(1));
    assert!(!f.is_used(5));
}

#[test]
fn alloc_aligned_skips_unaligned_free_runs() {
    let mut f = FrameAllocator::new();
    alloc_frame(&mut f); // 0
    let r = alloc_aligned(&mut f, FRAME_SIZE, 2 * FRAME_SIZE);
    // frame 1 is free but its address is not a multiple of 4 MiB.
    assert_eq!(r, Some(2 * FRAME_SIZE));
    assert!(f.is_used(2));
    assert!(!f.is_used(1));
    assert!(!f.is_used(3));
}

#[test]
fn alloc_aligned_largest_size() {
    let mut f = FrameAllocator::new();
    assert_eq!(alloc_aligned(&mut f, usize::MAX - (FRAME_SIZE - 1), 1), None);
    assert!(!f.is_used(0));
}

#[test]
fn alloc_aligned_of_zero_bytes_is_none() {
    let mut f = FrameAllocator::new();
    assert_eq!(alloc_aligned(&mut f, 0, 1), None);
    assert!(!f.is_used(0));
}

#[test]
fn alloc_aligned_too_large_is_none() {
    let mut f = FrameAllocator::new();
    assert_eq!(alloc_aligned(&mut f, (MAX_FRAMES + 1) * FRAME_SIZE, 1), None);
    assert!(!f.is_used(0));
}

#[test]
fn free_twice_same_as_once() {
    let mut f = FrameAllocator::new();
    alloc_frame(&mut f);
    alloc_frame(&mut f);
    free_frame(&mut f, 0);
    free_frame(&mut f, 0);
    assert!(!f.is_used(0));
    assert!(f.is_used(1));
    assert_eq!(alloc_frame_get(&mut f), Some(0));
}

#[test]
fn frame_in_use_is_not_handed_out_again() {
    let mut f = FrameAllocator::new();
    let a = alloc_frame_get(&mut f).unwrap(); // frame 0
    alloc_frame(&mut f); // frame 1
    assert_eq!(alloc_aligned(&mut f, FRAME_SIZE, 1), Some(2 * FRAME_SIZE));
    free_frame(&mut f, FRAME_SIZE); // frame 1 only
    let b = alloc_frame_get(&mut f).unwrap();
    assert_ne!(a, b);
    assert_eq!(b, FRAME_SIZE);
    assert!(f.is_used(0));
}
