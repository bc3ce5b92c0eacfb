use smalloc::Smalloc;

const START: usize = 0x1000_0000;
const LENGTH: usize = 256 * 1024;
const MIN: usize = 16;
const PAGE_SIZE: usize = 2048;

#[test]
fn test_alloc() {
    let mut a = Smalloc::<LENGTH, MIN, PAGE_SIZE>::new(START);
    for _ in 0..2 {
        let big = a.allocate(2 * 1024, 8);
        let big2 = a.allocate(2 * 1024, 8);
        let p = a.allocate(16, 8);
        let p2 = a.allocate(16, 8);
        let p3 = a.allocate(16, 8);
        let p4 = a.allocate(16, 8);
        let p5 = a.allocate(16, 8);
        let p6 = a.allocate(16, 8);
        let p7 = a.allocate(16, 8);
        let p8 = a.allocate(16, 8);
        let p9 = a.allocate(16, 8);
        let p10 = a.allocate(16, 8);
        let small = [p, p2, p3, p4, p5, p6, p7, p8, p9, p10];
        for (i, &x) in small.iter().enumerate() {
            assert!(x != 0);
            for &y in small.iter().skip(i + 1) {
                assert!(x != y);
            }
        }
        assert!(big != 0 && big2 != 0 && big != big2);
        a.dealloc(big, 2 * 1024, 8);
        a.dealloc(big2, 2 * 1024, 8);
    }
}

#[test]
fn first_small_block_lies_past_the_header() {
    let mut a = Smalloc::<LENGTH, MIN, PAGE_SIZE>::new(START);
    let p = a.allocate(16, 8);
    assert!(p != 0);
    assert!(p > START);
    assert!(p < START + PAGE_SIZE);
    // 137 header words (marker, 8 heads, 128 page words), rounded up to 16.
    assert_eq!(p, START + 1104);
}

#[test]
fn small_blocks_until_exhaustion() {
    let mut a = Smalloc::<LENGTH, MIN, PAGE_SIZE>::new(START);
    let mut count: usize = 0;
    loop {
        let p = a.allocate(16, 8);
        if p == 0 {
            break;
        }
        count += 1;
    }
    // The surplus block plus 127 full slab pages.
    assert_eq!(count, 1 + 127 * (PAGE_SIZE / 16));
    assert!(count >= 16256);
    assert!(count >= PAGE_SIZE * 127 / 16 - 1);
    assert_eq!(a.allocate(16, 8), 0);
}

#[test]
fn page_sized_blocks_get_distinct_pages() {
    let mut a = Smalloc::<LENGTH, MIN, PAGE_SIZE>::new(START);
    let p1 = a.allocate(2048, 8);
    let p2 = a.allocate(2048, 8);
    assert!(p1 != 0 && p2 != 0);
    assert_eq!((p1 - START) % PAGE_SIZE, 0);
    assert_eq!((p2 - START) % PAGE_SIZE, 0);
    assert!((p1 - START) / PAGE_SIZE != (p2 - START) / PAGE_SIZE);
}

#[test]
fn released_run_is_reused() {
    let mut a = Smalloc::<LENGTH, MIN, PAGE_SIZE>::new(START);
    let p1 = a.allocate(4096, 8);
    assert!(p1 != 0);
    assert_eq!((p1 - START) % PAGE_SIZE, 0);
    a.dealloc(p1, 4096, 8);
    let p2 = a.allocate(4096, 8);
    assert_eq!(p2, p1);
}

#[test]
fn freed_small_block_is_next_handed_out() {
    let mut a = Smalloc::<LENGTH, MIN, PAGE_SIZE>::new(START);
    let pa = a.allocate(16, 8);
    let pb = a.allocate(16, 8);
    assert!(pa != 0 && pb != 0 && pa != pb);
    a.dealloc(pa, 16, 8);
    let pc = a.allocate(16, 8);
    assert_eq!(pc, pa);
}

#[test]
fn realloc_across_classes_moves_and_frees() {
    let mut a = Smalloc::<LENGTH, MIN, PAGE_SIZE>::new(START);
    let p = a.allocate(16, 8);
    assert!(p != 0);
    // 16 bytes is class 0, 20 bytes is class 1: the block must move.
    let q = a.realloc(p, 16, 8, 20);
    assert!(q != 0);
    assert!(q != p);
    // The old block went back onto class 0's list.
    let r = a.allocate(16, 8);
    assert_eq!(r, p);
}

#[test]
fn realloc_within_class_returns_same_block() {
    let mut a = Smalloc::<LENGTH, MIN, PAGE_SIZE>::new(START);
    let p = a.allocate(16, 8);
    assert!(p != 0);
    assert_eq!(a.realloc(p, 16, 8, 12), p);
    assert_eq!(a.realloc(p, 16, 8, 16), p);
}

#[test]
fn alignment_is_honoured() {
    let mut a = Smalloc::<LENGTH, MIN, PAGE_SIZE>::new(START);
    // Alignment above the size bumps the class.
    let p = a.allocate(16, 256);
    assert!(p != 0);
    assert_eq!((p - START) % 256, 0);
    assert_eq!(p % 256, 0);
    // Multi-page blocks inherit page alignment.
    let q = a.allocate(3000, 1024);
    assert!(q != 0);
    assert_eq!((q - START) % 1024, 0);
}

#[test]
fn too_large_requests_fail_cleanly() {
    let mut a = Smalloc::<LENGTH, MIN, PAGE_SIZE>::new(START);
    assert_eq!(a.allocate(LENGTH + PAGE_SIZE, 8), 0);
    assert!(a.allocate(16, 8) != 0);
}

#[test]
fn zero_size_is_served_from_class_zero() {
    let mut a = Smalloc::<LENGTH, MIN, PAGE_SIZE>::new(START);
    let p = a.allocate(0, 1);
    assert!(p != 0);
    let q = a.allocate(16, 8);
    assert!(q != 0 && q != p);
}

#[test]
fn realloc_between_page_runs_and_slabs() {
    let mut a = Smalloc::<LENGTH, MIN, PAGE_SIZE>::new(START);
    let p = a.allocate(4096, 8);
    assert!(p != 0);
    let q = a.realloc(p, 4096, 8, 16);
    assert!(q != 0 && q != p);
    // The run was released; the next run request finds it again.
    let r = a.allocate(4096, 8);
    assert_eq!(r, p);
}

#[test]
fn failed_realloc_keeps_the_old_block() {
    let mut a = Smalloc::<LENGTH, MIN, PAGE_SIZE>::new(START);
    let p = a.allocate(16, 8);
    assert!(p != 0);
    let q = a.realloc(p, 16, 8, 2 * LENGTH);
    assert_eq!(q, 0);
    // The old block is still owned and can be freed as before.
    a.dealloc(p, 16, 8);
    assert_eq!(a.allocate(16, 8), p);
}

#[test]
fn freeing_null_is_a_no_op() {
    let mut a = Smalloc::<LENGTH, MIN, PAGE_SIZE>::new(START);
    let p = a.allocate(16, 8);
    a.dealloc(0, 16, 8);
    let q = a.allocate(16, 8);
    assert!(q != 0 && q != p);
}

#[test]
fn page_sized_requests_stay_on_the_slab_path() {
    let mut a = Smalloc::<LENGTH, MIN, PAGE_SIZE>::new(START);
    let p = a.allocate(2048, 8);
    assert!(p != 0);
    a.dealloc(p, 2048, 8);
    // A slab page is never given back to the pool: the freed block itself
    // is handed out again, rather than a fresh high page.
    let q = a.allocate(2048, 8);
    assert_eq!(q, p);
}

#[test]
fn start_marker_reports_initialisation() {
    let mut a = Smalloc::<LENGTH, MIN, PAGE_SIZE>::new(START);
    assert_eq!(a.get_start(), START);
    assert_eq!(a.start(), 0);
    let p = a.allocate(16, 8);
    assert!(p != 0);
    assert_eq!(a.start(), START);
}

#[test]
fn header_views_after_first_allocation() {
    let mut a = Smalloc::<LENGTH, MIN, PAGE_SIZE>::new(START);
    let p = a.allocate(16, 8);
    assert!(p != 0);
    assert!(a.page_header(0));
    assert!(!a.page_header(1));
    // The surplus was the whole of class 0's list.
    assert_eq!(a.free_list(0), 0);
}
