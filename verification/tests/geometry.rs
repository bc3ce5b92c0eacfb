use smalloc::config::checks;
use smalloc::Smalloc;

#[test]
fn checks_accepts_a_sound_configuration() {
    assert!(checks(0x1000_0000, 256 * 1024, 16, 2048));
    assert!(checks(1, 8 * 1024, 16, 1024));
}

#[test]
fn checks_rejects_bad_configurations() {
    // A zero base: zero marks an uninitialised arena.
    assert!(!checks(0, 256 * 1024, 16, 2048));
    // A minimum block smaller than a word cannot hold a next pointer.
    assert!(!checks(0x1000, 256 * 1024, 7, 2048));
    // Sizes that are not powers of two.
    assert!(!checks(0x1000, 256 * 1024, 24, 2048));
    assert!(!checks(0x1000, 256 * 1024, 16, 1000));
    // The page size must leave room for more than one page.
    assert!(!checks(0x1000, 2048, 16, 2048));
    // The length must be a whole number of pages.
    assert!(!checks(0x1000, 255 * 1024, 16, 2048));
    // Too many pages: the header no longer fits in the first page.
    assert!(!checks(0x1000, 2048 * 1024, 16, 2048));
    // The arena must fit in the address space.
    assert!(!checks(usize::MAX, 256 * 1024, 16, 2048));
}

#[test]
fn geometry_getters() {
    assert_eq!(Smalloc::<262144, 16, 2048>::page_size(), 2048);
    assert_eq!(Smalloc::<262144, 16, 2048>::page_count(), 128);
    assert_eq!(Smalloc::<262144, 16, 2048>::log2_min(), 4);
    assert_eq!(Smalloc::<262144, 16, 2048>::free_list_count(), 8);
    assert_eq!(Smalloc::<262144, 16, 2048>::need_page_count(2048), 1);
    assert_eq!(Smalloc::<262144, 16, 2048>::need_page_count(4096), 2);
    assert_eq!(Smalloc::<262144, 16, 2048>::need_page_count(4097), 3);
}

#[test]
fn size_level_is_monotone_on_samples() {
    let a = Smalloc::<262144, 16, 2048>::new(0x1000_0000);
    let sizes = [0usize, 1, 15, 16, 17, 31, 32, 33, 1024, 2047, 2048, 2049];
    let mut prev: usize = 0;
    for &s in sizes.iter() {
        let l = a.size_level(s);
        assert!(prev <= l);
        prev = l;
    }
    assert_eq!(a.size_level(0), 0);
    assert_eq!(a.size_level(16), 0);
    assert_eq!(a.size_level(17), 1);
    assert_eq!(a.size_level(20), 1);
    assert_eq!(a.size_level(2048), 7);
    assert_eq!(a.size_level(2049), 8);
}
