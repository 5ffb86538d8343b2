use bump_allocator::align::{is_aligned_pow2, padding_for, PAGE_SIZE};
use bump_allocator::region::Blockmemory;

#[test]
fn padding_reaches_the_next_multiple() {
    assert_eq!(padding_for(0x1000, 8), 0);
    assert_eq!(padding_for(0x1001, 8), 7);
    assert_eq!(padding_for(0x1007, 8), 1);
    assert_eq!(padding_for(0x1008, 8), 0);
    assert_eq!(padding_for(10, 3), 2);
    assert_eq!(padding_for(12, 3), 0);
    assert_eq!(padding_for(0, 4096), 0);
    assert_eq!(padding_for(1, 4096), 4095);
    assert_eq!(padding_for(17, 1), 0);
    assert_eq!(padding_for(17, 0), 0);
    assert_eq!(padding_for(usize::MAX, 2), 1);
}

#[test]
fn power_of_two_alignment_test() {
    assert!(is_aligned_pow2(0x1000, 12));
    assert!(is_aligned_pow2(0x3000, 12));
    assert!(!is_aligned_pow2(0x1800, 12));
    assert!(is_aligned_pow2(0x1800, 11));
    assert!(is_aligned_pow2(7, 0));
    assert!(!is_aligned_pow2(7, 1));
    assert!(is_aligned_pow2(0, 63));
    assert!(is_aligned_pow2(0, 64));
    assert!(is_aligned_pow2(0, 1000));
    assert!(!is_aligned_pow2(1, 64));
    assert!(!is_aligned_pow2(usize::MAX, 4096));
    assert!(is_aligned_pow2(1 << 31, 31));
    assert!(!is_aligned_pow2(1 << 30, 31));
}

#[test]
fn fresh_region_counts() {
    let r = Blockmemory::new(0x1000, 0x2800);
    assert_eq!(r.total_bytes(), 0x2800);
    assert_eq!(r.used_bytes(), 0);
    assert_eq!(r.available_bytes(), 0x2800);
    assert_eq!(r.total_pages(), 2);
    assert_eq!(r.used_pages(), 0);
    assert_eq!(r.available_pages(), 2);
}

#[test]
fn empty_region_serves_empty_requests_only() {
    let mut r = Blockmemory::new(0x1000, 0);
    assert_eq!(r.allocate(1, 1), None);
    assert_eq!(r.allocate(0, 1), Some(0x1000));
    assert_eq!(r.alloc_pages(1, 0), None);
    assert_eq!(r.alloc_pages(0, 12), Some(0x1000));
    assert_eq!(r.total_bytes(), 0);
}

#[test]
fn region_allocates_forward() {
    let mut r = Blockmemory::new(0x1004, 0x100);
    assert_eq!(r.allocate(4, 8), Some(0x1008));
    assert_eq!(r.used_bytes(), 8);
    assert_eq!(r.available_bytes(), 0xf8);
    assert_eq!(r.allocate(0xf9, 1), None);
    assert_eq!(r.used_bytes(), 8);
    assert_eq!(r.allocate(0xf8, 4), Some(0x100c));
    assert_eq!(r.available_bytes(), 0);
    assert_eq!(r.total_bytes(), 0x100);
}

#[test]
fn region_gives_back_its_last_block() {
    let mut r = Blockmemory::new(0x1000, 0x100);
    assert_eq!(r.allocate(0x10, 1), Some(0x1000));
    assert_eq!(r.allocate(0x20, 1), Some(0x1010));
    assert!(r.owns_last(0x1010, 0x20));
    assert!(!r.owns_last(0x1000, 0x10));
    assert!(!r.owns_last(0x1010, 0x10));
    assert!(!r.owns_last(0x1040, 0));
    assert!(!r.owns_last(0xfff, 0x31));
    r.dealloc(0x20);
    assert_eq!(r.used_bytes(), 0x10);
    assert_eq!(r.available_bytes(), 0xf0);
    assert!(r.owns_last(0x1000, 0x10));
    assert_eq!(r.allocate(0x20, 1), Some(0x1010));
}

#[test]
fn region_allocates_pages_backward() {
    let mut r = Blockmemory::new(0x10000, 0x3000);
    assert_eq!(r.alloc_pages(1, 12), Some(0x12000));
    assert_eq!(r.alloc_pages(3, 12), None);
    assert_eq!(r.used_pages(), 1);
    assert_eq!(r.available_pages(), 2);
    assert_eq!(r.total_pages(), 3);
    assert_eq!(r.total_bytes(), 0x2000);
    assert_eq!(r.available_bytes(), 0x2000);
    assert_eq!(r.alloc_pages(1, 13), None);
    assert_eq!(r.alloc_pages(2, 13), Some(0x10000));
    assert_eq!(r.available_bytes(), 0);
    assert_eq!(r.allocate(1, 1), None);
    assert_eq!(r.used_pages(), 3);
    assert_eq!(r.total_pages(), 3);
    assert_eq!(PAGE_SIZE, 0x1000);
}
