use bump_allocator::align::PAGE_SIZE;
use bump_allocator::early::{AllocError, EarlyAllocator, MAX_BLOCKS};

fn byte_counters(a: &EarlyAllocator) -> (usize, usize, usize) {
    (a.total_bytes(), a.used_bytes(), a.available_bytes())
}

fn page_counters(a: &EarlyAllocator) -> (usize, usize, usize) {
    (a.total_pages(), a.used_pages(), a.available_pages())
}

#[test]
fn new_allocator_is_empty() {
    let a = EarlyAllocator::new();
    assert_eq!(a.region_count(), 0);
    assert_eq!(byte_counters(&a), (0, 0, 0));
    assert_eq!(page_counters(&a), (0, 0, 0));
}

#[test]
fn init_sets_the_counters() {
    let mut a = EarlyAllocator::new();
    a.init(0x1000, 0x2000);
    assert_eq!(a.region_count(), 1);
    assert_eq!(byte_counters(&a), (0x2000, 0, 0x2000));
    assert_eq!(page_counters(&a), (2, 0, 2));
}

#[test]
fn first_allocation_starts_at_region_start() {
    let mut a = EarlyAllocator::new();
    a.init(0x1000, 0x2000);
    assert_eq!(a.allocate(16, 8), Ok(0x1000));
    assert_eq!(a.available_bytes(), 0x2000 - 16);
    assert_eq!(a.used_bytes(), 16);
    assert_eq!(a.total_bytes(), 0x2000);
}

#[test]
fn allocation_before_init_is_reported() {
    let mut a = EarlyAllocator::new();
    assert_eq!(a.allocate(16, 8), Err(AllocError::PreconditionViolation));
    assert_eq!(a.allocate(0, 1), Err(AllocError::PreconditionViolation));
    assert_eq!(a.alloc_pages(1, 12), Err(AllocError::PreconditionViolation));
    assert_eq!(a.alloc_pages(0, 0), Err(AllocError::PreconditionViolation));
    assert_eq!(byte_counters(&a), (0, 0, 0));
    assert!(!a.can_dealloc(0x1000, 16));
}

#[test]
fn ninth_region_is_refused() {
    let mut a = EarlyAllocator::new();
    for i in 0..MAX_BLOCKS {
        assert_eq!(a.add_memory(0x10000 * (i + 1), 0x1000), Ok(()));
    }
    assert_eq!(a.region_count(), 8);
    assert_eq!(a.total_bytes(), 8 * 0x1000);
    assert_eq!(a.add_memory(0x100000, 0x4000), Err(AllocError::CapacityExceeded));
    assert_eq!(a.region_count(), 8);
    assert_eq!(byte_counters(&a), (8 * 0x1000, 0, 8 * 0x1000));
}

#[test]
fn init_and_seven_regions_fill_the_slots() {
    let mut a = EarlyAllocator::new();
    a.init(0x1000, 0x100);
    for i in 1..MAX_BLOCKS {
        assert_eq!(a.add_memory(0x1000 * (i + 1), 0x100), Ok(()));
    }
    assert_eq!(a.add_memory(0x20000, 0x100), Err(AllocError::CapacityExceeded));
    assert_eq!(a.total_bytes(), 8 * 0x100);
}

#[test]
fn oversized_request_is_out_of_memory() {
    let mut a = EarlyAllocator::new();
    a.init(0x1000, 0x100);
    assert_eq!(a.add_memory(0x8000, 0x200), Ok(()));
    assert_eq!(a.allocate(0x20, 1), Ok(0x1000));
    let bytes = byte_counters(&a);
    let pages = page_counters(&a);
    assert_eq!(a.allocate(0x201, 1), Err(AllocError::OutOfMemory));
    assert_eq!(byte_counters(&a), bytes);
    assert_eq!(page_counters(&a), pages);
    assert_eq!(a.allocate(usize::MAX, 1), Err(AllocError::OutOfMemory));
    assert_eq!(byte_counters(&a), bytes);
}

#[test]
fn pages_come_from_the_region_end() {
    let mut a = EarlyAllocator::new();
    a.init(0x1000, 0x2000);
    let available = a.available_pages();
    assert_eq!(available, 2);
    assert_eq!(a.alloc_pages(2, 12), Ok(0x3000 - 2 * PAGE_SIZE));
    assert_eq!(a.available_pages(), available - 2);
    assert_eq!(a.used_pages(), 2);
    a.dealloc_pages(0x1000, 2);
    assert_eq!(a.available_pages(), available - 2);
    assert_eq!(a.used_pages(), 2);
}

#[test]
fn page_size_is_4096() {
    assert_eq!(PAGE_SIZE, 4096);
    assert_eq!(MAX_BLOCKS, 8);
}

#[test]
fn sequence_of_allocations_is_increasing_and_charged() {
    let mut a = EarlyAllocator::new();
    a.init(0x1000, 0x1000);
    let initial = a.available_bytes();
    // (size, align, expected address, padded size)
    let requests = [
        (3usize, 1usize, 0x1000usize, 3usize),
        (8, 8, 0x1008, 5 + 8),
        (1, 2, 0x1010, 1),
        (16, 16, 0x1020, 15 + 16),
        (32, 4, 0x1030, 32),
    ];
    let mut charged = 0;
    let mut previous_end = 0;
    for (size, align, address, padded) in requests {
        assert_eq!(a.allocate(size, align), Ok(address));
        assert_eq!(address % align, 0);
        assert!(previous_end <= address);
        previous_end = address + size;
        charged += padded;
        assert_eq!(a.available_bytes(), initial - charged);
        assert_eq!(a.used_bytes(), charged);
    }
    assert_eq!(charged, 0x50);
}

#[test]
fn allocation_can_use_the_last_byte() {
    let mut a = EarlyAllocator::new();
    a.init(0x1000, 0x40);
    assert_eq!(a.allocate(0x40, 1), Ok(0x1000));
    assert_eq!(byte_counters(&a), (0x40, 0x40, 0));
    assert_eq!(a.allocate(1, 1), Err(AllocError::OutOfMemory));
    assert_eq!(a.allocate(0, 1), Ok(0x1040));
    assert_eq!(byte_counters(&a), (0x40, 0x40, 0));
}

#[test]
fn padding_counts_against_the_fit() {
    let mut a = EarlyAllocator::new();
    a.init(0x1001, 0x10);
    // 15 bytes of padding lead to 0x1010, and only one byte is left there.
    assert_eq!(a.allocate(2, 16), Err(AllocError::OutOfMemory));
    assert_eq!(a.allocate(1, 16), Ok(0x1010));
    assert_eq!(byte_counters(&a), (0x10, 0x10, 0));
}

#[test]
fn zero_alignment_constrains_nothing() {
    let mut a = EarlyAllocator::new();
    a.init(0x1003, 0x100);
    assert_eq!(a.allocate(5, 0), Ok(0x1003));
    assert_eq!(a.allocate(5, 1), Ok(0x1008));
    assert_eq!(a.allocate(5, 3), Ok(0x100e));
    assert_eq!(a.used_bytes(), 5 + 5 + 1 + 5);
}

#[test]
fn round_trip_restores_the_counters() {
    let mut a = EarlyAllocator::new();
    a.init(0x1000, 0x2000);
    assert_eq!(a.allocate(24, 8), Ok(0x1000));
    let before = byte_counters(&a);
    let address = a.allocate(100, 8).unwrap();
    assert_eq!(address, 0x1018);
    assert_eq!(byte_counters(&a), (0x2000, 124, 0x2000 - 124));
    assert!(a.can_dealloc(address, 100));
    a.dealloc(address, 100, 8);
    assert_eq!(byte_counters(&a), before);
    assert_eq!(a.allocate(100, 8), Ok(0x1018));
}

#[test]
fn padding_stays_charged_after_dealloc() {
    let mut a = EarlyAllocator::new();
    a.init(0x1000, 0x2000);
    assert_eq!(a.allocate(1, 1), Ok(0x1000));
    assert_eq!(a.allocate(8, 8), Ok(0x1008));
    assert_eq!(a.used_bytes(), 16);
    assert!(a.can_dealloc(0x1008, 8));
    a.dealloc(0x1008, 8, 8);
    assert_eq!(a.used_bytes(), 8);
    assert_eq!(a.available_bytes(), 0x2000 - 8);
    assert_eq!(a.allocate(1, 1), Ok(0x1008));
}

#[test]
fn only_the_last_block_can_be_given_back() {
    let mut a = EarlyAllocator::new();
    a.init(0x1000, 0x2000);
    assert_eq!(a.allocate(16, 1), Ok(0x1000));
    assert_eq!(a.allocate(16, 1), Ok(0x1010));
    assert!(!a.can_dealloc(0x1000, 16));
    assert!(!a.can_dealloc(0x1010, 8));
    assert!(!a.can_dealloc(0x1018, 16));
    assert!(!a.can_dealloc(0x0ff0, 0x30));
    assert!(a.can_dealloc(0x1010, 16));
    assert!(a.can_dealloc(0x1000, 32));
    a.dealloc(0x1010, 16, 1);
    assert!(a.can_dealloc(0x1000, 16));
    a.dealloc(0x1000, 16, 1);
    assert_eq!(byte_counters(&a), (0x2000, 0, 0x2000));
    assert!(!a.can_dealloc(0x1000, 16));
    assert!(a.can_dealloc(0x1000, 0));
}

#[test]
fn first_fit_goes_by_slot_order() {
    let mut a = EarlyAllocator::new();
    a.init(0x9000, 0x100);
    assert_eq!(a.add_memory(0x1000, 0x1000), Ok(()));
    assert_eq!(a.add_memory(0x5000, 0x1000), Ok(()));
    // Fits in slot 0, although slot 1 lies lower and slot 1 and 2 are larger.
    assert_eq!(a.allocate(0x80, 1), Ok(0x9000));
    // No longer fits in slot 0: slot 1 is next.
    assert_eq!(a.allocate(0x100, 1), Ok(0x1000));
    // Still fits in slot 0.
    assert_eq!(a.allocate(0x80, 1), Ok(0x9080));
    assert_eq!(a.allocate(0xf00, 1), Ok(0x1100));
    assert_eq!(a.allocate(0x1000, 1), Ok(0x5000));
    assert_eq!(a.allocate(1, 1), Err(AllocError::OutOfMemory));
    assert_eq!(byte_counters(&a), (0x2100, 0x2100, 0));
}

#[test]
fn dealloc_finds_the_owning_region() {
    let mut a = EarlyAllocator::new();
    a.init(0x9000, 0x100);
    assert_eq!(a.add_memory(0x1000, 0x1000), Ok(()));
    assert_eq!(a.allocate(0x100, 1), Ok(0x9000));
    assert_eq!(a.allocate(0x200, 1), Ok(0x1000));
    assert!(a.can_dealloc(0x1000, 0x200));
    a.dealloc(0x1000, 0x200, 1);
    assert_eq!(byte_counters(&a), (0x1100, 0x100, 0x1000));
    assert_eq!(a.allocate(0x10, 1), Ok(0x1000));
    assert!(a.can_dealloc(0x9000, 0x100));
    a.dealloc(0x9000, 0x100, 1);
    assert_eq!(a.allocate(0x10, 1), Ok(0x9000));
}

#[test]
fn init_again_discards_the_first_region_only() {
    let mut a = EarlyAllocator::new();
    a.init(0x1000, 0x1000);
    assert_eq!(a.add_memory(0x8000, 0x800), Ok(()));
    assert_eq!(a.allocate(0x1000, 1), Ok(0x1000));
    assert_eq!(a.allocate(0x100, 1), Ok(0x8000));
    assert_eq!(byte_counters(&a), (0x1800, 0x1100, 0x700));
    a.init(0x20000, 0x400);
    assert_eq!(a.region_count(), 2);
    assert_eq!(byte_counters(&a), (0xc00, 0x100, 0xb00));
    assert_eq!(a.allocate(0x10, 1), Ok(0x20000));
}

#[test]
fn add_memory_on_an_empty_allocator_takes_slot_zero() {
    let mut a = EarlyAllocator::new();
    assert_eq!(a.add_memory(0x4000, 0x1000), Ok(()));
    assert_eq!(a.region_count(), 1);
    assert_eq!(a.allocate(8, 8), Ok(0x4000));
    a.init(0x8000, 0x100);
    assert_eq!(a.region_count(), 1);
    assert_eq!(byte_counters(&a), (0x100, 0, 0x100));
}

#[test]
fn pages_and_bytes_share_the_free_area() {
    let mut a = EarlyAllocator::new();
    a.init(0x10000, 0x4000);
    assert_eq!(page_counters(&a), (4, 0, 4));
    assert_eq!(a.allocate(0x10, 1), Ok(0x10000));
    // Less than four whole pages are free now.
    assert_eq!(page_counters(&a), (3, 0, 3));
    assert_eq!(a.alloc_pages(1, 12), Ok(0x13000));
    assert_eq!(page_counters(&a), (3, 1, 2));
    assert_eq!(byte_counters(&a), (0x3000, 0x10, 0x2ff0));
    assert_eq!(a.alloc_pages(3, 12), Err(AllocError::OutOfMemory));
    assert_eq!(a.alloc_pages(2, 12), Ok(0x11000));
    assert_eq!(page_counters(&a), (3, 3, 0));
    assert_eq!(byte_counters(&a), (0x1000, 0x10, 0xff0));
    assert_eq!(a.allocate(0xff1, 1), Err(AllocError::OutOfMemory));
    assert_eq!(a.allocate(0xff0, 1), Ok(0x10010));
    assert_eq!(byte_counters(&a), (0x1000, 0x1000, 0));
    assert_eq!(a.alloc_pages(1, 0), Err(AllocError::OutOfMemory));
    assert_eq!(a.alloc_pages(0, 12), Ok(0x11000));
    assert!(a.can_dealloc(0x10010, 0xff0));
    a.dealloc(0x10010, 0xff0, 1);
    assert_eq!(page_counters(&a), (3, 3, 0));
    assert_eq!(byte_counters(&a), (0x1000, 0x10, 0xff0));
}

#[test]
fn page_alignment_is_a_power_of_two() {
    let mut a = EarlyAllocator::new();
    a.init(0x1800, 0x3000);
    // The region ends at 0x4800: no base taken from its end is a multiple
    // of 4096, but every base is a multiple of 2048.
    assert_eq!(a.alloc_pages(1, 12), Err(AllocError::OutOfMemory));
    assert_eq!(page_counters(&a), (3, 0, 3));
    assert_eq!(a.alloc_pages(1, 11), Ok(0x3800));
    assert_eq!(a.alloc_pages(1, 0), Ok(0x2800));
    assert_eq!(a.alloc_pages(1, 13), Err(AllocError::OutOfMemory));
    assert_eq!(page_counters(&a), (3, 2, 1));
}

#[test]
fn page_alignment_beyond_the_word_admits_base_zero_only() {
    let mut a = EarlyAllocator::new();
    a.init(0, 0x2000);
    assert_eq!(a.alloc_pages(1, 200), Err(AllocError::OutOfMemory));
    assert_eq!(a.alloc_pages(1, usize::MAX), Err(AllocError::OutOfMemory));
    assert_eq!(a.alloc_pages(2, 200), Ok(0));
    assert_eq!(page_counters(&a), (2, 2, 0));
}

#[test]
fn page_count_that_overflows_is_out_of_memory() {
    let mut a = EarlyAllocator::new();
    a.init(0x1000, 0x2000);
    assert_eq!(a.alloc_pages(usize::MAX, 0), Err(AllocError::OutOfMemory));
    assert_eq!(a.alloc_pages(usize::MAX / PAGE_SIZE + 1, 0), Err(AllocError::OutOfMemory));
    assert_eq!(page_counters(&a), (2, 0, 2));
}

#[test]
fn pages_go_by_slot_order() {
    let mut a = EarlyAllocator::new();
    a.init(0x1000, 0x1000);
    assert_eq!(a.add_memory(0x10000, 0x4000), Ok(()));
    assert_eq!(a.alloc_pages(2, 12), Ok(0x12000));
    assert_eq!(a.alloc_pages(1, 12), Ok(0x1000));
    assert_eq!(a.alloc_pages(1, 12), Ok(0x11000));
    assert_eq!(page_counters(&a), (5, 4, 1));
}

#[test]
fn allocator_is_copied_by_value() {
    let mut a = EarlyAllocator::new();
    a.init(0x1000, 0x100);
    let snapshot = a;
    assert_eq!(a.allocate(0x10, 1), Ok(0x1000));
    assert_eq!(snapshot.used_bytes(), 0);
    assert_eq!(a.used_bytes(), 0x10);
}

#[test]
fn the_region_made_last_is_current() {
    let mut a = EarlyAllocator::new();
    assert_eq!(a.current_region(), None);
    assert_eq!(a.add_memory(0x4000, 0x1000), Ok(()));
    assert_eq!(a.current_region(), Some(0));
    assert_eq!(a.add_memory(0x8000, 0x1000), Ok(()));
    assert_eq!(a.current_region(), Some(1));
    assert_eq!(a.allocate(0x1000, 1), Ok(0x4000));
    assert_eq!(a.allocate(8, 1), Ok(0x8000));
    assert_eq!(a.current_region(), Some(1));
    a.init(0x10000, 0x100);
    assert_eq!(a.current_region(), Some(0));
    assert_eq!(a.region_count(), 2);
}
