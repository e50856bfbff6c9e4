use bump_allocator::early_allocator::{AllocError, EarlyAllocator};

const PAGE: usize = 4096;

fn fresh(start: usize, size: usize) -> EarlyAllocator<PAGE> {
    let mut a = EarlyAllocator::<PAGE>::new();
    a.init(start, size);
    a
}

#[test]
fn new_allocator_is_empty() {
    let a = EarlyAllocator::<PAGE>::new();
    assert_eq!(a.total_bytes(), 0);
    assert_eq!(a.used_bytes(), 0);
    assert_eq!(a.available_bytes(), 0);
    assert_eq!(a.total_pages(), 0);
    assert_eq!(a.used_pages(), 0);
    assert_eq!(a.available_pages(), 0);
    assert_eq!(a.page_size(), PAGE);
}

#[test]
fn init_sets_span() {
    let a = fresh(0x10000, 5 * PAGE + 17);
    assert_eq!(a.total_bytes(), 5 * PAGE + 17);
    assert_eq!(a.used_bytes(), 0);
    assert_eq!(a.available_bytes(), 5 * PAGE + 17);
    assert_eq!(a.total_pages(), 5);
    assert_eq!(a.available_pages(), 5);
    assert_eq!(a.used_pages(), 0);
}

#[test]
fn byte_allocations_bump_upwards() {
    let mut a = fresh(0x10000, 4 * PAGE);
    assert_eq!(a.alloc_bytes(10, 1), Ok(0x10000));
    assert_eq!(a.used_bytes(), 10);
    assert_eq!(a.alloc_bytes(8, 8), Ok(0x10010));
    assert_eq!(a.used_bytes(), 0x18);
    assert_eq!(a.available_bytes(), 4 * PAGE - 0x18);
}

#[test]
fn byte_allocations_are_aligned() {
    let mut a = fresh(0x10001, 4 * PAGE);
    for align in [1usize, 2, 4, 8, 16, 64, 256, 4096] {
        let p = a.alloc_bytes(3, align).unwrap();
        assert_eq!(p % align, 0);
    }
}

#[test]
fn alignment_not_power_of_two_still_rounds_up() {
    let mut a = fresh(0x10001, PAGE);
    assert_eq!(a.alloc_bytes(1, 3), Ok(0x10002));
    assert_eq!(a.used_bytes(), 2);
}

#[test]
fn page_allocations_grow_downwards() {
    let mut a = fresh(0x10000, 8 * PAGE);
    assert_eq!(a.alloc_pages(2, PAGE), Ok(0x10000 + 6 * PAGE));
    assert_eq!(a.alloc_pages(1, PAGE), Ok(0x10000 + 5 * PAGE));
    assert_eq!(a.available_pages(), 5);
    assert_eq!(a.available_bytes(), 5 * PAGE);
}

#[test]
fn page_allocation_rounds_down_to_alignment() {
    let mut a = fresh(0x10000, 8 * PAGE);
    assert_eq!(a.alloc_pages(1, PAGE), Ok(0x10000 + 7 * PAGE));
    assert_eq!(a.alloc_pages(1, 4 * PAGE), Ok(0x10000 + 4 * PAGE));
    assert_eq!(a.available_bytes(), 4 * PAGE);
}

#[test]
fn boundary_collision_fails() {
    let mut a = fresh(0x10000, 3 * PAGE);
    let p = a.alloc_bytes(1, 1).unwrap();
    assert_eq!(p, 0x10000);
    assert_eq!(a.used_bytes(), 1);
    assert_eq!(a.alloc_pages(3, PAGE), Err(AllocError::NoMemory));
    assert_eq!(a.used_pages(), 0);
    assert_eq!(a.available_bytes(), 3 * PAGE - 1);
    assert_eq!(a.alloc_pages(2, PAGE), Ok(0x10000 + PAGE));
}

#[test]
fn exhaustion_leaves_cursors_unchanged() {
    let mut a = fresh(0x10000, 100);
    let mut n = 0;
    while a.alloc_bytes(30, 1).is_ok() {
        n += 1;
    }
    assert_eq!(n, 3);
    assert_eq!(a.used_bytes(), 90);
    assert_eq!(a.available_bytes(), 10);
    assert_eq!(a.alloc_bytes(11, 1), Err(AllocError::NoMemory));
    assert_eq!(a.alloc_bytes(8, 16), Err(AllocError::NoMemory));
    assert_eq!(a.used_bytes(), 90);
    assert_eq!(a.available_bytes(), 10);
    assert_eq!(a.alloc_bytes(10, 1), Ok(0x10000 + 90));
    assert_eq!(a.available_bytes(), 0);
}

#[test]
fn byte_allocation_meets_page_region() {
    let mut a = fresh(0x10000, 4 * PAGE);
    a.alloc_pages(2, PAGE).unwrap();
    assert_eq!(a.alloc_bytes(2 * PAGE + 1, 1), Err(AllocError::NoMemory));
    assert_eq!(a.alloc_bytes(2 * PAGE, 1), Ok(0x10000));
    assert_eq!(a.available_bytes(), 0);
    assert_eq!(a.alloc_pages(1, PAGE), Err(AllocError::NoMemory));
    assert_eq!(a.alloc_bytes(0, 1), Ok(0x10000 + 2 * PAGE));
}

#[test]
fn huge_requests_fail_without_overflow() {
    let mut a = fresh(0x10000, 4 * PAGE);
    assert_eq!(a.alloc_bytes(usize::MAX, 1), Err(AllocError::NoMemory));
    assert_eq!(a.alloc_bytes(1, 1 << 63), Err(AllocError::NoMemory));
    assert_eq!(a.alloc_pages(usize::MAX, PAGE), Err(AllocError::NoMemory));
    assert_eq!(a.alloc_pages(5, PAGE), Err(AllocError::NoMemory));
    assert_eq!(a.used_bytes(), 0);
    assert_eq!(a.used_pages(), 0);
    assert_eq!(a.available_bytes(), 4 * PAGE);
}

#[test]
fn bulk_reclaim_after_all_byte_frees() {
    let mut a = fresh(0x10000, 4 * PAGE);
    let p1 = a.alloc_bytes(100, 8).unwrap();
    let p2 = a.alloc_bytes(200, 16).unwrap();
    let p3 = a.alloc_bytes(300, 1).unwrap();
    a.dealloc(p2, 200);
    assert!(a.used_bytes() > 0);
    a.dealloc(p1, 100);
    assert!(a.used_bytes() > 0);
    a.dealloc(p3, 300);
    assert_eq!(a.used_bytes(), 0);
    assert_eq!(a.alloc_bytes(4 * PAGE, 1), Ok(0x10000));
}

#[test]
fn partial_free_reclaims_nothing() {
    let mut a = fresh(0x10000, PAGE);
    let p1 = a.alloc_bytes(10, 1).unwrap();
    let _p2 = a.alloc_bytes(10, 1).unwrap();
    a.dealloc(p1, 10);
    assert_eq!(a.used_bytes(), 20);
    assert_eq!(a.alloc_bytes(1, 1), Ok(0x10000 + 20));
}

#[test]
fn page_count_is_number_of_allocations() {
    let mut a = fresh(0x10000, 16 * PAGE);
    let p1 = a.alloc_pages(1, PAGE).unwrap();
    let p2 = a.alloc_pages(5, PAGE).unwrap();
    assert_eq!(a.used_pages(), 2);
    assert_eq!(a.available_pages(), 10);
    a.dealloc_pages(p1, 1);
    assert_eq!(a.used_pages(), 1);
    assert_eq!(a.available_pages(), 10);
    a.dealloc_pages(p2, 5);
    assert_eq!(a.used_pages(), 0);
    assert_eq!(a.available_pages(), 16);
}

#[test]
fn introspection_is_repeatable() {
    let mut a = fresh(0x10000, 7 * PAGE + 5);
    a.alloc_bytes(33, 4).unwrap();
    a.alloc_pages(2, PAGE).unwrap();
    assert_eq!(a.total_bytes(), a.total_bytes());
    assert_eq!(a.used_bytes(), a.used_bytes());
    assert_eq!(a.available_bytes(), a.available_bytes());
    assert_eq!(a.total_pages(), a.total_pages());
    assert_eq!(a.used_pages(), a.used_pages());
    assert_eq!(a.available_pages(), a.available_pages());
    assert_eq!(a.total_pages(), 7);
    assert_eq!(a.available_pages(), 4);
}

#[test]
fn add_memory_is_unsupported() {
    let mut a = fresh(0x10000, PAGE);
    a.alloc_bytes(8, 8).unwrap();
    assert_eq!(a.add_memory(0x90000, PAGE), Err(AllocError::Unsupported));
    assert_eq!(a.total_bytes(), PAGE);
    assert_eq!(a.used_bytes(), 8);
}

#[test]
fn init_again_forgets_everything() {
    let mut a = fresh(0x10000, 4 * PAGE);
    a.alloc_bytes(8, 8).unwrap();
    a.alloc_pages(1, PAGE).unwrap();
    a.init(0x20000, 2 * PAGE);
    assert_eq!(a.used_bytes(), 0);
    assert_eq!(a.used_pages(), 0);
    assert_eq!(a.available_bytes(), 2 * PAGE);
    assert_eq!(a.alloc_bytes(1, 1), Ok(0x20000));
}

#[test]
fn empty_span_serves_only_empty_requests() {
    let mut a = fresh(0x10000, 0);
    assert_eq!(a.alloc_bytes(1, 1), Err(AllocError::NoMemory));
    assert_eq!(a.alloc_bytes(0, 1), Ok(0x10000));
    assert_eq!(a.alloc_pages(1, PAGE), Err(AllocError::NoMemory));
    assert_eq!(a.alloc_pages(0, PAGE), Ok(0x10000));
}
