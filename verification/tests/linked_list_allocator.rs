use rust_os::layout::Layout;
use rust_os::linked_list::{LinkedListAllocator, ListNode, NODE_ALIGN, NODE_SIZE};

const HEAP_START: usize = 0x8000;
const HEAP_SIZE: usize = 4096;

fn heap() -> LinkedListAllocator {
    let mut a = LinkedListAllocator::new();
    a.init(HEAP_START, HEAP_SIZE);
    a
}

fn layout(size: usize, align: usize) -> Layout {
    Layout::from_size_align(size, align).unwrap()
}

#[test]
fn ll_node_addresses() {
    let n = ListNode::new(0x1000, 48);
    assert_eq!(n.start_addr(), 0x1000);
    assert_eq!(n.end_addr(), 0x1000 + 48);
}

#[test]
fn ll_header_constants() {
    // a free region must be able to host its own header
    assert_eq!(NODE_SIZE, 16);
    assert_eq!(NODE_ALIGN, 8);
}

#[test]
fn ll_size_align_normalization() {
    // a one-byte request still has to host a header when freed
    assert_eq!(LinkedListAllocator::size_align(layout(1, 1)), (16, 8));
    // sizes are padded to the served alignment
    assert_eq!(LinkedListAllocator::size_align(layout(40, 32)), (64, 32));
    // already normalized requests stay as they are
    assert_eq!(LinkedListAllocator::size_align(layout(64, 8)), (64, 8));
}

#[test]
fn ll_alloc_from_region_fit_rules() {
    let region = ListNode::new(0x1000, 100);
    // fits with a reusable tail of 50 bytes
    assert_eq!(
        LinkedListAllocator::alloc_from_region(&region, 50, 8),
        Ok(0x1000)
    );
    // fits exactly
    assert_eq!(
        LinkedListAllocator::alloc_from_region(&region, 100, 8),
        Ok(0x1000)
    );
    // would leave an 8-byte fragment no header fits into: rejected
    assert_eq!(
        LinkedListAllocator::alloc_from_region(&region, 92, 8),
        Err(())
    );
    // too large
    assert_eq!(
        LinkedListAllocator::alloc_from_region(&region, 101, 8),
        Err(())
    );
}

#[test]
fn ll_first_alloc_is_aligned_at_heap_start() {
    let mut a = heap();
    let p = a.allocate(layout(100, 8)).unwrap();
    assert_eq!(p, HEAP_START);
    assert_eq!(p % 8, 0);
}

#[test]
fn ll_no_overlap_between_live_allocations() {
    let mut a = heap();
    let sizes: [(usize, usize); 4] = [(100, 8), (1, 1), (64, 64), (17, 2)];
    let mut granted: Vec<(usize, usize)> = Vec::new();
    for &(size, align) in sizes.iter() {
        let p = a.allocate(layout(size, align)).unwrap();
        assert_eq!(p % align, 0);
        granted.push((p, size));
    }
    for i in 0..granted.len() {
        for j in 0..granted.len() {
            if i != j {
                let (a1, s1) = granted[i];
                let (a2, s2) = granted[j];
                assert!(a1 + s1 <= a2 || a2 + s2 <= a1);
            }
        }
    }
}

#[test]
fn ll_free_list_reuse() {
    let mut a = heap();
    let l = layout(200, 8);
    let p = a.allocate(l).unwrap();
    a.dealloc(p, l);
    // the freed region sits at the head of the list and is picked first:
    // the same request gets the same address back
    assert_eq!(a.allocate(l), Some(p));
    a.dealloc(p, l);
    // a smaller compatible request is served from the freed region too
    // (200 normalizes to 200; 184 normalizes to 184, leaving a 16-byte tail)
    assert_eq!(a.allocate(layout(184, 8)), Some(p));
}

#[test]
fn ll_reuse_works_even_when_untouched_heap_is_smaller() {
    let mut a = heap();
    let big = layout(3000, 8);
    let p = a.allocate(big).unwrap();
    // under 1100 bytes of untouched heap remain; free the big block and
    // allocate it again: served from the freed region
    a.dealloc(p, big);
    assert_eq!(a.allocate(big), Some(p));
}

#[test]
fn ll_exhaustion_boundary() {
    let mut a = heap();
    let l = layout(HEAP_SIZE, 1);
    // a request for exactly the whole heap succeeds exactly once
    assert_eq!(a.allocate(l), Some(HEAP_START));
    assert_eq!(a.allocate(l), None);
    assert_eq!(a.allocate(layout(16, 1)), None);
    // once freed, the whole heap can be granted again
    a.dealloc(HEAP_START, l);
    assert_eq!(a.allocate(l), Some(HEAP_START));
}

#[test]
fn ll_end_to_end_scenario() {
    let mut a = heap();
    let small = layout(100, 8);
    let big = layout(4000, 8);
    let p = a.allocate(small).unwrap();
    assert_eq!(p % 8, 0);
    // the 100-byte object occupies 104 bytes; 3992 bytes of untouched heap
    // remain, so a 4000-byte request reports exhaustion
    assert!(a.allocate(big).is_none());
    a.dealloc(p, small);
    // the freed 104 bytes and the 3992 untouched bytes are adjacent but are
    // never coalesced, so no single region covers 4000 bytes: the retry
    // still reports exhaustion
    assert!(a.allocate(big).is_none());
    // a request the remaining tail does cover succeeds
    assert_eq!(a.allocate(layout(3000, 8)).is_some(), true);
}

#[test]
fn ll_alignment_padding_is_left_behind() {
    let mut a = LinkedListAllocator::new();
    // a heap start that is word-aligned but not 1024-byte aligned
    a.init(0x8040, HEAP_SIZE);
    let p = a.allocate(layout(100, 1024)).unwrap();
    // the granted block starts at the next 1024-byte boundary; the bytes
    // between the region start and the boundary are skipped, not tracked
    assert_eq!(p, 0x8400);
    assert_eq!(p % 1024, 0);
    // the next request is served from the split-off tail after the block
    let q = a.allocate(layout(960, 8)).unwrap();
    assert_eq!(q, 0x8400 + 1024);
}

#[test]
fn ll_freed_regions_are_not_coalesced() {
    let mut a = heap();
    let l = layout(1024, 8);
    let p1 = a.allocate(l).unwrap();
    let p2 = a.allocate(l).unwrap();
    assert_eq!(p2, p1 + 1024);
    a.dealloc(p1, l);
    a.dealloc(p2, l);
    // 2048 physically contiguous bytes are free, but as two separate
    // regions, and the untouched tail holds the rest: a 2048-byte request
    // is served from the untouched tail, not from a merged region
    let p3 = a.allocate(layout(2048, 8)).unwrap();
    assert_eq!(p3, p1 + 2048);
}
