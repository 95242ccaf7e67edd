use rust_os::fixed_size_block::{block_size, list_index, FixedSizeBlockAllocator, BLOCK_COUNT};
use rust_os::layout::Layout;

const HEAP_START: usize = 0x8000;
const HEAP_SIZE: usize = 4096;

fn heap() -> FixedSizeBlockAllocator {
    let mut a = FixedSizeBlockAllocator::new();
    a.init(HEAP_START, HEAP_SIZE);
    a
}

fn layout(size: usize, align: usize) -> Layout {
    Layout::from_size_align(size, align).unwrap()
}

#[test]
fn fsb_class_table() {
    assert_eq!(BLOCK_COUNT, 9);
    let expected: [usize; 9] = [8, 16, 32, 64, 128, 256, 512, 1024, 2048];
    for i in 0..BLOCK_COUNT {
        assert_eq!(block_size(i), expected[i]);
    }
}

#[test]
fn fsb_class_routing() {
    // a 10-byte request is always routed to the 16-byte class
    assert_eq!(list_index(&layout(10, 1)), Some(1));
    assert_eq!(list_index(&layout(10, 8)), Some(1));
    // a 4096-byte request always goes to the fallback path
    assert_eq!(list_index(&layout(4096, 1)), None);
    // alignment counts too: block size equals block alignment
    assert_eq!(list_index(&layout(10, 64)), Some(3));
    // boundaries
    assert_eq!(list_index(&layout(8, 1)), Some(0));
    assert_eq!(list_index(&layout(2048, 1)), Some(8));
    assert_eq!(list_index(&layout(2049, 1)), None);
}

#[test]
fn fsb_class_alloc_is_class_aligned() {
    let mut a = heap();
    let p = a.allocate(layout(10, 8)).unwrap();
    // the 16-byte class serves 16-byte aligned blocks
    assert_eq!(p % 16, 0);
    assert_eq!(p % 8, 0);
}

#[test]
fn fsb_routing_is_the_same_on_alloc_and_dealloc() {
    let mut a = heap();
    let l = layout(10, 8);
    // first allocation fetches a fresh block from the fallback
    let p = a.allocate(l).unwrap();
    // the matching dealloc recomputes the same class and parks the block
    a.dealloc(p, l);
    // a request of a different size in the same class pops the parked
    // block: same address, no fallback involved
    let q = a.allocate(layout(12, 8)).unwrap();
    assert_eq!(q, p);
    // a request in another class gets another block
    let r = a.allocate(layout(40, 8)).unwrap();
    assert_ne!(r, p);
}

#[test]
fn fsb_oversize_requests_use_the_fallback() {
    let mut a = heap();
    let l = layout(4000, 8);
    let p = a.allocate(l).unwrap();
    assert_eq!(p, HEAP_START);
    assert_eq!(p % 8, 0);
    // returned through the fallback path as well
    a.dealloc(p, l);
    let q = a.allocate(l).unwrap();
    assert_eq!(q, p);
}

#[test]
fn fsb_no_overlap_between_live_allocations() {
    let mut a = heap();
    let requests: [(usize, usize); 5] = [(10, 8), (10, 8), (100, 8), (3000, 8), (1, 1)];
    let mut granted: Vec<(usize, usize)> = Vec::new();
    for &(size, align) in requests.iter() {
        let p = a.allocate(layout(size, align)).unwrap();
        assert_eq!(p % align, 0);
        // record the full footprint of the block actually granted
        let footprint = match list_index(&layout(size, align)) {
            Some(i) => block_size(i).max(16),
            None => LinkedAllocNorm::norm(size, align),
        };
        granted.push((p, footprint));
    }
    for i in 0..granted.len() {
        for j in 0..granted.len() {
            if i != j {
                let (a1, s1) = granted[i];
                let (a2, s2) = granted[j];
                assert!(a1 + s1 <= a2 || a2 + s2 <= a1);
            }
        }
    }
}

// the fallback normalization, recomputed for the test's bookkeeping
struct LinkedAllocNorm;

impl LinkedAllocNorm {
    fn norm(size: usize, align: usize) -> usize {
        let a = align.max(8);
        let padded = size.div_ceil(a) * a;
        padded.max(16)
    }
}

#[test]
fn fsb_exhaustion_boundary() {
    let mut a = heap();
    let l = layout(HEAP_SIZE, 1);
    // the whole heap in one oversize request, exactly once
    assert_eq!(a.allocate(l), Some(HEAP_START));
    assert_eq!(a.allocate(l), None);
    a.dealloc(HEAP_START, l);
    assert_eq!(a.allocate(l), Some(HEAP_START));
}

#[test]
fn fsb_class_exhaustion_is_reported_not_fatal() {
    let mut a = heap();
    let l = layout(2048, 2048);
    // two 2048-byte blocks fill the 4096-byte heap
    let p1 = a.allocate(l).unwrap();
    let p2 = a.allocate(l).unwrap();
    assert_eq!(p1 % 2048, 0);
    assert_eq!(p2 % 2048, 0);
    assert_ne!(p1, p2);
    // the third request finds the class list empty and the fallback dry
    assert_eq!(a.allocate(l), None);
    // parking one block makes the class serve again
    a.dealloc(p1, l);
    assert_eq!(a.allocate(l), Some(p1));
}

#[test]
fn fsb_end_to_end_scenario() {
    let mut a = heap();
    let small = layout(100, 8);
    let big = layout(4000, 8);
    // 100 bytes route to the 128-byte class; the block comes from the
    // fallback and is 128-byte aligned
    let p = a.allocate(small).unwrap();
    assert_eq!(p % 8, 0);
    assert_eq!(p, HEAP_START);
    // 3968 untouched bytes remain: the 4000-byte request reports exhaustion
    assert!(a.allocate(big).is_none());
    // freeing the small object parks its block on the class list; the
    // fallback still holds only 3968 contiguous bytes, so the retry is
    // still reported as exhaustion, never a crash
    a.dealloc(p, small);
    assert!(a.allocate(big).is_none());
    // while the parked block serves its class immediately
    assert_eq!(a.allocate(layout(128, 8)), Some(p));
}
