use rust_os::bump::BumpAllocator;
use rust_os::layout::Layout;

const HEAP_START: usize = 0x8000;
const HEAP_SIZE: usize = 4096;

fn heap() -> BumpAllocator {
    let mut b = BumpAllocator::new();
    b.init(HEAP_START, HEAP_SIZE);
    b
}

fn layout(size: usize, align: usize) -> Layout {
    Layout::from_size_align(size, align).unwrap()
}

#[test]
fn bump_alignment() {
    let mut b = heap();
    let a1 = b.allocate(layout(100, 8)).unwrap();
    assert_eq!(a1 % 8, 0);
    assert_eq!(a1, HEAP_START);
    let a2 = b.allocate(layout(1, 64)).unwrap();
    assert_eq!(a2 % 64, 0);
    let a3 = b.allocate(layout(5, 1)).unwrap();
    assert_eq!(a3, a2 + 1);
}

#[test]
fn bump_no_overlap() {
    let mut b = heap();
    let mut granted: Vec<(usize, usize)> = Vec::new();
    for &(size, align) in [(100usize, 8usize), (1, 1), (64, 64), (17, 2)].iter() {
        let a = b.allocate(layout(size, align)).unwrap();
        granted.push((a, size));
    }
    for i in 0..granted.len() {
        for j in 0..granted.len() {
            if i != j {
                let (a1, s1) = granted[i];
                let (a2, s2) = granted[j];
                assert!(a1 + s1 <= a2 || a2 + s2 <= a1);
            }
        }
    }
}

#[test]
fn bump_reset_after_freeing_all() {
    let mut b = heap();
    let l = layout(128, 8);
    let a1 = b.allocate(l).unwrap();
    let a2 = b.allocate(l).unwrap();
    let a3 = b.allocate(l).unwrap();
    assert_eq!(b.allocations(), 3);
    // free all three, in an order different from allocation order
    b.dealloc(a2, l);
    b.dealloc(a3, l);
    b.dealloc(a1, l);
    assert_eq!(b.allocations(), 0);
    // the cursor is back at the heap start: a request for the whole heap
    // succeeds, at the heap start itself
    let whole = b.allocate(layout(HEAP_SIZE, 1)).unwrap();
    assert_eq!(whole, HEAP_START);
}

#[test]
fn bump_no_reset_while_any_outstanding() {
    let mut b = heap();
    let l = layout(128, 8);
    let a1 = b.allocate(l).unwrap();
    let _a2 = b.allocate(l).unwrap();
    b.dealloc(a1, l);
    // one allocation is still outstanding, so the arena is not reclaimed
    assert!(b.allocate(layout(HEAP_SIZE, 1)).is_none());
}

#[test]
fn bump_exhaustion_boundary() {
    let mut b = heap();
    let l = layout(HEAP_SIZE, 1);
    // a request for exactly the whole heap succeeds exactly once
    let a = b.allocate(l);
    assert_eq!(a, Some(HEAP_START));
    assert_eq!(b.allocate(l), None);
    // and exhaustion is reported again for any further size
    assert_eq!(b.allocate(layout(1, 1)), None);
}

#[test]
fn bump_end_to_end_scenario() {
    let mut b = heap();
    let a = b.allocate(layout(100, 8)).unwrap();
    assert_eq!(a % 8, 0);
    // only ~3996 bytes remain: a 4000-byte request reports exhaustion
    assert!(b.allocate(layout(4000, 8)).is_none());
    // freeing the one outstanding object resets the whole arena,
    // so the retry now succeeds
    b.dealloc(a, layout(100, 8));
    let big = b.allocate(layout(4000, 8));
    assert_eq!(big, Some(HEAP_START));
}
