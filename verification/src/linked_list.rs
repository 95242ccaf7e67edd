//! The free-list allocation strategy.
//!
//! Free regions are kept on a singly-linked list threaded through the free
//! memory itself: each region starts with a header recording its size and
//! the link to the next region.  The allocator here owns one descriptor per
//! region, holding the region's start address and size; the list order is
//! the kernel's list order, with the most recently inserted region at the
//! head.  Allocation is a first-fit walk from the head with region
//! splitting; deallocation pushes the freed region back at the head.  Free
//! regions are never coalesced.

use vstd::prelude::*;

verus! {

use crate::layout::{
    align_up_spec, is_pow2, lemma_align_up, lemma_divides_transitive, lemma_pow2_divides,
    lemma_pow2_pos, Layout,
};
use vstd::arithmetic::div_mod::{lemma_add_mod_noop, lemma_mod_division_less_than_divisor};

/// Bytes a free-region header occupies at the start of its region: one
/// machine word for the size and one for the link to the next region.
pub const NODE_SIZE: usize = 16;

/// Alignment a free-region header needs: one machine word.
pub const NODE_ALIGN: usize = 8;

/// Descriptor of one free region: its start address and its size in bytes.
/// In the running kernel this header lives at `addr` itself.
#[derive(Clone, Copy, Debug, PartialEq, Eq, Structural)]
pub struct ListNode {
    pub addr: usize,
    pub size: usize,
}

impl ListNode {
    pub fn new(addr: usize, size: usize) -> (n: ListNode)
        ensures
            n.addr == addr,
            n.size == size,
    {
        ListNode { addr, size }
    }

    pub fn start_addr(&self) -> (a: usize)
        ensures
            a == self.addr,
    {
        self.addr
    }

    pub fn end_addr(&self) -> (e: usize)
        requires
            self.addr + self.size <= usize::MAX,
        ensures
            e == self.addr + self.size,
    {
        self.addr + self.size
    }
}

/// Two address ranges do not overlap.
pub open spec fn disjoint(a1: int, s1: int, a2: int, s2: int) -> bool {
    a1 + s1 <= a2 || a2 + s2 <= a1
}

/// A request of `size` bytes at `align` can be carved out of `region`: the
/// aligned start plus the size stays inside the region, and the leftover
/// tail is either empty or still big enough to hold a free-region header.
pub open spec fn region_fits(region: ListNode, size: int, align: int) -> bool {
    let start = align_up_spec(region.addr as int, align);
    let end = start + size;
    let region_end = region.addr + region.size;
    &&& end <= region_end
    &&& (region_end - end == 0 || region_end - end >= NODE_SIZE as int)
}

/// The index of the region a first-fit walk from the head of the list picks
/// for the request, if any.  The head of the list is the last element of the
/// sequence.
pub open spec fn first_fit(free: Seq<ListNode>, size: int, align: int) -> Option<int>
    decreases free.len(),
{
    if free.len() == 0 {
        None
    } else if region_fits(free.last(), size, align) {
        Some(free.len() - 1)
    } else {
        first_fit(free.drop_last(), size, align)
    }
}

/// What `first_fit` returns: a fitting region such that everything closer
/// to the head does not fit, or nothing when no region fits.
pub proof fn lemma_first_fit_props(free: Seq<ListNode>, size: int, align: int)
    ensures
        match first_fit(free, size, align) {
            Some(k) => {
                &&& 0 <= k < free.len()
                &&& region_fits(free[k], size, align)
                &&& forall|j: int|
                    k < j < free.len() ==> !#[trigger] region_fits(free[j], size, align)
            },
            None => forall|j: int|
                0 <= j < free.len() ==> !#[trigger] region_fits(free[j], size, align),
        },
    decreases free.len(),
{
    if free.len() == 0 {
    } else if region_fits(free.last(), size, align) {
    } else {
        lemma_first_fit_props(free.drop_last(), size, align);
        assert forall|j: int| 0 <= j < free.len() - 1 implies free.drop_last()[j] == free[j] by {}
    }
}

/// Scanning one more non-fitting region from the head changes nothing.
proof fn lemma_first_fit_take_step(free: Seq<ListNode>, size: int, align: int, i: int)
    requires
        0 <= i < free.len(),
        !region_fits(free[i], size, align),
    ensures
        first_fit(free.take(i + 1), size, align) == first_fit(free.take(i), size, align),
{
    assert(free.take(i + 1).last() == free[i]);
    assert(free.take(i + 1).drop_last() =~= free.take(i));
}

/// A fitting region at index `i` is what the walk over the first `i + 1`
/// list entries picks.
proof fn lemma_first_fit_take_found(free: Seq<ListNode>, size: int, align: int, i: int)
    requires
        0 <= i < free.len(),
        region_fits(free[i], size, align),
    ensures
        first_fit(free.take(i + 1), size, align) == Some(i),
{
    assert(free.take(i + 1).last() == free[i]);
}

/// The alignment the free-list strategy actually serves: at least the
/// header's own alignment.
pub open spec fn norm_align_spec(layout: Layout) -> int {
    if layout.spec_align() < NODE_ALIGN as int {
        NODE_ALIGN as int
    } else {
        layout.spec_align()
    }
}

/// The size the free-list strategy actually carves out: rounded up to the
/// served alignment and to at least the header size, so that the region can
/// host a free-region header when it is returned.
pub open spec fn norm_size_spec(layout: Layout) -> int {
    let padded = align_up_spec(layout.spec_size(), norm_align_spec(layout));
    if padded < NODE_SIZE as int {
        NODE_SIZE as int
    } else {
        padded
    }
}

/// Free-list allocator state: the heap bounds, the list of free regions
/// (head last), and the ghost set of currently granted ranges.
pub struct LinkedListAllocator {
    free_list: Vec<ListNode>,
    heap_start: usize,
    heap_end: usize,
    /// The ranges `(start, size)` currently granted and not yet returned.
    live: Ghost<Set<(int, int)>>,
}

impl LinkedListAllocator {
    pub closed spec fn spec_heap_start(self) -> int {
        self.heap_start as int
    }

    pub closed spec fn spec_heap_end(self) -> int {
        self.heap_end as int
    }

    /// The free regions, in list order with the head last.
    pub closed spec fn free(self) -> Seq<ListNode> {
        self.free_list@
    }

    /// The currently granted ranges `(start, size)`.
    pub closed spec fn live(self) -> Set<(int, int)> {
        self.live@
    }

    /// A free region lies in the heap, is header-aligned and can hold a
    /// header.
    pub open spec fn region_in_heap(self, n: ListNode) -> bool {
        &&& self.spec_heap_start() <= n.addr as int
        &&& n.addr + n.size <= self.spec_heap_end()
        &&& n.addr as int % (NODE_ALIGN as int) == 0
        &&& n.size >= NODE_SIZE
    }

    /// A granted range lies in the heap, is header-aligned and can hold a
    /// header once it comes back.
    pub open spec fn live_in_heap(self, r: (int, int)) -> bool {
        &&& self.spec_heap_start() <= r.0
        &&& r.0 + r.1 <= self.spec_heap_end()
        &&& r.0 % (NODE_ALIGN as int) == 0
        &&& r.1 >= NODE_SIZE as int
    }

    /// Structural invariant: free regions and granted ranges all lie inside
    /// the heap and are pairwise disjoint, in every combination.
    pub open spec fn wf(self) -> bool {
        &&& self.spec_heap_start() <= self.spec_heap_end()
        &&& forall|i: int|
            0 <= i < self.free().len() ==> self.region_in_heap(#[trigger] self.free()[i])
        &&& forall|i: int, j: int|
            0 <= i < j < self.free().len() ==> disjoint(
                (#[trigger] self.free()[i]).addr as int,
                self.free()[i].size as int,
                (#[trigger] self.free()[j]).addr as int,
                self.free()[j].size as int,
            )
        &&& forall|r: (int, int)| #[trigger] self.live().contains(r) ==> self.live_in_heap(r)
        &&& forall|r1: (int, int), r2: (int, int)|
            #[trigger] self.live().contains(r1) && #[trigger] self.live().contains(r2) && r1 != r2
                ==> disjoint(r1.0, r1.1, r2.0, r2.1)
        &&& forall|i: int, r: (int, int)|
            0 <= i < self.free().len() && #[trigger] self.live().contains(r) ==> disjoint(
                (#[trigger] self.free()[i]).addr as int,
                self.free()[i].size as int,
                r.0,
                r.1,
            )
    }

    /// An empty allocator; construction touches no memory.
    pub fn new() -> (a: LinkedListAllocator)
        ensures
            a.wf(),
            a.spec_heap_start() == 0,
            a.spec_heap_end() == 0,
            a.free() == Seq::<ListNode>::empty(),
            a.live() == Set::<(int, int)>::empty(),
    {
        LinkedListAllocator {
            free_list: Vec::new(),
            heap_start: 0,
            heap_end: 0,
            live: Ghost(Set::empty()),
        }
    }

    /// Removing a free region keeps the invariant.
    proof fn lemma_wf_remove(pre: Self, post: Self, k: int)
        requires
            pre.wf(),
            0 <= k < pre.free().len(),
            post.free() == pre.free().remove(k),
            post.spec_heap_start() == pre.spec_heap_start(),
            post.spec_heap_end() == pre.spec_heap_end(),
            post.live() == pre.live(),
        ensures
            post.wf(),
    {
        pre.free().remove_ensures(k);
        let f0 = pre.free();
        let f1 = post.free();
        assert forall|i: int| 0 <= i < f1.len() implies post.region_in_heap(#[trigger] f1[i]) by {
            if i < k {
                assert(f1[i] == f0[i]);
            } else {
                assert(f1[i] == f0[i + 1]);
            }
            assert(pre.region_in_heap(if i < k {
                f0[i]
            } else {
                f0[i + 1]
            }));
        }
        assert forall|i: int, j: int|
            0 <= i < j < f1.len() implies disjoint(
            (#[trigger] f1[i]).addr as int,
            f1[i].size as int,
            (#[trigger] f1[j]).addr as int,
            f1[j].size as int,
        ) by {
            let i0 = if i < k {
                i
            } else {
                i + 1
            };
            let j0 = if j < k {
                j
            } else {
                j + 1
            };
            assert(f1[i] == f0[i0]);
            assert(f1[j] == f0[j0]);
            assert(disjoint(
                f0[i0].addr as int,
                f0[i0].size as int,
                f0[j0].addr as int,
                f0[j0].size as int,
            ));
        }
        assert forall|r: (int, int)| #[trigger] post.live().contains(r) implies post.live_in_heap(
            r,
        ) by {
            assert(pre.live().contains(r));
        }
        assert forall|i: int, r: (int, int)|
            0 <= i < f1.len() && #[trigger] post.live().contains(r) implies disjoint(
            (#[trigger] f1[i]).addr as int,
            f1[i].size as int,
            r.0,
            r.1,
        ) by {
            let i0 = if i < k {
                i
            } else {
                i + 1
            };
            assert(f1[i] == f0[i0]);
            assert(pre.live().contains(r));
            assert(disjoint(f0[i0].addr as int, f0[i0].size as int, r.0, r.1));
        }
    }

    /// Pushing a fresh disjoint region keeps the invariant.
    proof fn lemma_wf_push_region(pre: Self, post: Self, n: ListNode)
        requires
            pre.wf(),
            post.free() == pre.free().push(n),
            post.spec_heap_start() == pre.spec_heap_start(),
            post.spec_heap_end() == pre.spec_heap_end(),
            post.live() == pre.live(),
            pre.region_in_heap(n),
            forall|i: int|
                0 <= i < pre.free().len() ==> disjoint(
                    (#[trigger] pre.free()[i]).addr as int,
                    pre.free()[i].size as int,
                    n.addr as int,
                    n.size as int,
                ),
            forall|r: (int, int)|
                #[trigger] pre.live().contains(r) ==> disjoint(
                    n.addr as int,
                    n.size as int,
                    r.0,
                    r.1,
                ),
        ensures
            post.wf(),
    {
        let f0 = pre.free();
        let f1 = post.free();
        assert forall|i: int| 0 <= i < f1.len() implies post.region_in_heap(#[trigger] f1[i]) by {
            if i < f0.len() {
                assert(f1[i] == f0[i]);
                assert(pre.region_in_heap(f0[i]));
            } else {
                assert(f1[i] == n);
            }
        }
        assert forall|i: int, j: int|
            0 <= i < j < f1.len() implies disjoint(
            (#[trigger] f1[i]).addr as int,
            f1[i].size as int,
            (#[trigger] f1[j]).addr as int,
            f1[j].size as int,
        ) by {
            assert(f1[i] == f0[i]);
            if j < f0.len() {
                assert(f1[j] == f0[j]);
                assert(disjoint(
                    f0[i].addr as int,
                    f0[i].size as int,
                    f0[j].addr as int,
                    f0[j].size as int,
                ));
            } else {
                assert(f1[j] == n);
                assert(disjoint(f0[i].addr as int, f0[i].size as int, n.addr as int, n.size as int));
            }
        }
        assert forall|r: (int, int)| #[trigger] post.live().contains(r) implies post.live_in_heap(
            r,
        ) by {
            assert(pre.live().contains(r));
        }
        assert forall|i: int, r: (int, int)|
            0 <= i < f1.len() && #[trigger] post.live().contains(r) implies disjoint(
            (#[trigger] f1[i]).addr as int,
            f1[i].size as int,
            r.0,
            r.1,
        ) by {
            assert(pre.live().contains(r));
            if i < f0.len() {
                assert(f1[i] == f0[i]);
                assert(disjoint(f0[i].addr as int, f0[i].size as int, r.0, r.1));
            } else {
                assert(f1[i] == n);
            }
        }
    }

    /// Adds `[addr, addr + size)` to the front of the free list.  The range
    /// must be header-sized and header-aligned, lie inside the heap, and
    /// overlap nothing the allocator tracks.
    fn add_free_region(&mut self, addr: usize, size: usize)
        requires
            old(self).wf(),
            addr as int % (NODE_ALIGN as int) == 0,
            size >= NODE_SIZE,
            old(self).spec_heap_start() <= addr,
            addr + size <= old(self).spec_heap_end(),
            forall|i: int|
                0 <= i < old(self).free().len() ==> disjoint(
                    (#[trigger] old(self).free()[i]).addr as int,
                    old(self).free()[i].size as int,
                    addr as int,
                    size as int,
                ),
            forall|r: (int, int)|
                #[trigger] old(self).live().contains(r) ==> disjoint(
                    addr as int,
                    size as int,
                    r.0,
                    r.1,
                ),
        ensures
            final(self).wf(),
            final(self).spec_heap_start() == old(self).spec_heap_start(),
            final(self).spec_heap_end() == old(self).spec_heap_end(),
            final(self).live() == old(self).live(),
            final(self).free() == old(self).free().push(
                ListNode { addr, size },
            ),
    {
        let node = ListNode::new(addr, size);
        self.free_list.push(node);
        proof {
            Self::lemma_wf_push_region(*old(self), *self, node);
        }
    }

    /// Hands the allocator exclusive ownership of
    /// `[heap_start, heap_start + heap_size)`.  Must be called exactly once,
    /// on a freshly constructed allocator, with a mapped and writable range
    /// that is header-aligned and can hold at least one header.
    pub fn init(&mut self, heap_start: usize, heap_size: usize)
        requires
            old(self).spec_heap_start() == 0,
            old(self).spec_heap_end() == 0,
            old(self).free() == Seq::<ListNode>::empty(),
            old(self).live() == Set::<(int, int)>::empty(),
            heap_start as int % (NODE_ALIGN as int) == 0,
            heap_size >= NODE_SIZE,
            heap_start + heap_size <= usize::MAX,
        ensures
            final(self).wf(),
            final(self).spec_heap_start() == heap_start,
            final(self).spec_heap_end() == heap_start + heap_size,
            final(self).free() == Seq::<ListNode>::empty().push(
                ListNode { addr: heap_start, size: heap_size },
            ),
            final(self).live() == Set::<(int, int)>::empty(),
    {
        self.heap_start = heap_start;
        self.heap_end = heap_start + heap_size;
        self.add_free_region(heap_start, heap_size);
    }

    /// Normalizes a request so the granted region can later host a
    /// free-region header: the alignment grows to at least the header's,
    /// and the size is padded to that alignment and to at least one header.
    pub fn size_align(layout: Layout) -> (r: (usize, usize))
        requires
            is_pow2(layout.spec_align()),
            norm_size_spec(layout) <= usize::MAX,
        ensures
            r.0 == norm_size_spec(layout),
            r.1 == norm_align_spec(layout),
            is_pow2(r.1 as int),
            r.1 >= NODE_ALIGN,
            r.0 >= NODE_SIZE,
            r.0 as int % (NODE_ALIGN as int) == 0,
            r.1 as int % (NODE_ALIGN as int) == 0,
    {
        let align0 = layout.align();
        let align = if align0 < NODE_ALIGN {
            NODE_ALIGN
        } else {
            align0
        };
        proof {
            assert(is_pow2(NODE_ALIGN as int)) by {
                reveal_with_fuel(is_pow2, 5);
            }
            lemma_pow2_pos(align as int);
            layout.lemma_bounds();
            lemma_align_up(layout.spec_size(), align as int);
            lemma_mod_division_less_than_divisor(layout.spec_size(), align as int);
            lemma_pow2_divides(NODE_ALIGN as int, align as int);
        }
        let size0 = layout.size();
        let rem: usize = size0 % align;
        let padded: usize = if rem == 0 {
            size0
        } else {
            size0 + (align - rem)
        };
        let size = if padded < NODE_SIZE {
            NODE_SIZE
        } else {
            padded
        };
        proof {
            lemma_divides_transitive(padded as int, align as int, NODE_ALIGN as int);
        }
        (size, align)
    }

    /// Decides whether a request of `size` bytes at `align` can be carved
    /// out of `region`, and where it would start.
    pub fn alloc_from_region(region: &ListNode, size: usize, align: usize) -> (r: Result<
        usize,
        (),
    >)
        requires
            align >= 1,
            region.addr + region.size <= usize::MAX,
        ensures
            match r {
                Ok(start) => region_fits(*region, size as int, align as int) && start
                    == align_up_spec(region.addr as int, align as int),
                Err(()) => !region_fits(*region, size as int, align as int),
            },
    {
        proof {
            lemma_align_up(region.addr as int, align as int);
            lemma_mod_division_less_than_divisor(region.addr as int, align as int);
        }
        let rem: usize = region.addr % align;
        let pad: usize = if rem == 0 {
            0
        } else {
            align - rem
        };
        if pad > region.size {
            return Err(());
        }
        let alloc_start = region.addr + pad;
        let avail = region.size - pad;
        if size > avail {
            return Err(());
        }
        let excess_size = avail - size;
        if excess_size > 0 && excess_size < NODE_SIZE {
            return Err(());
        }
        Ok(alloc_start)
    }

    /// First-fit walk from the head of the free list.  On success the
    /// picked region is unlinked and returned together with the aligned
    /// start address inside it; regions closer to the head did not fit.
    pub fn find_region(&mut self, size: usize, align: usize) -> (r: Option<(ListNode, usize)>)
        requires
            old(self).wf(),
            align >= 1,
        ensures
            final(self).wf(),
            final(self).spec_heap_start() == old(self).spec_heap_start(),
            final(self).spec_heap_end() == old(self).spec_heap_end(),
            final(self).live() == old(self).live(),
            r is Some <==> first_fit(old(self).free(), size as int, align as int) is Some,
            match r {
                Some((node, alloc_start)) => {
                    &&& first_fit(old(self).free(), size as int, align as int) matches Some(k)
                        && node == old(self).free()[k] && final(self).free() == old(
                        self,
                    ).free().remove(k)
                    &&& region_fits(node, size as int, align as int)
                    &&& alloc_start == align_up_spec(node.addr as int, align as int)
                },
                None => final(self).free() == old(self).free(),
            },
    {
        let ghost orig = self.free_list@;
        let mut i: usize = self.free_list.len();
        proof {
            assert(orig.take(i as int) =~= orig);
        }
        while i > 0
            invariant
                *self == *old(self),
                self.wf(),
                align >= 1,
                i <= orig.len(),
                orig == self.free_list@,
                first_fit(orig, size as int, align as int) == first_fit(
                    orig.take(i as int),
                    size as int,
                    align as int,
                ),
            decreases i,
        {
            i = i - 1;
            proof {
                assert(self.region_in_heap(self.free()[i as int]));
            }
            let fit = Self::alloc_from_region(&self.free_list[i], size, align);
            match fit {
                Ok(alloc_start) => {
                    proof {
                        lemma_first_fit_take_found(orig, size as int, align as int, i as int);
                    }
                    let node = self.free_list.remove(i);
                    proof {
                        Self::lemma_wf_remove(*old(self), *self, i as int);
                    }
                    return Some((node, alloc_start));
                },
                Err(()) => {
                    proof {
                        lemma_first_fit_take_step(orig, size as int, align as int, i as int);
                    }
                },
            }
        }
        proof {
            assert(orig.take(0) =~= Seq::<ListNode>::empty());
        }
        None
    }

    /// Granting a range carved out of a region the allocator owned keeps
    /// the invariant once the range is recorded as live.
    proof fn lemma_wf_live_insert(pre: Self, post: Self, r: (int, int))
        requires
            pre.wf(),
            post.free() == pre.free(),
            post.spec_heap_start() == pre.spec_heap_start(),
            post.spec_heap_end() == pre.spec_heap_end(),
            post.live() == pre.live().insert(r),
            pre.live_in_heap(r),
            forall|r2: (int, int)|
                #[trigger] pre.live().contains(r2) ==> disjoint(r.0, r.1, r2.0, r2.1),
            forall|i: int|
                0 <= i < pre.free().len() ==> disjoint(
                    (#[trigger] pre.free()[i]).addr as int,
                    pre.free()[i].size as int,
                    r.0,
                    r.1,
                ),
        ensures
            post.wf(),
    {
        assert forall|r2: (int, int)| #[trigger] post.live().contains(r2) implies post.live_in_heap(
            r2,
        ) by {
            if r2 != r {
                assert(pre.live().contains(r2));
            }
        }
        assert forall|r1: (int, int), r2: (int, int)|
            #[trigger] post.live().contains(r1) && #[trigger] post.live().contains(r2) && r1
                != r2 implies disjoint(r1.0, r1.1, r2.0, r2.1) by {
            if r1 == r {
                assert(pre.live().contains(r2));
            } else if r2 == r {
                assert(pre.live().contains(r1));
            } else {
                assert(pre.live().contains(r1));
                assert(pre.live().contains(r2));
            }
        }
        assert forall|i: int, r2: (int, int)|
            0 <= i < post.free().len() && #[trigger] post.live().contains(r2) implies disjoint(
            (#[trigger] post.free()[i]).addr as int,
            post.free()[i].size as int,
            r2.0,
            r2.1,
        ) by {
            if r2 != r {
                assert(pre.live().contains(r2));
            }
        }
    }

    /// Serves one allocation request, or reports exhaustion.  The request
    /// is normalized so the granted region can later host a free-region
    /// header, then served first-fit from the head of the free list; the
    /// leftover tail of the picked region goes back at the head of the
    /// list.  Success happens exactly when some free region fits the
    /// normalized request, and the granted address carries the requested
    /// alignment.
    pub fn allocate(&mut self, layout: Layout) -> (r: Option<usize>)
        requires
            old(self).wf(),
            is_pow2(layout.spec_align()),
        ensures
            final(self).wf(),
            final(self).spec_heap_start() == old(self).spec_heap_start(),
            final(self).spec_heap_end() == old(self).spec_heap_end(),
            r is Some <==> first_fit(
                old(self).free(),
                norm_size_spec(layout),
                norm_align_spec(layout),
            ) is Some,
            match r {
                Some(addr) => {
                    let ns = norm_size_spec(layout);
                    let na = norm_align_spec(layout);
                    let k = first_fit(old(self).free(), ns, na)->Some_0;
                    let node = old(self).free()[k];
                    let excess = node.addr + node.size - (addr + ns);
                    &&& addr == align_up_spec(node.addr as int, na)
                    &&& addr as int % na == 0
                    &&& addr as int % layout.spec_align() == 0
                    &&& addr as int % (NODE_ALIGN as int) == 0
                    &&& old(self).spec_heap_start() <= addr
                    &&& addr + ns <= old(self).spec_heap_end()
                    &&& !old(self).live().contains((addr as int, ns))
                    &&& final(self).live() == old(self).live().insert((addr as int, ns))
                    &&& final(self).free() == (if excess > 0 {
                        old(self).free().remove(k).push(
                            ListNode { addr: (addr + ns) as usize, size: excess as usize },
                        )
                    } else {
                        old(self).free().remove(k)
                    })
                },
                None => {
                    &&& final(self).free() == old(self).free()
                    &&& final(self).live() == old(self).live()
                },
            },
    {
        let align0 = layout.align();
        let pre_align = if align0 < NODE_ALIGN {
            NODE_ALIGN
        } else {
            align0
        };
        proof {
            assert(is_pow2(NODE_ALIGN as int)) by {
                reveal_with_fuel(is_pow2, 5);
            }
            lemma_pow2_pos(pre_align as int);
            layout.lemma_bounds();
            lemma_mod_division_less_than_divisor(layout.spec_size(), pre_align as int);
        }
        let size0 = layout.size();
        let rem: usize = size0 % pre_align;
        if rem != 0 && size0 > usize::MAX - (pre_align - rem) {
            // The normalized size exceeds the whole address space, so no
            // region can fit it.
            proof {
                let ns = norm_size_spec(layout);
                let na = norm_align_spec(layout);
                assert forall|j: int|
                    0 <= j < self.free().len() implies !#[trigger] region_fits(
                    self.free()[j],
                    ns,
                    na,
                ) by {
                    assert(self.region_in_heap(self.free()[j]));
                    lemma_align_up(self.free()[j].addr as int, na);
                }
                lemma_first_fit_props(self.free(), ns, na);
            }
            return None;
        }
        let (size, align) = Self::size_align(layout);
        let found = self.find_region(size, align);
        match found {
            Some((node, alloc_start)) => {
                proof {
                    lemma_first_fit_props(old(self).free(), size as int, align as int);
                    let k = first_fit(old(self).free(), size as int, align as int)->Some_0;
                    assert(old(self).region_in_heap(old(self).free()[k]));
                    lemma_align_up(node.addr as int, align as int);
                    lemma_pow2_divides(layout.spec_align(), align as int);
                    lemma_divides_transitive(
                        alloc_start as int,
                        align as int,
                        layout.spec_align(),
                    );
                    lemma_divides_transitive(
                        alloc_start as int,
                        align as int,
                        NODE_ALIGN as int,
                    );
                }
                let alloc_end = alloc_start + size;
                let node_end = node.end_addr();
                let excess_size = node_end - alloc_end;
                proof {
                    // The granted block and the leftover tail both lie
                    // inside the picked region, which was disjoint from
                    // every other tracked range.
                    lemma_first_fit_props(old(self).free(), size as int, align as int);
                    let k = first_fit(old(self).free(), size as int, align as int)->Some_0;
                    old(self).free().remove_ensures(k);
                    assert forall|i: int|
                        0 <= i < self.free().len() implies disjoint(
                        (#[trigger] self.free()[i]).addr as int,
                        self.free()[i].size as int,
                        node.addr as int,
                        node.size as int,
                    ) by {
                        if i < k {
                            assert(self.free()[i] == old(self).free()[i]);
                            assert(disjoint(
                                (old(self).free()[i]).addr as int,
                                old(self).free()[i].size as int,
                                (old(self).free()[k]).addr as int,
                                old(self).free()[k].size as int,
                            ));
                        } else {
                            assert(self.free()[i] == old(self).free()[i + 1]);
                            assert(disjoint(
                                (old(self).free()[k]).addr as int,
                                old(self).free()[k].size as int,
                                (old(self).free()[i + 1]).addr as int,
                                old(self).free()[i + 1].size as int,
                            ));
                        }
                    }
                    assert forall|r2: (int, int)| #[trigger]
                        self.live().contains(r2) implies disjoint(
                        node.addr as int,
                        node.size as int,
                        r2.0,
                        r2.1,
                    ) by {
                        assert(old(self).live().contains(r2));
                        assert(disjoint(
                            (old(self).free()[k]).addr as int,
                            old(self).free()[k].size as int,
                            r2.0,
                            r2.1,
                        ));
                    }
                }
                if excess_size > 0 {
                    proof {
                        lemma_add_mod_noop(alloc_start as int, size as int, NODE_ALIGN as int);
                    }
                    self.add_free_region(alloc_end, excess_size);
                }
                proof {
                    let b = (alloc_start as int, size as int);
                    if self.live@.contains(b) {
                        // would contradict disjointness from the picked region
                        assert(disjoint(node.addr as int, node.size as int, b.0, b.1));
                        assert(false);
                    }
                    assert forall|r2: (int, int)| #[trigger]
                        self.live().contains(r2) implies disjoint(
                        alloc_start as int,
                        size as int,
                        r2.0,
                        r2.1,
                    ) by {
                        assert(disjoint(node.addr as int, node.size as int, r2.0, r2.1));
                    }
                    assert forall|i: int|
                        0 <= i < self.free().len() implies disjoint(
                        (#[trigger] self.free()[i]).addr as int,
                        self.free()[i].size as int,
                        alloc_start as int,
                        size as int,
                    ) by {
                        if excess_size > 0 && i == self.free().len() - 1 {
                        } else {
                            assert(disjoint(
                                (self.free()[i]).addr as int,
                                self.free()[i].size as int,
                                node.addr as int,
                                node.size as int,
                            ));
                        }
                    }
                }
                let ghost mid = *self;
                self.live = Ghost(self.live@.insert((alloc_start as int, size as int)));
                proof {
                    Self::lemma_wf_live_insert(mid, *self, (alloc_start as int, size as int));
                }
                Some(alloc_start)
            },
            None => None,
        }
    }

    /// Returns the range granted at `addr` for `layout` to the allocator:
    /// the request is normalized exactly as at allocation time, and the
    /// freed region goes to the head of the free list.  Nothing is merged
    /// with physically adjacent free regions.
    pub fn dealloc(&mut self, addr: usize, layout: Layout)
        requires
            old(self).wf(),
            is_pow2(layout.spec_align()),
            norm_size_spec(layout) <= usize::MAX,
            old(self).live().contains((addr as int, norm_size_spec(layout))),
        ensures
            final(self).wf(),
            final(self).spec_heap_start() == old(self).spec_heap_start(),
            final(self).spec_heap_end() == old(self).spec_heap_end(),
            final(self).live() == old(self).live().remove((addr as int, norm_size_spec(layout))),
            final(self).free() == old(self).free().push(
                ListNode { addr, size: norm_size_spec(layout) as usize },
            ),
    {
        let (size, _align) = Self::size_align(layout);
        proof {
            let b = (addr as int, size as int);
            assert(old(self).live_in_heap(b));
        }
        self.live = Ghost(self.live@.remove((addr as int, size as int)));
        proof {
            let b = (addr as int, size as int);
            assert forall|i: int|
                0 <= i < self.free().len() implies disjoint(
                (#[trigger] self.free()[i]).addr as int,
                self.free()[i].size as int,
                addr as int,
                size as int,
            ) by {
                assert(old(self).live().contains(b));
                assert(disjoint(
                    (old(self).free()[i]).addr as int,
                    old(self).free()[i].size as int,
                    b.0,
                    b.1,
                ));
            }
            assert forall|r2: (int, int)| #[trigger] self.live().contains(r2) implies disjoint(
                addr as int,
                size as int,
                r2.0,
                r2.1,
            ) by {
                assert(old(self).live().contains(r2));
                assert(r2 != b);
            }
            // The invariant still holds with the range removed from the
            // live set.
            assert forall|r2: (int, int)| #[trigger] self.live().contains(r2) implies
                self.live_in_heap(r2) by {
                assert(old(self).live().contains(r2));
            }
        }
        self.add_free_region(addr, size);
    }
}

/// No-overlap: any two distinct currently granted ranges are disjoint.
/// The invariant is established by `new` and `init` and preserved by
/// `allocate` and `dealloc`, so this holds at every point in time.
pub proof fn lemma_live_ranges_disjoint(a: LinkedListAllocator, r1: (int, int), r2: (int, int))
    requires
        a.wf(),
        a.live().contains(r1),
        a.live().contains(r2),
        r1 != r2,
    ensures
        disjoint(r1.0, r1.1, r2.0, r2.1),
{
}

/// Free-list reuse: a request whose normalized form matches the region at
/// the head of the free list (the most recently freed one) is served from
/// that region, at that region's own address — whether or not any untouched
/// heap remains elsewhere.
pub proof fn lemma_freed_head_reused(a: LinkedListAllocator, layout: Layout)
    requires
        a.wf(),
        a.free().len() > 0,
        a.free().last().addr as int % norm_align_spec(layout) == 0,
        norm_size_spec(layout) <= a.free().last().size,
        a.free().last().size - norm_size_spec(layout) == 0 || a.free().last().size
            - norm_size_spec(layout) >= NODE_SIZE,
    ensures
        first_fit(a.free(), norm_size_spec(layout), norm_align_spec(layout)) == Some(
            a.free().len() - 1,
        ),
        align_up_spec(a.free().last().addr as int, norm_align_spec(layout)) == a.free().last().addr
            as int,
{
    assert(region_fits(a.free().last(), norm_size_spec(layout), norm_align_spec(layout)));
}

/// Exhaustion boundary, first half: when the whole heap is one free region
/// and the request normalizes to exactly the heap size, the request is
/// served at the heap start.
pub proof fn lemma_whole_heap_fits(a: LinkedListAllocator, layout: Layout)
    requires
        a.wf(),
        a.free().len() == 1,
        a.free()[0].addr as int == a.spec_heap_start(),
        a.free()[0].addr + a.free()[0].size == a.spec_heap_end(),
        norm_size_spec(layout) == a.free()[0].size,
        a.spec_heap_start() % norm_align_spec(layout) == 0,
    ensures
        first_fit(a.free(), norm_size_spec(layout), norm_align_spec(layout)) == Some(0int),
        align_up_spec(a.free()[0].addr as int, norm_align_spec(layout)) == a.spec_heap_start(),
{
    assert(region_fits(a.free()[0], norm_size_spec(layout), norm_align_spec(layout)));
    assert(a.free().last() == a.free()[0]);
}

/// Exhaustion boundary, second half: with no free region left, every
/// request reports exhaustion rather than failing any other way.
pub proof fn lemma_empty_list_exhausted(a: LinkedListAllocator, size: int, align: int)
    requires
        a.free().len() == 0,
    ensures
        first_fit(a.free(), size, align) is None,
{
}

} // verus!
