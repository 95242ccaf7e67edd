//! The bump (arena) allocation strategy.
//!
//! A single cursor moves forward through the heap; deallocation only counts
//! outstanding allocations and resets the cursor once the count reaches
//! zero, reclaiming the whole arena in one step.

use vstd::prelude::*;

verus! {

use crate::layout::{align_up_spec, is_pow2, lemma_align_up, lemma_pow2_pos, Layout};

/// Bump allocator state.  `next` is the cursor: everything below it (down to
/// `heap_start`) has been handed out since the cursor last sat at
/// `heap_start`, everything above it (up to `heap_end`) is untouched.
pub struct BumpAllocator {
    heap_start: usize,
    heap_end: usize,
    next: usize,
    allocations: usize,
    /// Every address range granted since the cursor last sat at
    /// `heap_start`; the bump strategy reclaims nothing earlier.
    granted: Ghost<Seq<(int, int)>>,
}

impl BumpAllocator {
    pub closed spec fn spec_heap_start(self) -> int {
        self.heap_start as int
    }

    pub closed spec fn spec_heap_end(self) -> int {
        self.heap_end as int
    }

    pub closed spec fn spec_next(self) -> int {
        self.next as int
    }

    pub closed spec fn spec_allocations(self) -> int {
        self.allocations as int
    }

    /// The ranges `(start, size)` granted since the last cursor reset.
    pub closed spec fn granted(self) -> Seq<(int, int)> {
        self.granted@
    }

    /// Structural invariant: the cursor stays inside the heap, it rests at
    /// the start whenever nothing is outstanding, and the granted ranges sit
    /// below the cursor in increasing address order.
    pub open spec fn wf(self) -> bool {
        &&& self.spec_heap_start() <= self.spec_next() <= self.spec_heap_end()
        &&& self.spec_allocations() == 0 ==> self.spec_next() == self.spec_heap_start()
        &&& forall|i: int|
            0 <= i < self.granted().len() ==> {
                &&& self.spec_heap_start() <= (#[trigger] self.granted()[i]).0
                &&& self.granted()[i].1 >= 0
                &&& self.granted()[i].0 + self.granted()[i].1 <= self.spec_next()
            }
        &&& forall|i: int, j: int|
            0 <= i < j < self.granted().len() ==> (#[trigger] self.granted()[i]).0
                + self.granted()[i].1 <= (#[trigger] self.granted()[j]).0
    }

    /// A request of `size` bytes at `align` fits the remaining untouched
    /// heap.
    pub open spec fn fits(self, size: int, align: int) -> bool {
        align_up_spec(self.spec_next(), align) + size <= self.spec_heap_end()
    }

    /// The invariant survives any step that leaves the granted history in
    /// place and does not move the cursor.
    proof fn lemma_wf_frame(pre: Self, post: Self)
        requires
            pre.wf(),
            post.spec_heap_start() == pre.spec_heap_start(),
            post.spec_heap_end() == pre.spec_heap_end(),
            post.spec_next() == pre.spec_next(),
            post.granted() == pre.granted(),
            post.spec_allocations() == 0 ==> post.spec_next() == post.spec_heap_start(),
        ensures
            post.wf(),
    {
        assert forall|i: int| 0 <= i < post.granted().len() implies {
            &&& post.spec_heap_start() <= (#[trigger] post.granted()[i]).0
            &&& post.granted()[i].1 >= 0
            &&& post.granted()[i].0 + post.granted()[i].1 <= post.spec_next()
        } by {
            assert(post.granted()[i] == pre.granted()[i]);
        }
        assert forall|i: int, j: int|
            0 <= i < j < post.granted().len() implies (#[trigger] post.granted()[i]).0
                + post.granted()[i].1 <= (#[trigger] post.granted()[j]).0 by {
            assert(post.granted()[i] == pre.granted()[i]);
            assert(post.granted()[j] == pre.granted()[j]);
        }
    }

    /// The invariant survives granting a fresh range at or above the old
    /// cursor position.
    proof fn lemma_wf_push(pre: Self, post: Self, start: int, size: int)
        requires
            pre.wf(),
            post.spec_heap_start() == pre.spec_heap_start(),
            post.spec_heap_end() == pre.spec_heap_end(),
            post.granted() == pre.granted().push((start, size)),
            pre.spec_next() <= start,
            size >= 0,
            start + size == post.spec_next(),
            post.spec_next() <= post.spec_heap_end(),
            post.spec_allocations() > 0,
        ensures
            post.wf(),
    {
        let g0 = pre.granted();
        let g1 = post.granted();
        assert forall|i: int| 0 <= i < g1.len() implies {
            &&& post.spec_heap_start() <= (#[trigger] g1[i]).0
            &&& g1[i].1 >= 0
            &&& g1[i].0 + g1[i].1 <= post.spec_next()
        } by {
            if i < g0.len() {
                assert(g1[i] == g0[i]);
            } else {
                assert(g1[i] == (start, size));
            }
        }
        assert forall|i: int, j: int|
            0 <= i < j < g1.len() implies (#[trigger] g1[i]).0 + g1[i].1 <= (
            #[trigger] g1[j]).0 by {
            assert(g1[i] == g0[i]);
            if j < g0.len() {
                assert(g1[j] == g0[j]);
            } else {
                assert(g1[j] == (start, size));
            }
        }
    }

    /// An empty allocator; construction touches no memory.
    pub fn new() -> (b: BumpAllocator)
        ensures
            b.wf(),
            b.spec_heap_start() == 0,
            b.spec_heap_end() == 0,
            b.spec_next() == 0,
            b.spec_allocations() == 0,
            b.granted() == Seq::<(int, int)>::empty(),
    {
        BumpAllocator {
            heap_start: 0,
            heap_end: 0,
            next: 0,
            allocations: 0,
            granted: Ghost(Seq::empty()),
        }
    }

    /// Hands the allocator exclusive ownership of
    /// `[heap_start, heap_start + heap_size)`.  Must be called exactly once,
    /// on a freshly constructed allocator, with a mapped and writable range.
    pub fn init(&mut self, heap_start: usize, heap_size: usize)
        requires
            old(self).spec_heap_start() == 0,
            old(self).spec_heap_end() == 0,
            old(self).spec_next() == 0,
            old(self).spec_allocations() == 0,
            old(self).granted() == Seq::<(int, int)>::empty(),
            heap_start + heap_size <= usize::MAX,
        ensures
            final(self).wf(),
            final(self).spec_heap_start() == heap_start,
            final(self).spec_heap_end() == heap_start + heap_size,
            final(self).spec_next() == heap_start,
            final(self).spec_allocations() == 0,
            final(self).granted() == Seq::<(int, int)>::empty(),
    {
        self.heap_start = heap_start;
        self.heap_end = heap_start + heap_size;
        self.next = heap_start;
    }

    /// Grants the next aligned cursor position, or reports exhaustion.
    /// Success happens exactly when the aligned request still fits below
    /// `heap_end`; the granted address is aligned as requested.
    pub fn allocate(&mut self, layout: Layout) -> (r: Option<usize>)
        requires
            old(self).wf(),
            is_pow2(layout.spec_align()),
            old(self).spec_allocations() < usize::MAX,
        ensures
            final(self).wf(),
            final(self).spec_heap_start() == old(self).spec_heap_start(),
            final(self).spec_heap_end() == old(self).spec_heap_end(),
            r is Some <==> old(self).fits(layout.spec_size(), layout.spec_align()),
            match r {
                Some(addr) => {
                    &&& addr == align_up_spec(old(self).spec_next(), layout.spec_align())
                    &&& addr as int % layout.spec_align() == 0
                    &&& old(self).spec_next() <= addr
                    &&& addr + layout.spec_size() <= old(self).spec_heap_end()
                    &&& final(self).spec_next() == addr + layout.spec_size()
                    &&& final(self).spec_allocations() == old(self).spec_allocations() + 1
                    &&& final(self).granted() == old(self).granted().push(
                        (addr as int, layout.spec_size()),
                    )
                },
                None => {
                    &&& final(self).spec_next() == old(self).spec_next()
                    &&& final(self).spec_allocations() == old(self).spec_allocations()
                    &&& final(self).granted() == old(self).granted()
                },
            },
    {
        let align = layout.align();
        let size = layout.size();
        proof {
            lemma_pow2_pos(align as int);
            lemma_align_up(self.next as int, align as int);
        }
        let rem: usize = self.next % align;
        let pad: usize = if rem == 0 {
            0
        } else {
            align - rem
        };
        if pad > self.heap_end - self.next {
            return None;
        }
        let alloc_start = self.next + pad;
        if size > self.heap_end - alloc_start {
            return None;
        }
        let alloc_end = alloc_start + size;
        self.next = alloc_end;
        self.allocations = self.allocations + 1;
        self.granted = Ghost(self.granted@.push((alloc_start as int, size as int)));
        proof {
            Self::lemma_wf_push(*old(self), *self, alloc_start as int, size as int);
        }
        Some(alloc_start)
    }

    /// How many allocations are currently outstanding.
    pub fn allocations(&self) -> (n: usize)
        ensures
            n == self.spec_allocations(),
    {
        self.allocations
    }

    /// Returns one outstanding allocation.  The bump strategy ignores which
    /// one: it only counts, and once the count reaches zero it resets the
    /// cursor, reclaiming the entire heap at once.
    pub fn dealloc(&mut self, _addr: usize, _layout: Layout)
        requires
            old(self).wf(),
            old(self).spec_allocations() >= 1,
        ensures
            final(self).wf(),
            final(self).spec_heap_start() == old(self).spec_heap_start(),
            final(self).spec_heap_end() == old(self).spec_heap_end(),
            final(self).spec_allocations() == old(self).spec_allocations() - 1,
            old(self).spec_allocations() == 1 ==> {
                &&& final(self).spec_next() == final(self).spec_heap_start()
                &&& final(self).granted() == Seq::<(int, int)>::empty()
            },
            old(self).spec_allocations() > 1 ==> {
                &&& final(self).spec_next() == old(self).spec_next()
                &&& final(self).granted() == old(self).granted()
            },
    {
        self.allocations = self.allocations - 1;
        if self.allocations == 0 {
            self.next = self.heap_start;
            self.granted = Ghost(Seq::empty());
        }
        proof {
            if self.allocations != 0 {
                Self::lemma_wf_frame(*old(self), *self);
            }
        }
    }
}

/// No two ranges granted since the last cursor reset overlap: the earlier
/// one ends before the later one starts.  The invariant is established by
/// `new` and `init` and preserved by `allocate` and `dealloc`, so this
/// holds at every point in time; the currently live allocations are among
/// these ranges, so they are pairwise disjoint too.
pub proof fn lemma_bump_no_overlap(b: BumpAllocator, i: int, j: int)
    requires
        b.wf(),
        0 <= i < j < b.granted().len(),
    ensures
        b.granted()[i].0 + b.granted()[i].1 <= b.granted()[j].0,
{
}

/// Once nothing is outstanding the cursor is back at the heap start, and a
/// single request for the entire heap fits again.
pub proof fn lemma_bump_reset(b: BumpAllocator)
    requires
        b.wf(),
        b.spec_allocations() == 0,
    ensures
        b.spec_next() == b.spec_heap_start(),
        b.fits(b.spec_heap_end() - b.spec_heap_start(), 1),
{
    lemma_align_up(b.spec_next(), 1);
}

/// Once the cursor has reached the heap end, no request of one byte or more
/// fits until the arena is reset.
pub proof fn lemma_bump_exhausted(b: BumpAllocator, size: int, align: int)
    requires
        b.wf(),
        b.spec_next() == b.spec_heap_end(),
        size >= 1,
        align >= 1,
    ensures
        !b.fits(size, align),
{
    lemma_align_up(b.spec_next(), align);
}

} // verus!
