//! The fixed-size block allocation strategy.
//!
//! Requests are routed to a fixed set of power-of-two size classes; every
//! class keeps an intrusive list of free blocks of exactly that size, so
//! allocation and deallocation in a class are one list operation.  A class
//! whose list is empty fetches one fresh block from an embedded free-list
//! allocator over the same heap; requests no class covers go to that
//! fallback allocator unchanged.  Block size and alignment coincide in
//! every class, so one class choice covers both constraints.

use vstd::prelude::*;

verus! {

use crate::layout::{
    is_pow2, lemma_divides_transitive, lemma_pow2_divides, Layout,
};
use crate::linked_list::{
    disjoint, first_fit, norm_align_spec, norm_size_spec, LinkedListAllocator, ListNode, NODE_SIZE,
};

/// How many size classes there are.
pub const BLOCK_COUNT: usize = 9;

/// The block size of class `i`: powers of two from 8 to 2048 bytes.  Blocks
/// must be able to hold the intrusive list link that threads free blocks
/// together, so no class is smaller than one machine word.
pub open spec fn block_size_spec(i: int) -> int {
    if i == 0 {
        8
    } else if i == 1 {
        16
    } else if i == 2 {
        32
    } else if i == 3 {
        64
    } else if i == 4 {
        128
    } else if i == 5 {
        256
    } else if i == 6 {
        512
    } else if i == 7 {
        1024
    } else {
        2048
    }
}

/// Every class size is a power of two no smaller than one machine word.
pub proof fn lemma_block_size_pow2(i: int)
    requires
        0 <= i < BLOCK_COUNT,
    ensures
        is_pow2(block_size_spec(i)),
        8 <= block_size_spec(i) <= 2048,
{
    reveal_with_fuel(is_pow2, 13);
    assert(is_pow2(8int));
    assert(is_pow2(16int));
    assert(is_pow2(32int));
    assert(is_pow2(64int));
    assert(is_pow2(128int));
    assert(is_pow2(256int));
    assert(is_pow2(512int));
    assert(is_pow2(1024int));
    assert(is_pow2(2048int));
}

/// The block size of class `i`.
pub fn block_size(i: usize) -> (s: usize)
    requires
        i < BLOCK_COUNT,
    ensures
        s == block_size_spec(i as int),
{
    if i == 0 {
        8
    } else if i == 1 {
        16
    } else if i == 2 {
        32
    } else if i == 3 {
        64
    } else if i == 4 {
        128
    } else if i == 5 {
        256
    } else if i == 6 {
        512
    } else if i == 7 {
        1024
    } else {
        2048
    }
}

/// The class serving a required block size: the smallest class at least as
/// big, or none when the request exceeds the largest class.
pub open spec fn class_of_spec(required: int) -> Option<int> {
    if required <= 8 {
        Some(0int)
    } else if required <= 16 {
        Some(1int)
    } else if required <= 32 {
        Some(2int)
    } else if required <= 64 {
        Some(3int)
    } else if required <= 128 {
        Some(4int)
    } else if required <= 256 {
        Some(5int)
    } else if required <= 512 {
        Some(6int)
    } else if required <= 1024 {
        Some(7int)
    } else if required <= 2048 {
        Some(8int)
    } else {
        None
    }
}

/// What a request must fit into: block size equals block alignment in every
/// class, so the class must cover the larger of size and alignment.
pub open spec fn required_spec(layout: Layout) -> int {
    if layout.spec_size() < layout.spec_align() {
        layout.spec_align()
    } else {
        layout.spec_size()
    }
}

/// The class a request is routed to, on allocation and on deallocation
/// alike: a function of the layout alone.
pub open spec fn route_spec(layout: Layout) -> Option<int> {
    class_of_spec(required_spec(layout))
}

/// The chosen class covers the request and is in range.
pub proof fn lemma_class_of(required: int)
    ensures
        class_of_spec(required) matches Some(i) ==> 0 <= i < BLOCK_COUNT && required
            <= block_size_spec(i),
        class_of_spec(required) is None ==> required > 2048,
{
}

/// Chooses the class for a request, exactly as a matching deallocation
/// chooses it again.
pub fn list_index(layout: &Layout) -> (r: Option<usize>)
    ensures
        r is Some <==> route_spec(*layout) is Some,
        r matches Some(i) ==> route_spec(*layout) == Some(i as int) && i < BLOCK_COUNT,
{
    let size = layout.size();
    let align = layout.align();
    let required = if size < align {
        align
    } else {
        size
    };
    if required <= 8 {
        Some(0)
    } else if required <= 16 {
        Some(1)
    } else if required <= 32 {
        Some(2)
    } else if required <= 64 {
        Some(3)
    } else if required <= 128 {
        Some(4)
    } else if required <= 256 {
        Some(5)
    } else if required <= 512 {
        Some(6)
    } else if required <= 1024 {
        Some(7)
    } else if required <= 2048 {
        Some(8)
    } else {
        None
    }
}

/// What one block of class `i` occupies once the fallback allocator has
/// normalized it: the class size, but never less than a free-region header.
pub open spec fn footprint_spec(i: int) -> int {
    if block_size_spec(i) < NODE_SIZE as int {
        NODE_SIZE as int
    } else {
        block_size_spec(i)
    }
}

/// The footprint of the block serving `layout`: its class footprint, or the
/// fallback normalization for requests no class covers.
pub open spec fn footprint_of_spec(layout: Layout) -> int {
    match route_spec(layout) {
        Some(i) => footprint_spec(i),
        None => norm_size_spec(layout),
    }
}

/// Fixed-size-block allocator state: one free-block list per class, the
/// embedded fallback allocator, and the ghost set of currently granted
/// blocks.
pub struct FixedSizeBlockAllocator {
    list_heads: Vec<Vec<usize>>,
    fallback_allocator: LinkedListAllocator,
    /// The ranges `(start, footprint)` currently granted to callers.
    live: Ghost<Set<(int, int)>>,
}

impl FixedSizeBlockAllocator {
    /// The per-class lists of parked free block addresses, head last.
    pub closed spec fn lists(self) -> Seq<Seq<usize>> {
        self.list_heads@.map_values(|v: Vec<usize>| v@)
    }

    /// The embedded fallback allocator.
    pub closed spec fn fallback(self) -> LinkedListAllocator {
        self.fallback_allocator
    }

    /// The currently granted ranges `(start, footprint)`.
    pub closed spec fn live(self) -> Set<(int, int)> {
        self.live@
    }

    pub open spec fn spec_heap_start(self) -> int {
        self.fallback().spec_heap_start()
    }

    pub open spec fn spec_heap_end(self) -> int {
        self.fallback().spec_heap_end()
    }

    /// Structural invariant.  Every parked block is class-aligned, is a
    /// range the fallback allocator considers granted, and is not granted
    /// to any caller; no two parked entries are the same range; and every
    /// range granted to a caller is one the fallback allocator granted.
    /// With the fallback's own invariant this makes every pair of caller
    /// ranges, parked blocks and fallback free regions disjoint.
    pub open spec fn wf(self) -> bool {
        &&& self.fallback().wf()
        &&& self.lists().len() == BLOCK_COUNT as int
        &&& forall|i: int, j: int|
            0 <= i < BLOCK_COUNT && 0 <= j < self.lists()[i].len() ==> {
                &&& (#[trigger] self.lists()[i][j]) as int % block_size_spec(i) == 0
                &&& self.fallback().live().contains((self.lists()[i][j] as int, footprint_spec(i)))
                &&& !self.live().contains((self.lists()[i][j] as int, footprint_spec(i)))
            }
        &&& forall|i1: int, j1: int, i2: int, j2: int|
            0 <= i1 < BLOCK_COUNT && 0 <= j1 < self.lists()[i1].len() && 0 <= i2 < BLOCK_COUNT
                && 0 <= j2 < self.lists()[i2].len() && (i1 != i2 || j1 != j2) ==> !((
            #[trigger] self.lists()[i1][j1]) as int == (#[trigger] self.lists()[i2][j2]) as int
                && footprint_spec(i1) == footprint_spec(i2))
        &&& forall|r: (int, int)| #[trigger]
            self.live().contains(r) ==> self.fallback().live().contains(r)
    }

    /// An empty allocator; construction touches no memory.
    pub fn new() -> (a: FixedSizeBlockAllocator)
        ensures
            a.wf(),
            a.spec_heap_start() == 0,
            a.spec_heap_end() == 0,
            a.lists().len() == BLOCK_COUNT as int,
            forall|i: int| 0 <= i < BLOCK_COUNT ==> (#[trigger] a.lists()[i]).len() == 0,
            a.fallback().free() == Seq::<ListNode>::empty(),
            a.fallback().live() == Set::<(int, int)>::empty(),
            a.live() == Set::<(int, int)>::empty(),
    {
        let mut heads: Vec<Vec<usize>> = Vec::new();
        let mut i: usize = 0;
        while i < BLOCK_COUNT
            invariant
                i <= BLOCK_COUNT,
                heads@.len() == i,
                forall|k: int| 0 <= k < i ==> (#[trigger] heads@[k])@.len() == 0,
            decreases BLOCK_COUNT - i,
        {
            heads.push(Vec::new());
            i = i + 1;
        }
        let a = FixedSizeBlockAllocator {
            list_heads: heads,
            fallback_allocator: LinkedListAllocator::new(),
            live: Ghost(Set::empty()),
        };
        proof {
            assert forall|k: int| 0 <= k < BLOCK_COUNT implies (#[trigger] a.lists()[k]).len()
                == 0 by {
                assert(a.lists()[k] == heads@[k]@);
            }
        }
        a
    }

    /// Hands the allocator exclusive ownership of
    /// `[heap_start, heap_start + heap_size)` by initializing the embedded
    /// fallback allocator over it.  Must be called exactly once, on a
    /// freshly constructed allocator.
    pub fn init(&mut self, heap_start: usize, heap_size: usize)
        requires
            old(self).wf(),
            old(self).spec_heap_start() == 0,
            old(self).spec_heap_end() == 0,
            old(self).fallback().free() == Seq::<ListNode>::empty(),
            old(self).fallback().live() == Set::<(int, int)>::empty(),
            old(self).live() == Set::<(int, int)>::empty(),
            heap_start as int % 8 == 0,
            heap_size >= NODE_SIZE,
            heap_start + heap_size <= usize::MAX,
        ensures
            final(self).wf(),
            final(self).spec_heap_start() == heap_start,
            final(self).spec_heap_end() == heap_start + heap_size,
            final(self).lists() == old(self).lists(),
            final(self).fallback().free() == Seq::<ListNode>::empty().push(
                ListNode { addr: heap_start, size: heap_size },
            ),
            final(self).fallback().live() == Set::<(int, int)>::empty(),
            final(self).live() == Set::<(int, int)>::empty(),
    {
        proof {
            // A fresh allocator parks no blocks: a parked block would be a
            // range the fallback allocator granted, and it granted none.
            assert forall|i: int| 0 <= i < BLOCK_COUNT implies (#[trigger] old(
                self,
            ).lists()[i]).len() == 0 by {
                if old(self).lists()[i].len() > 0 {
                    assert(old(self).fallback().live().contains(
                        (old(self).lists()[i][0] as int, footprint_spec(i)),
                    ));
                }
            }
        }
        self.fallback_allocator.init(heap_start, heap_size);
        proof {
            assert forall|i: int, j: int|
                0 <= i < BLOCK_COUNT && 0 <= j < self.lists()[i].len() implies {
                &&& (#[trigger] self.lists()[i][j]) as int % block_size_spec(i) == 0
                &&& self.fallback().live().contains((self.lists()[i][j] as int, footprint_spec(i)))
                &&& !self.live().contains((self.lists()[i][j] as int, footprint_spec(i)))
            } by {
                assert(self.lists()[i].len() == 0);
            }
        }
    }

    /// Whether a request can be served: its class has a parked block, or
    /// the fallback allocator has a region fitting the block the class
    /// would fetch, or — for requests no class covers — fitting the
    /// normalized request itself.
    pub open spec fn can_alloc(s: FixedSizeBlockAllocator, layout: Layout) -> bool {
        match route_spec(layout) {
            Some(i) => s.lists()[i].len() > 0 || first_fit(
                s.fallback().free(),
                footprint_spec(i),
                block_size_spec(i),
            ) is Some,
            None => first_fit(
                s.fallback().free(),
                norm_size_spec(layout),
                norm_align_spec(layout),
            ) is Some,
        }
    }

    /// The invariant survives any step that leaves the class lists, the
    /// caller-live set and the fallback's granted set in place.
    proof fn lemma_wf_frame(pre: Self, post: Self)
        requires
            pre.wf(),
            post.lists() == pre.lists(),
            post.fallback().wf(),
            post.fallback().live() == pre.fallback().live(),
            post.live() == pre.live(),
        ensures
            post.wf(),
    {
        assert forall|i: int, j: int|
            0 <= i < BLOCK_COUNT && 0 <= j < post.lists()[i].len() implies {
            &&& (#[trigger] post.lists()[i][j]) as int % block_size_spec(i) == 0
            &&& post.fallback().live().contains((post.lists()[i][j] as int, footprint_spec(i)))
            &&& !post.live().contains((post.lists()[i][j] as int, footprint_spec(i)))
        } by {
            assert(post.lists()[i][j] == pre.lists()[i][j]);
            assert(pre.fallback().live().contains((pre.lists()[i][j] as int, footprint_spec(i))));
        }
        assert forall|i1: int, j1: int, i2: int, j2: int|
            0 <= i1 < BLOCK_COUNT && 0 <= j1 < post.lists()[i1].len() && 0 <= i2 < BLOCK_COUNT && 0
                <= j2 < post.lists()[i2].len() && (i1 != i2 || j1 != j2) implies !((
        #[trigger] post.lists()[i1][j1]) as int == (#[trigger] post.lists()[i2][j2]) as int
            && footprint_spec(i1) == footprint_spec(i2)) by {
            assert(post.lists()[i1][j1] == pre.lists()[i1][j1]);
            assert(post.lists()[i2][j2] == pre.lists()[i2][j2]);
        }
        assert forall|r: (int, int)| #[trigger]
            post.live().contains(r) implies post.fallback().live().contains(r) by {
            assert(pre.live().contains(r));
        }
    }

    /// The invariant survives the fallback allocator granting a fresh range
    /// that is recorded as granted to the caller.
    proof fn lemma_wf_fallback_grant(pre: Self, post: Self, b: (int, int))
        requires
            pre.wf(),
            post.lists() == pre.lists(),
            post.fallback().wf(),
            post.fallback().live() == pre.fallback().live().insert(b),
            !pre.fallback().live().contains(b),
            post.live() == pre.live().insert(b),
        ensures
            post.wf(),
    {
        assert forall|i: int, j: int|
            0 <= i < BLOCK_COUNT && 0 <= j < post.lists()[i].len() implies {
            &&& (#[trigger] post.lists()[i][j]) as int % block_size_spec(i) == 0
            &&& post.fallback().live().contains((post.lists()[i][j] as int, footprint_spec(i)))
            &&& !post.live().contains((post.lists()[i][j] as int, footprint_spec(i)))
        } by {
            let e = (pre.lists()[i][j] as int, footprint_spec(i));
            assert(pre.lists()[i][j] as int % block_size_spec(i) == 0);
            assert(pre.fallback().live().contains(e));
            assert(e != b);
        }
        assert forall|i1: int, j1: int, i2: int, j2: int|
            0 <= i1 < BLOCK_COUNT && 0 <= j1 < post.lists()[i1].len() && 0 <= i2 < BLOCK_COUNT && 0
                <= j2 < post.lists()[i2].len() && (i1 != i2 || j1 != j2) implies !((
        #[trigger] post.lists()[i1][j1]) as int == (#[trigger] post.lists()[i2][j2]) as int
            && footprint_spec(i1) == footprint_spec(i2)) by {
            assert(post.lists()[i1][j1] == pre.lists()[i1][j1]);
            assert(post.lists()[i2][j2] == pre.lists()[i2][j2]);
        }
        assert forall|r: (int, int)| #[trigger]
            post.live().contains(r) implies post.fallback().live().contains(r) by {
            if r != b {
                assert(pre.live().contains(r));
            }
        }
    }

    /// Grants one range from the embedded fallback allocator and records it
    /// as granted to the caller.
    fn fallback_alloc(&mut self, layout: Layout) -> (r: Option<usize>)
        requires
            old(self).wf(),
            is_pow2(layout.spec_align()),
        ensures
            final(self).wf(),
            final(self).spec_heap_start() == old(self).spec_heap_start(),
            final(self).spec_heap_end() == old(self).spec_heap_end(),
            final(self).lists() == old(self).lists(),
            r is Some <==> first_fit(
                old(self).fallback().free(),
                norm_size_spec(layout),
                norm_align_spec(layout),
            ) is Some,
            match r {
                Some(addr) => {
                    &&& addr as int % norm_align_spec(layout) == 0
                    &&& addr as int % layout.spec_align() == 0
                    &&& old(self).spec_heap_start() <= addr
                    &&& addr + norm_size_spec(layout) <= old(self).spec_heap_end()
                    &&& !old(self).live().contains((addr as int, norm_size_spec(layout)))
                    &&& !old(self).fallback().live().contains((addr as int, norm_size_spec(layout)))
                    &&& final(self).live() == old(self).live().insert(
                        (addr as int, norm_size_spec(layout)),
                    )
                    &&& final(self).fallback().live() == old(self).fallback().live().insert(
                        (addr as int, norm_size_spec(layout)),
                    )
                },
                None => {
                    &&& final(self).live() == old(self).live()
                    &&& final(self).fallback().free() == old(self).fallback().free()
                    &&& final(self).fallback().live() == old(self).fallback().live()
                },
            },
    {
        let r = self.fallback_allocator.allocate(layout);
        match r {
            Some(addr) => {
                let ghost b = (addr as int, norm_size_spec(layout));
                proof {
                    if old(self).live().contains(b) {
                        assert(old(self).fallback().live().contains(b));
                        assert(false);
                    }
                }
                self.live = Ghost(self.live@.insert(b));
                proof {
                    Self::lemma_wf_fallback_grant(*old(self), *self, b);
                }
                Some(addr)
            },
            None => {
                proof {
                    Self::lemma_wf_frame(*old(self), *self);
                }
                None
            },
        }
    }

    /// The invariant survives popping a parked block of class `index` and
    /// recording it as granted to the caller.
    proof fn lemma_wf_class_pop(pre: Self, post: Self, index: int, b: (int, int))
        requires
            pre.wf(),
            0 <= index < BLOCK_COUNT,
            pre.lists()[index].len() > 0,
            b == (pre.lists()[index].last() as int, footprint_spec(index)),
            post.lists() == pre.lists().update(index, pre.lists()[index].drop_last()),
            post.fallback() == pre.fallback(),
            post.live() == pre.live().insert(b),
        ensures
            post.wf(),
    {
        let last = pre.lists()[index].len() - 1;
        assert forall|i: int, j: int|
            0 <= i < BLOCK_COUNT && 0 <= j < post.lists()[i].len() implies {
            &&& (#[trigger] post.lists()[i][j]) as int % block_size_spec(i) == 0
            &&& post.fallback().live().contains((post.lists()[i][j] as int, footprint_spec(i)))
            &&& !post.live().contains((post.lists()[i][j] as int, footprint_spec(i)))
        } by {
            assert(post.lists()[i][j] == pre.lists()[i][j]);
            let e = (pre.lists()[i][j] as int, footprint_spec(i));
            assert(pre.fallback().live().contains(e));
            // the popped entry sat at a different position, so it is a
            // different range
            assert(i != index || j != last);
            assert(!(pre.lists()[i][j] as int == pre.lists()[index][last] as int
                && footprint_spec(i) == footprint_spec(index)));
            assert(e != b);
        }
        assert forall|i1: int, j1: int, i2: int, j2: int|
            0 <= i1 < BLOCK_COUNT && 0 <= j1 < post.lists()[i1].len() && 0 <= i2 < BLOCK_COUNT && 0
                <= j2 < post.lists()[i2].len() && (i1 != i2 || j1 != j2) implies !((
        #[trigger] post.lists()[i1][j1]) as int == (#[trigger] post.lists()[i2][j2]) as int
            && footprint_spec(i1) == footprint_spec(i2)) by {
            assert(post.lists()[i1][j1] == pre.lists()[i1][j1]);
            assert(post.lists()[i2][j2] == pre.lists()[i2][j2]);
        }
        assert forall|r: (int, int)| #[trigger]
            post.live().contains(r) implies post.fallback().live().contains(r) by {
            if r == b {
                assert(pre.fallback().live().contains(
                    (pre.lists()[index][last] as int, footprint_spec(index)),
                ));
            } else {
                assert(pre.live().contains(r));
            }
        }
    }

    /// Serves one allocation request, or reports exhaustion.  A request a
    /// class covers pops that class's list head, or — when the list is
    /// empty — fetches one fresh block of the class size (equal size and
    /// alignment) from the fallback allocator; a request no class covers
    /// goes to the fallback allocator with the original, unmodified layout.
    /// The granted address carries the requested alignment.
    pub fn allocate(&mut self, layout: Layout) -> (r: Option<usize>)
        requires
            old(self).wf(),
            is_pow2(layout.spec_align()),
        ensures
            final(self).wf(),
            final(self).spec_heap_start() == old(self).spec_heap_start(),
            final(self).spec_heap_end() == old(self).spec_heap_end(),
            r is Some <==> Self::can_alloc(*old(self), layout),
            match r {
                Some(addr) => {
                    &&& addr as int % layout.spec_align() == 0
                    &&& (route_spec(layout) matches Some(i) ==> addr as int % block_size_spec(i)
                        == 0)
                    &&& !old(self).live().contains((addr as int, footprint_of_spec(layout)))
                    &&& final(self).live() == old(self).live().insert(
                        (addr as int, footprint_of_spec(layout)),
                    )
                    &&& match route_spec(layout) {
                        Some(i) => if old(self).lists()[i].len() > 0 {
                            &&& addr == old(self).lists()[i].last()
                            &&& final(self).lists() == old(self).lists().update(
                                i,
                                old(self).lists()[i].drop_last(),
                            )
                            &&& final(self).fallback() == old(self).fallback()
                        } else {
                            &&& final(self).lists() == old(self).lists()
                            &&& final(self).fallback().live() == old(
                                self,
                            ).fallback().live().insert((addr as int, footprint_spec(i)))
                        },
                        None => {
                            &&& final(self).lists() == old(self).lists()
                            &&& final(self).fallback().live() == old(
                                self,
                            ).fallback().live().insert((addr as int, norm_size_spec(layout)))
                        },
                    }
                },
                None => {
                    &&& final(self).lists() == old(self).lists()
                    &&& final(self).live() == old(self).live()
                    &&& final(self).fallback().free() == old(self).fallback().free()
                    &&& final(self).fallback().live() == old(self).fallback().live()
                },
            },
    {
        let idx_opt = list_index(&layout);
        match idx_opt {
            Some(index) => {
                proof {
                    lemma_class_of(required_spec(layout));
                    lemma_block_size_pow2(index as int);
                    layout.lemma_bounds();
                    lemma_pow2_divides(layout.spec_align(), block_size_spec(index as int));
                }
                if self.list_heads[index].len() > 0 {
                    let popped = self.list_heads[index].pop();
                    match popped {
                        Some(addr) => {
                            let ghost b = (addr as int, footprint_spec(index as int));
                            proof {
                                assert(old(self).lists()[index as int].last() == addr);
                                assert(addr as int % block_size_spec(index as int) == 0);
                                lemma_divides_transitive(
                                    addr as int,
                                    block_size_spec(index as int),
                                    layout.spec_align(),
                                );
                                assert(self.lists() =~= old(self).lists().update(
                                    index as int,
                                    old(self).lists()[index as int].drop_last(),
                                ));
                            }
                            self.live = Ghost(self.live@.insert(b));
                            proof {
                                Self::lemma_wf_class_pop(*old(self), *self, index as int, b);
                            }
                            Some(addr)
                        },
                        None => {
                            proof {
                                assert(false);
                            }
                            None
                        },
                    }
                } else {
                    let bs = block_size(index);
                    let block_layout_opt = Layout::from_size_align(bs, bs);
                    match block_layout_opt {
                        Some(block_layout) => {
                            proof {
                                lemma_block_layout_norm(block_layout, index as int);
                            }
                            let r = self.fallback_alloc(block_layout);
                            proof {
                                if r is Some {
                                    let addr = r->Some_0;
                                    lemma_divides_transitive(
                                        addr as int,
                                        block_size_spec(index as int),
                                        layout.spec_align(),
                                    );
                                }
                            }
                            r
                        },
                        None => {
                            proof {
                                lemma_self_mod_zero(block_size_spec(index as int));
                                assert(false);
                            }
                            None
                        },
                    }
                }
            },
            None => self.fallback_alloc(layout),
        }
    }

    /// The invariant survives parking a returned block on its class list.
    proof fn lemma_wf_class_push(pre: Self, post: Self, index: int, b: (int, int))
        requires
            pre.wf(),
            0 <= index < BLOCK_COUNT,
            pre.live().contains(b),
            b.0 % block_size_spec(index) == 0,
            b.1 == footprint_spec(index),
            post.lists() == pre.lists().update(index, pre.lists()[index].push(b.0 as usize)),
            b.0 == b.0 as usize as int,
            post.fallback() == pre.fallback(),
            post.live() == pre.live().remove(b),
        ensures
            post.wf(),
    {
        let newpos = pre.lists()[index].len();
        assert forall|i: int, j: int|
            0 <= i < BLOCK_COUNT && 0 <= j < post.lists()[i].len() implies {
            &&& (#[trigger] post.lists()[i][j]) as int % block_size_spec(i) == 0
            &&& post.fallback().live().contains((post.lists()[i][j] as int, footprint_spec(i)))
            &&& !post.live().contains((post.lists()[i][j] as int, footprint_spec(i)))
        } by {
            if i == index && j == newpos {
                assert(post.lists()[i][j] as int == b.0);
                assert(pre.fallback().live().contains(b));
            } else {
                assert(post.lists()[i][j] == pre.lists()[i][j]);
                let e = (pre.lists()[i][j] as int, footprint_spec(i));
                assert(pre.fallback().live().contains(e));
                assert(!pre.live().contains(e));
                assert(e != b);
            }
        }
        assert forall|i1: int, j1: int, i2: int, j2: int|
            0 <= i1 < BLOCK_COUNT && 0 <= j1 < post.lists()[i1].len() && 0 <= i2 < BLOCK_COUNT && 0
                <= j2 < post.lists()[i2].len() && (i1 != i2 || j1 != j2) implies !((
        #[trigger] post.lists()[i1][j1]) as int == (#[trigger] post.lists()[i2][j2]) as int
            && footprint_spec(i1) == footprint_spec(i2)) by {
            // a parked entry equal to the returned block would have been a
            // parked entry of a live range
            if i1 == index && j1 == newpos {
                assert(post.lists()[i2][j2] == pre.lists()[i2][j2]);
                let e = (pre.lists()[i2][j2] as int, footprint_spec(i2));
                assert(!pre.live().contains(e));
            } else if i2 == index && j2 == newpos {
                assert(post.lists()[i1][j1] == pre.lists()[i1][j1]);
                let e = (pre.lists()[i1][j1] as int, footprint_spec(i1));
                assert(!pre.live().contains(e));
            } else {
                assert(post.lists()[i1][j1] == pre.lists()[i1][j1]);
                assert(post.lists()[i2][j2] == pre.lists()[i2][j2]);
            }
        }
        assert forall|r: (int, int)| #[trigger]
            post.live().contains(r) implies post.fallback().live().contains(r) by {
            assert(pre.live().contains(r));
        }
    }

    /// Returns the block granted at `addr` for `layout`.  The class is
    /// recomputed from the layout exactly as at allocation time: a request
    /// a class covers parks the block on that class's list for O(1) reuse
    /// (class lists are never drained back to the fallback allocator); any
    /// other request is returned to the fallback allocator.
    pub fn dealloc(&mut self, addr: usize, layout: Layout)
        requires
            old(self).wf(),
            is_pow2(layout.spec_align()),
            norm_size_spec(layout) <= usize::MAX,
            old(self).live().contains((addr as int, footprint_of_spec(layout))),
            route_spec(layout) matches Some(i) ==> addr as int % block_size_spec(i) == 0,
        ensures
            final(self).wf(),
            final(self).spec_heap_start() == old(self).spec_heap_start(),
            final(self).spec_heap_end() == old(self).spec_heap_end(),
            final(self).live() == old(self).live().remove(
                (addr as int, footprint_of_spec(layout)),
            ),
            match route_spec(layout) {
                Some(i) => {
                    &&& final(self).lists() == old(self).lists().update(
                        i,
                        old(self).lists()[i].push(addr),
                    )
                    &&& final(self).fallback() == old(self).fallback()
                },
                None => {
                    &&& final(self).lists() == old(self).lists()
                    &&& final(self).fallback().free() == old(self).fallback().free().push(
                        ListNode { addr, size: norm_size_spec(layout) as usize },
                    )
                    &&& final(self).fallback().live() == old(self).fallback().live().remove(
                        (addr as int, norm_size_spec(layout)),
                    )
                },
            },
    {
        let idx_opt = list_index(&layout);
        match idx_opt {
            Some(index) => {
                let ghost b = (addr as int, footprint_spec(index as int));
                proof {
                    // the class table can host its intrusive link in every
                    // block: a build-time fact, not a runtime check
                    assert(block_size_spec(index as int) >= 8);
                }
                self.list_heads[index].push(addr);
                proof {
                    assert(self.lists() =~= old(self).lists().update(
                        index as int,
                        old(self).lists()[index as int].push(addr),
                    ));
                }
                self.live = Ghost(self.live@.remove(b));
                proof {
                    Self::lemma_wf_class_push(*old(self), *self, index as int, b);
                }
            },
            None => {
                let ghost b = (addr as int, norm_size_spec(layout));
                self.fallback_allocator.dealloc(addr, layout);
                self.live = Ghost(self.live@.remove(b));
                proof {
                    assert forall|i: int, j: int|
                        0 <= i < BLOCK_COUNT && 0 <= j < self.lists()[i].len() implies {
                        &&& (#[trigger] self.lists()[i][j]) as int % block_size_spec(i) == 0
                        &&& self.fallback().live().contains(
                            (self.lists()[i][j] as int, footprint_spec(i)),
                        )
                        &&& !self.live().contains((self.lists()[i][j] as int, footprint_spec(i)))
                    } by {
                        assert(self.lists()[i][j] == old(self).lists()[i][j]);
                        let e = (old(self).lists()[i][j] as int, footprint_spec(i));
                        assert(old(self).fallback().live().contains(e));
                        assert(!old(self).live().contains(e));
                        assert(e != b);
                    }
                    assert forall|i1: int, j1: int, i2: int, j2: int|
                        0 <= i1 < BLOCK_COUNT && 0 <= j1 < self.lists()[i1].len() && 0 <= i2
                            < BLOCK_COUNT && 0 <= j2 < self.lists()[i2].len() && (i1 != i2 || j1
                            != j2) implies !((#[trigger] self.lists()[i1][j1]) as int == (
                    #[trigger] self.lists()[i2][j2]) as int && footprint_spec(i1)
                        == footprint_spec(i2)) by {
                        assert(self.lists()[i1][j1] == old(self).lists()[i1][j1]);
                        assert(self.lists()[i2][j2] == old(self).lists()[i2][j2]);
                    }
                    assert forall|r: (int, int)| #[trigger]
                        self.live().contains(r) implies self.fallback().live().contains(r) by {
                        assert(old(self).live().contains(r));
                        assert(r != b);
                    }
                }
            },
        }
    }
}

/// One block of class `i`, requested from the fallback allocator with the
/// class size as both size and alignment, is normalized to exactly the
/// class footprint at the class alignment.
proof fn lemma_block_layout_norm(l: Layout, i: int)
    requires
        0 <= i < BLOCK_COUNT,
        l.spec_size() == block_size_spec(i),
        l.spec_align() == block_size_spec(i),
    ensures
        norm_align_spec(l) == block_size_spec(i),
        norm_size_spec(l) == footprint_spec(i),
{
    lemma_block_size_pow2(i);
    lemma_self_mod_zero(block_size_spec(i));
}

/// A positive number divides itself.
proof fn lemma_self_mod_zero(n: int)
    requires
        n >= 1,
    ensures
        n % n == 0,
{
    vstd::arithmetic::div_mod::lemma_mod_self_0(n);
}

/// No-overlap: any two distinct currently granted blocks are disjoint.
/// The invariant is established by `new` and `init` and preserved by
/// `allocate` and `dealloc`, so this holds at every point in time.
pub proof fn lemma_fsb_live_ranges_disjoint(
    a: FixedSizeBlockAllocator,
    r1: (int, int),
    r2: (int, int),
)
    requires
        a.wf(),
        a.live().contains(r1),
        a.live().contains(r2),
        r1 != r2,
    ensures
        disjoint(r1.0, r1.1, r2.0, r2.1),
{
    crate::linked_list::lemma_live_ranges_disjoint(a.fallback(), r1, r2);
}

/// Class routing: a request of 10 bytes (at word alignment or below) always
/// goes to the 16-byte class, and a request of 4096 bytes always to the
/// fallback path — on allocation and on a matching deallocation alike,
/// since both recompute the route from the layout alone.
pub proof fn lemma_class_routing(layout: Layout)
    ensures
        layout.spec_size() == 10 && layout.spec_align() <= 8 ==> route_spec(layout) == Some(1int)
            && block_size_spec(1) == 16,
        layout.spec_size() == 4096 ==> route_spec(layout) is None,
{
}

} // verus!
