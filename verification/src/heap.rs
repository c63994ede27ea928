//! Heap allocator.
//!
//! Serves arbitrary-size, arbitrary-alignment allocation and deallocation
//! requests out of one fixed virtual address range. Free space is tracked
//! as a list of disjoint free blocks; allocation scans it first-fit,
//! rounds the block start up to the requested alignment, and splits off
//! the tail when the remainder is large enough to stand on its own —
//! a remainder below the minimum block size is consumed as padding rather
//! than stranded. Deallocation pushes the freed block back at the list
//! head. The free list is held here as explicit block records; a
//! bare-metal embedding stores each record in the block's own first bytes.

use crate::frames::{frame_seq, usable_regions_disjoint, BootInfoFrameAllocator};
use crate::paging::{given_frames, page_wf, MapError, Mapper, PageFlags, VirtualPage};
use vstd::arithmetic::div_mod::{
    lemma_fundamental_div_mod, lemma_fundamental_div_mod_converse, lemma_mod_multiples_basic,
};
use vstd::prelude::*;

verus! {

/// Smallest block the free list will carry: one bookkeeping header
/// (size field plus next reference) must fit in the block's own bytes.
pub const MIN_BLOCK_SIZE: u64 = 16;

/// Default first address of the heap region.
pub const HEAP_START: u64 = 0x4444_4444_0000;

/// Default length of the heap region in bytes.
pub const HEAP_SIZE: u64 = 100 * 1024;

/// A run of contiguous heap bytes `[addr, addr + size)`.
#[derive(Clone, Copy, Debug, PartialEq, Eq, Structural)]
pub struct Block {
    pub addr: u64,
    pub size: u64,
}

/// Failure of an allocation request: no free block can serve it.
#[derive(Clone, Copy, Debug, PartialEq, Eq, Structural)]
pub enum AllocError {
    HeapExhausted,
}

/// The size a request actually occupies: at least one header's worth, so
/// the range can rejoin the free list when it is deallocated.
pub open spec fn eff_size(size: u64) -> u64 {
    if size >= MIN_BLOCK_SIZE {
        size
    } else {
        MIN_BLOCK_SIZE
    }
}

/// `a` rounded up to the next multiple of `align`.
pub open spec fn align_up_to(a: int, align: int) -> int {
    if a % align == 0 {
        a
    } else {
        a + align - a % align
    }
}

pub open spec fn is_power_of_two(a: int) -> bool
    decreases a,
{
    if a <= 0 {
        false
    } else if a == 1 {
        true
    } else {
        a % 2 == 0 && is_power_of_two(a / 2)
    }
}

/// Two byte ranges that share no address.
pub open spec fn blocks_disjoint(a: Block, b: Block) -> bool {
    a.addr + a.size <= b.addr || b.addr + b.size <= a.addr
}

/// Whether one free block can serve a request: after rounding its start
/// up to the alignment, the effective size still fits before its end.
pub open spec fn fits(b: Block, size: u64, align: u64) -> bool {
    align_up_to(b.addr as int, align as int) + eff_size(size) <= b.addr + b.size
}

/// First-fit: the index of the first free block that can serve the
/// request, scanning from the list head.
pub open spec fn find_fit(free: Seq<Block>, size: u64, align: u64) -> Option<int>
    decreases free.len(),
{
    if free.len() == 0 {
        None
    } else if fits(free[0], size, align) {
        Some(0)
    } else {
        match find_fit(free.skip(1), size, align) {
            Some(i) => Some(i + 1),
            None => None,
        }
    }
}

/// Rounding up to an alignment lands on a multiple, moves forward, and
/// moves by less than one alignment step.
proof fn lemma_align_up_to(a: int, align: int)
    requires
        0 <= a,
        1 <= align,
    ensures
        a <= align_up_to(a, align) < a + align,
        align_up_to(a, align) % align == 0,
{
    lemma_fundamental_div_mod(a, align);
    if a % align != 0 {
        let q = a / align;
        let r = a % align;
        assert(a == align * q + r);
        assert(align_up_to(a, align) == align * q + align);
        assert((q + 1) * align == align * q + align) by (nonlinear_arith);
        lemma_mod_multiples_basic(q + 1, align);
        assert(align_up_to(a, align) % align == 0);
    }
}

/// A power of two divides every larger power of two.
proof fn lemma_pow2_divides(a: int, b: int)
    requires
        is_power_of_two(a),
        is_power_of_two(b),
        a <= b,
    ensures
        b % a == 0,
    decreases a,
{
    if a == 1 {
        lemma_fundamental_div_mod(b, 1);
    } else {
        lemma_pow2_divides(a / 2, b / 2);
        let q = (b / 2) / (a / 2);
        lemma_fundamental_div_mod(b / 2, a / 2);
        lemma_fundamental_div_mod(b, 2);
        lemma_fundamental_div_mod(a, 2);
        assert(b == a * q) by (nonlinear_arith)
            requires
                b == 2 * (b / 2),
                a == 2 * (a / 2),
                b / 2 == (a / 2) * q,
        ;
        lemma_mod_multiples_basic(q, a);
    }
}

/// Divisibility carries through: if `align` divides the page size and the
/// address is page-aligned, the address is `align`-aligned.
proof fn lemma_aligned_through_page(addr: int, align: int)
    requires
        1 <= align,
        addr % 4096 == 0,
        4096int % align == 0,
        0 <= addr,
    ensures
        addr % align == 0,
{
    lemma_fundamental_div_mod(addr, 4096);
    lemma_fundamental_div_mod(4096int, align);
    let m = addr / 4096;
    let n = 4096int / align;
    assert(addr == (m * n) * align) by (nonlinear_arith)
        requires
            addr == 4096 * m,
            4096int == align * n,
    ;
    lemma_mod_multiples_basic(m * n, align);
}

/// Skipping a prefix of blocks that do not fit shifts the first-fit index
/// by exactly that prefix length.
proof fn lemma_find_fit_skip(s: Seq<Block>, size: u64, align: u64, i: int)
    requires
        0 <= i <= s.len(),
        forall|j: int| 0 <= j < i ==> !fits(s[j], size, align),
    ensures
        find_fit(s, size, align) == match find_fit(s.skip(i), size, align) {
            Some(k) => Some(k + i),
            None => None::<int>,
        },
    decreases i,
{
    if i == 0 {
        assert(s.skip(0) =~= s);
    } else {
        assert(s.len() > 0);
        assert(!fits(s[0], size, align));
        assert(forall|j: int| 0 <= j < i - 1 ==> !fits(s.skip(1)[j], size, align));
        lemma_find_fit_skip(s.skip(1), size, align, i - 1);
        assert(s.skip(1).skip(i - 1) =~= s.skip(i));
    }
}

/// The heap: one fixed virtual range, its current free blocks, and — as a
/// ghost record — the allocations currently live.
pub struct Heap {
    free: Vec<Block>,
    heap_start: u64,
    heap_size: u64,
    live: Ghost<Set<Block>>,
}

impl Heap {
    /// First address of the heap region.
    pub closed spec fn start(self) -> u64 {
        self.heap_start
    }

    /// Length of the heap region in bytes.
    pub closed spec fn size(self) -> u64 {
        self.heap_size
    }

    /// The free blocks, head first, in scan order.
    pub closed spec fn free_list(self) -> Seq<Block> {
        self.free@
    }

    /// The allocations currently live: each the exact range an `allocate`
    /// call handed out and no `deallocate` call has returned yet.
    pub closed spec fn live(self) -> Set<Block> {
        self.live@
    }

    /// One block lies entirely inside the heap region.
    pub open spec fn block_in_heap(self, b: Block) -> bool {
        self.start() <= b.addr && b.addr + b.size <= self.start() + self.size()
    }

    /// Well-formedness: free blocks and live allocations all lie inside
    /// the region, carry at least the minimum size, and are pairwise
    /// disjoint — no free block overlaps another, no live allocation
    /// overlaps another, and no free block overlaps a live allocation.
    pub closed spec fn wf(self) -> bool {
        &&& self.heap_start % 4096 == 0
        &&& self.heap_size > 0
        &&& self.heap_start + self.heap_size <= 0x1_0000_0000_0000
        &&& forall|i: int|
            0 <= i < self.free@.len() ==> self.block_in_heap(#[trigger] self.free@[i])
                && self.free@[i].size >= MIN_BLOCK_SIZE
        &&& forall|i: int, j: int|
            0 <= i < j < self.free@.len() ==> blocks_disjoint(
                #[trigger] self.free@[i],
                #[trigger] self.free@[j],
            )
        &&& forall|b: Block|
            self.live@.contains(b) ==> self.block_in_heap(b) && b.size >= MIN_BLOCK_SIZE
        &&& forall|a: Block, b: Block|
            self.live@.contains(a) && self.live@.contains(b) && a != b ==> blocks_disjoint(a, b)
        &&& forall|i: int, b: Block|
            #![trigger self.free@[i], self.live@.contains(b)]
            0 <= i < self.free@.len() && self.live@.contains(b) ==> blocks_disjoint(
                self.free@[i],
                b,
            )
    }

    /// A fresh heap over `[heap_start, heap_start + heap_size)`: one free
    /// block spanning the whole region, nothing live.
    pub fn new(heap_start: u64, heap_size: u64) -> (r: Self)
        requires
            heap_start % 4096 == 0,
            heap_size % 4096 == 0,
            heap_size > 0,
            heap_start + heap_size <= 0x1_0000_0000_0000,
        ensures
            r.wf(),
            r.start() == heap_start,
            r.size() == heap_size,
            r.free_list() == seq![Block { addr: heap_start, size: heap_size }],
            r.live() == Set::<Block>::empty(),
    {
        proof {
            lemma_fundamental_div_mod(heap_size as int, 4096);
        }
        let free = vec![Block { addr: heap_start, size: heap_size }];
        let r = Heap { free, heap_start, heap_size, live: Ghost(Set::empty()) };
        proof {
            assert(r.free@ =~= seq![Block { addr: heap_start, size: heap_size }]);
        }
        r
    }

    /// Serves one allocation request, first-fit.
    ///
    /// A zero-size request always succeeds and allocates nothing. Otherwise
    /// the first free block that fits is split: the request takes its
    /// aligned front, an excess of at least the minimum block size stays
    /// free, a smaller excess is consumed as padding. The request fails —
    /// the heap is exhausted — exactly when no free block fits.
    pub fn allocate(&mut self, size: u64, align: u64) -> (r: Result<u64, AllocError>)
        requires
            old(self).wf(),
            is_power_of_two(align as int),
            align <= 4096,
        ensures
            final(self).wf(),
            final(self).start() == old(self).start(),
            final(self).size() == old(self).size(),
            r matches Ok(p) ==> p as int % align as int == 0 && old(self).start() <= p,
            size == 0 ==> r == Ok::<u64, AllocError>(old(self).start()) && final(self).free_list()
                == old(self).free_list() && final(self).live() == old(self).live(),
            size > 0 ==> match find_fit(old(self).free_list(), size, align) {
                Some(i) => {
                    let b = old(self).free_list()[i];
                    let p = align_up_to(b.addr as int, align as int);
                    let blk = (Block { addr: p as u64, size: eff_size(size) });
                    &&& r == Ok::<u64, AllocError>(p as u64)
                    &&& p + eff_size(size) <= old(self).start() + old(self).size()
                    &&& !old(self).live().contains(blk)
                    &&& final(self).live() == old(self).live().insert(blk)
                    &&& final(self).free_list() == (if b.addr + b.size - (p + eff_size(size))
                        >= MIN_BLOCK_SIZE {
                        old(self).free_list().update(
                            i,
                            (Block {
                                addr: (p + eff_size(size)) as u64,
                                size: (b.addr + b.size - p - eff_size(size)) as u64,
                            }),
                        )
                    } else {
                        old(self).free_list().remove(i)
                    })
                },
                None => {
                    &&& r == Err::<u64, AllocError>(AllocError::HeapExhausted)
                    &&& final(self).free_list() == old(self).free_list()
                    &&& final(self).live() == old(self).live()
                },
            },
    {
        if size == 0 {
            proof {
                assert(is_power_of_two(4096int)) by {
                    reveal_with_fuel(is_power_of_two, 14);
                }
                lemma_pow2_divides(align as int, 4096);
                lemma_aligned_through_page(self.heap_start as int, align as int);
            }
            return Ok(self.heap_start);
        }
        let eff = if size < MIN_BLOCK_SIZE {
            MIN_BLOCK_SIZE
        } else {
            size
        };
        let mut i: usize = 0;
        loop
            invariant
                self == old(self),
                self.wf(),
                size > 0,
                1 <= align <= 4096,
                eff == eff_size(size),
                0 <= i <= self.free.len(),
                forall|j: int| 0 <= j < i ==> !fits(self.free@[j], size, align),
            decreases self.free@.len() - i,
        {
            let ghost free0 = self.free@;
            if i >= self.free.len() {
                proof {
                    lemma_find_fit_skip(free0, size, align, free0.len() as int);
                    assert(free0.skip(free0.len() as int) =~= Seq::<Block>::empty());
                }
                return Err(AllocError::HeapExhausted);
            }
            let b = self.free[i];
            let rem = b.addr % align;
            let p = if rem == 0 {
                b.addr
            } else {
                b.addr + (align - rem)
            };
            proof {
                lemma_align_up_to(b.addr as int, align as int);
                assert(p == align_up_to(b.addr as int, align as int));
            }
            let bend = b.addr + b.size;
            if p <= bend && bend - p >= eff {
                proof {
                    lemma_find_fit_skip(free0, size, align, i as int);
                    assert(free0.skip(i as int)[0] == free0[i as int]);
                    assert(find_fit(free0, size, align) == Some(i as int));
                }
                let alloc_end = p + eff;
                let excess = bend - alloc_end;
                let ghost blk = Block { addr: p, size: eff };
                proof {
                    // the handed-out range sits inside free block `i`,
                    // which `wf` keeps disjoint from everything else
                    assert(!self.live@.contains(blk)) by {
                        if self.live@.contains(blk) {
                            assert(blocks_disjoint(free0[i as int], blk));
                        }
                    }
                }
                if excess >= MIN_BLOCK_SIZE {
                    self.free.set(i, Block { addr: alloc_end, size: excess });
                } else {
                    self.free.remove(i);
                }
                proof {
                    self.live@ = self.live@.insert(blk);
                }
                proof {
                    assert forall|x: int|
                        0 <= x < self.free@.len() implies self.block_in_heap(
                        #[trigger] self.free@[x],
                    ) && self.free@[x].size >= MIN_BLOCK_SIZE by {
                        if excess >= MIN_BLOCK_SIZE {
                            assert(self.free@ == free0.update(
                                i as int,
                                Block { addr: alloc_end, size: excess },
                            ));
                        } else {
                            assert(self.free@[x] == if x < i as int {
                                free0[x]
                            } else {
                                free0[x + 1]
                            });
                        }
                    }
                    assert forall|bb: Block| self.live@.contains(bb) implies self.block_in_heap(bb)
                        && bb.size >= MIN_BLOCK_SIZE by {
                        if bb != blk {
                            assert(old(self).live@.contains(bb));
                            assert(old(self).block_in_heap(bb));
                        } else {
                            assert(old(self).block_in_heap(free0[i as int]));
                        }
                        assert(self.heap_start == old(self).heap_start);
                        assert(self.heap_size == old(self).heap_size);
                    }
                    assert forall|x: int, y: int|
                        0 <= x < y < self.free@.len() implies blocks_disjoint(
                        #[trigger] self.free@[x],
                        #[trigger] self.free@[y],
                    ) by {
                        if excess < MIN_BLOCK_SIZE {
                            assert(self.free@[x] == if x < i as int {
                                free0[x]
                            } else {
                                free0[x + 1]
                            });
                            assert(self.free@[y] == if y < i as int {
                                free0[y]
                            } else {
                                free0[y + 1]
                            });
                        }
                    }
                    assert forall|x: int, bb: Block|
                        #![trigger self.free@[x], self.live@.contains(bb)]
                        0 <= x < self.free@.len() && self.live@.contains(
                            bb,
                        ) implies blocks_disjoint(self.free@[x], bb) by {
                        if excess < MIN_BLOCK_SIZE {
                            assert(self.free@[x] == if x < i as int {
                                free0[x]
                            } else {
                                free0[x + 1]
                            });
                        }
                        if bb != blk {
                            assert(old(self).live@.contains(bb));
                        }
                    }
                    assert forall|a: Block, bb: Block|
                        self.live@.contains(a) && self.live@.contains(bb) && a
                            != bb implies blocks_disjoint(a, bb) by {
                        if a != blk && bb != blk {
                            assert(old(self).live@.contains(a) && old(self).live@.contains(bb));
                        } else if a == blk {
                            assert(old(self).live@.contains(bb));
                            assert(blocks_disjoint(free0[i as int], bb));
                        } else {
                            assert(old(self).live@.contains(a));
                            assert(blocks_disjoint(free0[i as int], a));
                        }
                    }
                }
                return Ok(p);
            }
            proof {
                assert(!fits(free0[i as int], size, align));
            }
            i = i + 1;
        }
    }

    /// Returns one allocation to the free pool: the freed range becomes the
    /// new head of the free list. Deallocating a zero-size allocation is a
    /// no-op. The caller hands back exactly what `allocate` returned:
    /// the same address, size and alignment.
    pub fn deallocate(&mut self, ptr: u64, size: u64, _align: u64)
        requires
            old(self).wf(),
            size > 0 ==> old(self).live().contains((Block { addr: ptr, size: eff_size(size) })),
        ensures
            final(self).wf(),
            final(self).start() == old(self).start(),
            final(self).size() == old(self).size(),
            size == 0 ==> final(self).free_list() == old(self).free_list() && final(self).live()
                == old(self).live(),
            size > 0 ==> final(self).free_list() == old(self).free_list().insert(
                0,
                (Block { addr: ptr, size: eff_size(size) }),
            ) && final(self).live() == old(self).live().remove(
                (Block { addr: ptr, size: eff_size(size) }),
            ),
    {
        if size == 0 {
            return ;
        }
        let eff = if size < MIN_BLOCK_SIZE {
            MIN_BLOCK_SIZE
        } else {
            size
        };
        let ghost blk = Block { addr: ptr, size: eff };
        let ghost free0 = self.free@;
        self.free.insert(0, Block { addr: ptr, size: eff });
        proof {
            self.live@ = self.live@.remove(blk);
        }
        proof {
            assert forall|bb: Block| self.live@.contains(bb) implies self.block_in_heap(bb)
                && bb.size >= MIN_BLOCK_SIZE by {
                assert(old(self).live@.contains(bb));
                assert(old(self).block_in_heap(bb));
            }
            assert forall|a: Block, bb: Block|
                self.live@.contains(a) && self.live@.contains(bb) && a != bb implies blocks_disjoint(
                a,
                bb,
            ) by {
                assert(old(self).live@.contains(a) && old(self).live@.contains(bb));
            }
            assert forall|x: int|
                0 <= x < self.free@.len() implies self.block_in_heap(#[trigger] self.free@[x])
                && self.free@[x].size >= MIN_BLOCK_SIZE by {
                assert(self.heap_start == old(self).heap_start);
                assert(self.heap_size == old(self).heap_size);
                if x > 0 {
                    assert(self.free@[x] == free0[x - 1]);
                    assert(old(self).block_in_heap(free0[x - 1]));
                } else {
                    assert(old(self).live@.contains(blk));
                    assert(old(self).block_in_heap(blk));
                }
            }
            assert forall|x: int, y: int|
                0 <= x < y < self.free@.len() implies blocks_disjoint(
                #[trigger] self.free@[x],
                #[trigger] self.free@[y],
            ) by {
                if x > 0 {
                    assert(self.free@[x] == free0[x - 1] && self.free@[y] == free0[y - 1]);
                } else {
                    assert(self.free@[y] == free0[y - 1]);
                    assert(old(self).live@.contains(blk));
                }
            }
            assert forall|x: int, bb: Block|
                #![trigger self.free@[x], self.live@.contains(bb)]
                0 <= x < self.free@.len() && self.live@.contains(bb) implies blocks_disjoint(
                self.free@[x],
                bb,
            ) by {
                assert(old(self).live@.contains(bb) && bb != blk);
                if x > 0 {
                    assert(self.free@[x] == free0[x - 1]);
                }
            }
        }
    }
}

/// Allocator non-overlap (law): at every point in any sequence of
/// allocate/deallocate calls the heap is well-formed, and under
/// well-formedness no two live allocations' address ranges overlap.
pub proof fn lemma_live_allocations_disjoint(h: Heap, a: Block, b: Block)
    requires
        h.wf(),
        h.live().contains(a),
        h.live().contains(b),
        a != b,
    ensures
        blocks_disjoint(a, b),
{
}

/// Free-then-reuse (law): deallocating a block of size `s` at `ptr` puts
/// `(ptr, eff_size(s))` at the head of the free list, and a following
/// request of any size at most `s` whose alignment `ptr` already satisfies
/// fits that head block — first-fit finds it at once, so the allocation
/// succeeds, and no physical frame is requested (`allocate` never touches
/// the frame source at all).
pub proof fn lemma_free_then_reuse(free: Seq<Block>, ptr: u64, s: u64, size: u64, align: u64)
    requires
        1 <= align,
        ptr as int % align as int == 0,
        size <= s,
    ensures
        find_fit(free.insert(0, (Block { addr: ptr, size: eff_size(s) })), size, align) == Some(
            0int,
        ),
{
    let blk = Block { addr: ptr, size: eff_size(s) };
    let f2 = free.insert(0, blk);
    assert(f2[0] == blk);
    assert(fits(blk, size, align));
}


/// Maps every page of `[heap_start, heap_start + heap_size)` — one fresh
/// data frame each, writable — and hands back the heap with one free block
/// spanning the whole region. The first mapping failure is propagated;
/// pages already mapped by then stay mapped, as befits a fatal boot-time
/// condition. Success is certain when the whole range was unmapped and the
/// frame source holds at least four frames per page: one for the data and
/// up to three for intermediate tables.
pub fn init_heap(
    mapper: &mut Mapper,
    fs: &mut BootInfoFrameAllocator,
    heap_start: u64,
    heap_size: u64,
) -> (r: Result<Heap, MapError>)
    requires
        old(mapper).wf(),
        old(fs).wf(),
        usable_regions_disjoint(old(fs).regions()),
        old(mapper).tables_from(given_frames(*old(fs))),
        old(mapper).leaves_from(given_frames(*old(fs))),
        heap_start % 4096 == 0,
        heap_size % 4096 == 0,
        heap_size > 0,
        heap_start + heap_size <= 0x1_0000_0000_0000,
    ensures
        final(mapper).wf(),
        final(fs).wf(),
        final(fs).regions() == old(fs).regions(),
        final(mapper).tables_from(given_frames(*final(fs))),
        final(mapper).leaves_from(given_frames(*final(fs))),
        match r {
            Ok(h) => {
                &&& h.wf()
                &&& h.start() == heap_start
                &&& h.size() == heap_size
                &&& h.free_list() == seq![(Block { addr: heap_start, size: heap_size })]
                &&& h.live() == Set::<Block>::empty()
                &&& forall|q: VirtualPage|
                    page_wf(q) && heap_start <= q.addr < heap_start + heap_size
                        ==> final(mapper).translate(q) is Some
                        && (final(mapper).translate(q)->Some_0).1 == (PageFlags {
                        writable: true,
                        no_exec: false,
                    })
            },
            Err(MapError::FrameAllocationFailed) => final(fs).served() == frame_seq(
                old(fs).regions(),
            ).len(),
            Err(MapError::PageAlreadyMapped) => exists|q: VirtualPage|
                page_wf(q) && heap_start <= q.addr < heap_start + heap_size
                    && old(mapper).translate(q) is Some,
        },
        (forall|q: VirtualPage|
            page_wf(q) && heap_start <= q.addr < heap_start + heap_size
                ==> old(mapper).translate(q) is None) && old(fs).served() + 4 * (
        heap_size as int / 4096) <= frame_seq(old(fs).regions()).len() ==> r is Ok,
{
    let pages = heap_size / 4096;
    proof {
        lemma_fundamental_div_mod(heap_size as int, 4096);
    }
    let mut i: u64 = 0;
    while i < pages
        invariant
            mapper.wf(),
            fs.wf(),
            usable_regions_disjoint(fs.regions()),
            mapper.tables_from(given_frames(*fs)),
            mapper.leaves_from(given_frames(*fs)),
            fs.regions() == old(fs).regions(),
            0 <= i <= pages,
            pages == heap_size as int / 4096,
            heap_size == 4096 * pages,
            heap_start % 4096 == 0,
            heap_start + heap_size <= 0x1_0000_0000_0000,
            old(fs).served() <= fs.served() <= old(fs).served() + 4 * i,
            forall|q: VirtualPage|
                page_wf(q) && !(heap_start <= q.addr < heap_start + 4096 * i)
                    ==> mapper.translate(q) == old(mapper).translate(q),
            forall|q: VirtualPage|
                page_wf(q) && heap_start <= q.addr < heap_start + 4096 * i ==> mapper.translate(
                    q,
                ) is Some && (mapper.translate(q)->Some_0).1 == (PageFlags {
                    writable: true,
                    no_exec: false,
                }),
        decreases pages - i,
    {
        let ghost owed = (forall|q: VirtualPage|
            page_wf(q) && heap_start <= q.addr < heap_start + heap_size ==> old(mapper).translate(
                q,
            ) is None) && old(fs).served() + 4 * (heap_size as int / 4096) <= frame_seq(
            old(fs).regions(),
        ).len();
        proof {
            assert(4096 * (i + 1) <= 4096 * pages) by (nonlinear_arith)
                requires
                    i + 1 <= pages,
            ;
            assert(0 <= 4096 * i) by (nonlinear_arith)
                requires
                    0 <= i,
            ;
        }
        let va = heap_start + 4096 * i;
        let page = VirtualPage { addr: va };
        proof {
            lemma_fundamental_div_mod(heap_start as int, 4096);
            lemma_mod_multiples_basic(heap_start as int / 4096 + i as int, 4096);
            assert(va as int == (heap_start as int / 4096 + i as int) * 4096) by (nonlinear_arith)
                requires
                    heap_start as int == 4096 * (heap_start as int / 4096),
                    va as int == heap_start as int + 4096 * (i as int),
            ;
            assert(page_wf(page));
        }
        let ghost fs_before = *fs;
        let frame = match fs.next_frame() {
            Some(f) => f,
            None => {
                proof {
                    if owed {
                        assert(fs_before.served() < frame_seq(old(fs).regions()).len());
                        assert(false);
                    }
                }
                return Err(MapError::FrameAllocationFailed);
            },
        };
        proof {
            // the record of handed-out frames grew by the data frame;
            // every table and every backing frame still comes from it
            crate::frames::lemma_served_in_range(fs_before);
            assert(given_frames(*fs) =~= given_frames(fs_before).push(
                frame_seq(fs.regions())[fs_before.served()],
            ));
            crate::paging::lemma_tables_from_push(
                *mapper,
                given_frames(fs_before),
                frame_seq(fs.regions())[fs_before.served()],
            );
            assert forall|f: u64| mapper.frame_in_use(f) implies given_frames(*fs).contains(
                f,
            ) by {
                let k = choose|k: int|
                    0 <= k < given_frames(fs_before).len() && given_frames(fs_before)[k] == f;
                assert(given_frames(*fs)[k] == f);
            }
            // the frame just served cannot already be backing a page: every
            // backing frame is an earlier stream element, and the stream
            // never repeats an address
            crate::frames::lemma_frame_uniqueness(fs.regions());
            if mapper.frame_in_use(frame.start) {
                let k = choose|k: int|
                    0 <= k < given_frames(fs_before).len() && given_frames(fs_before)[k]
                        == frame.start;
                assert(frame_seq(fs.regions())[k] == frame_seq(fs.regions())[fs_before.served()]);
                assert(false);
            }
        }
        let ghost m_before = *mapper;
        let ghost fs_mid = *fs;
        match mapper.map_page(page, frame, PageFlags { writable: true, no_exec: false }, fs) {
            Ok(()) => {},
            Err(e) => {
                proof {
                    if owed {
                        assert(m_before.translate(page) == old(mapper).translate(page));
                        assert(fs_mid.served() + 3 <= frame_seq(old(fs).regions()).len());
                        assert(false);
                    }
                    if e == MapError::PageAlreadyMapped {
                        assert(m_before.translate(page) is Some);
                        assert(old(mapper).translate(page) is Some);
                    }
                }
                return Err(e);
            },
        }
        proof {
            crate::frames::lemma_served_in_range(*fs);
            assert forall|f: u64| mapper.frame_in_use(f) implies given_frames(*fs).contains(
                f,
            ) by {
                if f == frame.start {
                    assert(given_frames(*fs)[fs_before.served()] == f);
                } else {
                    assert(fs_mid.served() == fs_before.served() + 1);
                    let k = choose|k: int|
                        0 <= k < given_frames(fs_mid).len() && given_frames(fs_mid)[k] == f;
                    assert(given_frames(*fs)[k] == f);
                }
            }
            assert forall|q: VirtualPage|
                page_wf(q) && heap_start <= q.addr < heap_start + 4096 * (i + 1)
                    implies mapper.translate(q) is Some && (mapper.translate(q)->Some_0).1
                == (PageFlags { writable: true, no_exec: false }) by {
                if q.addr < heap_start + 4096 * (i as int) {
                    assert(q != page);
                } else {
                    assert(q.addr == va) by {
                        assert(q.addr % 4096 == 0 && heap_start as int + 4096 * (i as int)
                            <= q.addr < heap_start as int + 4096 * (i as int) + 4096);
                        lemma_fundamental_div_mod(q.addr as int, 4096);
                        lemma_fundamental_div_mod(va as int, 4096);
                        lemma_fundamental_div_mod_converse(
                            q.addr as int,
                            4096,
                            va as int / 4096,
                            q.addr as int - va as int,
                        );
                    }
                    assert(q == page);
                }
            }
            assert forall|q: VirtualPage|
                page_wf(q) && !(heap_start <= q.addr < heap_start + 4096 * (i + 1))
                    implies mapper.translate(q) == old(mapper).translate(q) by {
                assert(q != page);
            }
        }
        i = i + 1;
    }
    proof {
        assert(4096 * pages == heap_size);
    }
    Ok(Heap::new(heap_start, heap_size))
}


} // verus!
