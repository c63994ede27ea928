//! Physical frame allocator.
//!
//! Consumes the boot-supplied memory-region list and yields, one call at a
//! time, page-aligned physical frames that lie entirely inside usable
//! regions. Regions are walked in the order given; within a usable region
//! the frames start at the first page boundary at or after the region start
//! and stop before the region end. The allocator keeps only a cursor and
//! never revisits a frame: physical memory is a strictly depleting resource
//! in this design.

use vstd::arithmetic::div_mod::{lemma_fundamental_div_mod, lemma_mod_multiples_basic};
use vstd::prelude::*;

verus! {

/// Size in bytes of one physical frame and of one virtual page.
pub const PAGE_SIZE: u64 = 4096;

/// A contiguous physical address range `[start, end)` as reported by the
/// boot environment, tagged usable or reserved.
#[derive(Clone, Copy, PartialEq, Eq, Structural)]
pub struct MemoryRegion {
    pub start: u64,
    pub end: u64,
    pub usable: bool,
}

/// One page-aligned, page-sized unit of physical memory.
#[derive(Clone, Copy, PartialEq, Eq, Structural)]
pub struct Frame {
    pub start: u64,
}

/// `a` rounded up to the next multiple of the page size.
pub open spec fn align_up_page(a: int) -> int {
    ((a + 4095) / 4096) * 4096
}

/// How many whole frames a region contributes: none unless it is usable
/// and holds at least one full page past its first page boundary.
pub open spec fn region_frame_count(r: MemoryRegion) -> int {
    if r.usable && align_up_page(r.start as int) + 4096 <= r.end as int {
        (r.end as int - align_up_page(r.start as int)) / 4096
    } else {
        0
    }
}

/// The frames one region contributes, in ascending address order.
pub open spec fn region_frames(r: MemoryRegion) -> Seq<u64> {
    Seq::new(
        region_frame_count(r) as nat,
        |i: int| (align_up_page(r.start as int) + 4096 * i) as u64,
    )
}

/// The full stream of frames the allocator will ever yield for a region
/// list: the regions' own frames, region after region, in order.
pub open spec fn frame_seq(rs: Seq<MemoryRegion>) -> Seq<u64>
    decreases rs.len(),
{
    if rs.len() == 0 {
        Seq::empty()
    } else {
        region_frames(rs[0]) + frame_seq(rs.skip(1))
    }
}

/// The boot environment hands out regions that do not overlap; the frame
/// stream is collision-free only under that assumption.
pub open spec fn usable_regions_disjoint(rs: Seq<MemoryRegion>) -> bool {
    forall|i: int, j: int|
        0 <= i < rs.len() && 0 <= j < rs.len() && i != j && rs[i].usable && rs[j].usable
            ==> rs[i].end <= rs[j].start || rs[j].end <= rs[i].start
}

/// Basic facts about rounding an address up to a page boundary.
proof fn lemma_align_up_page(a: int)
    requires
        0 <= a,
    ensures
        a <= align_up_page(a) < a + 4096,
        align_up_page(a) % 4096 == 0,
{
    lemma_fundamental_div_mod(a + 4095, 4096);
    lemma_mod_multiples_basic((a + 4095) / 4096, 4096);
}

/// `frame_seq` distributes over concatenation of region lists.
proof fn lemma_frame_seq_concat(a: Seq<MemoryRegion>, b: Seq<MemoryRegion>)
    ensures
        frame_seq(a + b) == frame_seq(a) + frame_seq(b),
    decreases a.len(),
{
    if a.len() == 0 {
        assert(a + b =~= b);
        assert(frame_seq(a) + frame_seq(b) =~= frame_seq(b));
    } else {
        assert((a + b).skip(1) =~= a.skip(1) + b);
        lemma_frame_seq_concat(a.skip(1), b);
        assert(frame_seq(a + b) =~= frame_seq(a) + frame_seq(b));
    }
}

/// Appending one region to a prefix appends exactly that region's frames.
proof fn lemma_frame_seq_take_succ(rs: Seq<MemoryRegion>, i: int)
    requires
        0 <= i < rs.len(),
    ensures
        frame_seq(rs.take(i + 1)) == frame_seq(rs.take(i)) + region_frames(rs[i]),
{
    let one = seq![rs[i]];
    assert(rs.take(i + 1) =~= rs.take(i) + one);
    lemma_frame_seq_concat(rs.take(i), one);
    assert(one.skip(1) =~= Seq::<MemoryRegion>::empty());
    assert(frame_seq(one) == region_frames(one[0]) + frame_seq(one.skip(1)));
    assert(region_frames(one[0]) + frame_seq(one.skip(1)) =~= region_frames(rs[i]));
}

/// The whole stream splits at any region boundary.
proof fn lemma_frame_seq_split(rs: Seq<MemoryRegion>, i: int)
    requires
        0 <= i <= rs.len(),
    ensures
        frame_seq(rs) == frame_seq(rs.take(i)) + frame_seq(rs.skip(i)),
{
    assert(rs =~= rs.take(i) + rs.skip(i));
    lemma_frame_seq_concat(rs.take(i), rs.skip(i));
}

/// Yields the frames of `frame_seq(regions)` one by one, keeping only a
/// cursor: the index of the region being drained and how many frames it
/// has given up so far.
pub struct BootInfoFrameAllocator {
    regions: Vec<MemoryRegion>,
    region_idx: usize,
    consumed: u64,
}

impl BootInfoFrameAllocator {
    /// The region list this allocator draws from, as given at boot.
    pub closed spec fn regions(self) -> Seq<MemoryRegion> {
        self.regions@
    }

    /// The index of the region the cursor stands in.
    pub closed spec fn cursor_region(self) -> int {
        self.region_idx as int
    }

    /// How many frames have been handed out so far.
    pub closed spec fn served(self) -> int {
        frame_seq(self.regions@.take(self.region_idx as int)).len() + self.consumed
    }

    /// Cursor well-formedness: the region index never runs past the list,
    /// and the per-region counter never runs past that region's frames.
    pub closed spec fn wf(self) -> bool {
        &&& self.region_idx <= self.regions@.len()
        &&& (self.region_idx < self.regions@.len() ==> self.consumed
            <= region_frame_count(self.regions@[self.region_idx as int]))
        &&& (self.region_idx == self.regions@.len() ==> self.consumed == 0)
    }

    /// Takes ownership of the boot-supplied region list; no frame has been
    /// handed out yet.
    pub fn init(regions: Vec<MemoryRegion>) -> (r: Self)
        ensures
            r.wf(),
            r.regions() == regions@,
            r.served() == 0,
    {
        let r = BootInfoFrameAllocator { regions, region_idx: 0, consumed: 0 };
        proof {
            assert(r.regions@.take(0) =~= Seq::<MemoryRegion>::empty());
            if r.regions@.len() > 0 {
                lemma_region_frame_count_nonneg(r.regions@[0]);
            }
        }
        r
    }

    /// The next unused frame: exactly element `served()` of the frame
    /// stream, or `None` once the stream is exhausted.
    pub fn next_frame(&mut self) -> (r: Option<Frame>)
        requires
            old(self).wf(),
        ensures
            final(self).wf(),
            final(self).regions() == old(self).regions(),
            match r {
                Some(f) => {
                    &&& 0 <= old(self).served() < frame_seq(old(self).regions()).len()
                    &&& f.start == frame_seq(old(self).regions())[old(self).served()]
                    &&& final(self).served() == old(self).served() + 1
                },
                None => {
                    &&& old(self).served() == frame_seq(old(self).regions()).len()
                    &&& final(self).served() == old(self).served()
                },
            },
    {
        loop
            invariant
                self.wf(),
                self.regions@ == old(self).regions@,
                self.served() == old(self).served(),
            decreases self.regions@.len() - self.region_idx,
        {
            let ghost rs = self.regions@;
            let ghost idx = self.region_idx as int;
            if self.region_idx >= self.regions.len() {
                proof {
                    assert(rs.take(rs.len() as int) =~= rs);
                }
                return None;
            }
            let reg = self.regions[self.region_idx];
            let ghost cnt = region_frame_count(reg);
            if reg.usable && reg.start <= u64::MAX - 4095 {
                proof {
                    lemma_align_up_page(reg.start as int);
                }
                let base = ((reg.start + 4095) / 4096) * 4096;
                proof {
                    if cnt > 0 {
                        lemma_fundamental_div_mod(reg.end - base, 4096);
                        assert(4096 * cnt <= reg.end - base);
                    }
                    lemma_region_frame_count_nonneg(reg);
                }
                let cand = base + PAGE_SIZE * self.consumed;
                if cand < reg.end && reg.end - cand >= PAGE_SIZE {
                    proof {
                        // the candidate is a real element of this region's frames
                        lemma_fundamental_div_mod(reg.end - base, 4096);
                        assert(self.consumed < cnt);
                        lemma_frame_seq_split(rs, idx);
                        assert(rs.skip(idx)[0] == rs[idx]);
                        assert(rs.skip(idx).skip(1) =~= rs.skip(idx + 1));
                        assert(frame_seq(rs)[old(self).served()]
                            == region_frames(reg)[self.consumed as int]);
                        lemma_frame_seq_take_succ(rs, idx);
                    }
                    let frame = Frame { start: cand };
                    self.consumed = self.consumed + 1;
                    return Some(frame);
                }
            }
            proof {
                // the current region is fully drained: advancing the cursor
                // keeps the served count
                lemma_region_frame_count_nonneg(reg);
                if reg.usable && reg.start <= u64::MAX - 4095 {
                    lemma_align_up_page(reg.start as int);
                    if cnt > 0 {
                        lemma_fundamental_div_mod(reg.end - base_spec(reg), 4096);
                    }
                } else if reg.usable {
                    lemma_align_up_page(reg.start as int);
                }
                assert(self.consumed == cnt);
                lemma_frame_seq_take_succ(rs, idx);
            }
            self.region_idx = self.region_idx + 1;
            self.consumed = 0;
        }
    }
}

/// The first page boundary at or after a region's start.
spec fn base_spec(r: MemoryRegion) -> int {
    align_up_page(r.start as int)
}

/// A region never contributes a negative number of frames.
proof fn lemma_region_frame_count_nonneg(r: MemoryRegion)
    ensures
        0 <= region_frame_count(r),
{
    if r.usable && align_up_page(r.start as int) + 4096 <= r.end as int {
        lemma_fundamental_div_mod(r.end as int - align_up_page(r.start as int), 4096);
    }
}

/// Every frame of one region is page-aligned and lies entirely inside it.
proof fn lemma_region_frame_contained(r: MemoryRegion, k: int)
    requires
        0 <= k < region_frames(r).len(),
    ensures
        region_frames(r)[k] as int % 4096 == 0,
        r.usable,
        r.start <= region_frames(r)[k],
        region_frames(r)[k] + 4096 <= r.end,
{
    let base = align_up_page(r.start as int);
    lemma_align_up_page(r.start as int);
    lemma_fundamental_div_mod(r.end as int - base, 4096);
    assert(4096 * region_frame_count(r) <= r.end as int - base);
    lemma_mod_multiples_basic((r.start as int + 4095) / 4096 + k, 4096);
    assert(base + 4096 * k == ((r.start as int + 4095) / 4096 + k) * 4096) by {
        assert(((r.start as int + 4095) / 4096 + k) * 4096 == ((r.start as int + 4095) / 4096)
            * 4096 + k * 4096) by (nonlinear_arith);
    }
}

/// Every frame of the stream is page-aligned and lies entirely inside a
/// usable region of the list.
proof fn lemma_frame_in_usable_region(rs: Seq<MemoryRegion>, a: int)
    requires
        0 <= a < frame_seq(rs).len(),
    ensures
        frame_seq(rs)[a] as int % 4096 == 0,
        exists|i: int|
            0 <= i < rs.len() && rs[i].usable && rs[i].start <= frame_seq(rs)[a] && frame_seq(
                rs,
            )[a] + 4096 <= rs[i].end,
    decreases rs.len(),
{
    let head = region_frames(rs[0]);
    if a < head.len() {
        lemma_region_frame_contained(rs[0], a);
        assert(0 <= 0 < rs.len() && rs[0].usable && rs[0].start <= frame_seq(rs)[a] && frame_seq(
            rs,
        )[a] + 4096 <= rs[0].end);
    } else {
        lemma_frame_in_usable_region(rs.skip(1), a - head.len());
        let i = choose|i: int|
            0 <= i < rs.skip(1).len() && rs.skip(1)[i].usable && rs.skip(1)[i].start <= frame_seq(
                rs.skip(1),
            )[a - head.len()] && frame_seq(rs.skip(1))[a - head.len()] + 4096 <= rs.skip(1)[i].end;
        assert(rs[i + 1] == rs.skip(1)[i]);
        assert(frame_seq(rs)[a] == frame_seq(rs.skip(1))[a - head.len()]);
    }
}

/// Two distinct positions of the stream name frames that do not overlap,
/// provided the usable regions themselves do not overlap.
proof fn lemma_frames_distinct(rs: Seq<MemoryRegion>, a: int, b: int)
    requires
        usable_regions_disjoint(rs),
        0 <= a < b < frame_seq(rs).len(),
    ensures
        frame_seq(rs)[a] + 4096 <= frame_seq(rs)[b] || frame_seq(rs)[b] + 4096 <= frame_seq(
            rs,
        )[a],
    decreases rs.len(),
{
    let head = region_frames(rs[0]);
    if b < head.len() {
        // both inside the first region: successive frames step by one page
        lemma_region_frame_contained(rs[0], a);
        lemma_region_frame_contained(rs[0], b);
        assert(frame_seq(rs)[a] == head[a] && frame_seq(rs)[b] == head[b]);
        assert(head[a] as int + 4096 <= head[b] as int) by {
            assert(align_up_page(rs[0].start as int) + 4096 * a + 4096 <= align_up_page(
                rs[0].start as int,
            ) + 4096 * b) by (nonlinear_arith)
                requires
                    a + 1 <= b,
            ;
        }
    } else if a < head.len() {
        // one frame in the first region, the other in a later usable region
        lemma_region_frame_contained(rs[0], a);
        lemma_frame_in_usable_region(rs.skip(1), b - head.len());
        let i = choose|i: int|
            0 <= i < rs.skip(1).len() && rs.skip(1)[i].usable && rs.skip(1)[i].start <= frame_seq(
                rs.skip(1),
            )[b - head.len()] && frame_seq(rs.skip(1))[b - head.len()] + 4096 <= rs.skip(1)[i].end;
        assert(rs[i + 1] == rs.skip(1)[i]);
        assert(frame_seq(rs)[b] == frame_seq(rs.skip(1))[b - head.len()]);
        assert(rs[0].end <= rs[i + 1].start || rs[i + 1].end <= rs[0].start);
    } else {
        assert forall|i: int, j: int|
            0 <= i < rs.skip(1).len() && 0 <= j < rs.skip(1).len() && i != j && rs.skip(1)[i].usable
                && rs.skip(1)[j].usable implies rs.skip(1)[i].end <= rs.skip(1)[j].start || rs.skip(
            1,
        )[j].end <= rs.skip(1)[i].start by {
            assert(rs.skip(1)[i] == rs[i + 1] && rs.skip(1)[j] == rs[j + 1]);
        }
        lemma_frames_distinct(rs.skip(1), a - head.len(), b - head.len());
        assert(frame_seq(rs)[a] == frame_seq(rs.skip(1))[a - head.len()]);
        assert(frame_seq(rs)[b] == frame_seq(rs.skip(1))[b - head.len()]);
    }
}

/// The cursor never runs past the stream: the count of frames served so
/// far always lies between zero and the stream's length.
pub proof fn lemma_served_in_range(fs: BootInfoFrameAllocator)
    requires
        fs.wf(),
    ensures
        0 <= fs.served() <= frame_seq(fs.regions()).len(),
{
    let rs = fs.regions();
    let idx = fs.cursor_region();
    lemma_frame_seq_split(rs, idx);
    if idx < rs.len() {
        lemma_frame_seq_take_succ(rs, idx);
        lemma_frame_seq_split(rs, idx + 1);
        lemma_region_frame_count_nonneg(rs[idx]);
    }
}

/// Frame uniqueness: over any sequence of `next_frame` calls, no two
/// returned frames overlap, and every returned frame is page-aligned and
/// lies entirely within a usable region. `next_frame` returns exactly the
/// elements of `frame_seq(rs)` in order, so the law is stated of that
/// stream.
pub proof fn lemma_frame_uniqueness(rs: Seq<MemoryRegion>)
    requires
        usable_regions_disjoint(rs),
    ensures
        forall|a: int, b: int|
            0 <= a < frame_seq(rs).len() && 0 <= b < frame_seq(rs).len() && a != b
                ==> #[trigger] frame_seq(rs)[a] + 4096 <= #[trigger] frame_seq(rs)[b] || frame_seq(
                rs,
            )[b] + 4096 <= frame_seq(rs)[a],
        forall|a: int|
            0 <= a < frame_seq(rs).len() ==> (#[trigger] frame_seq(rs)[a]) as int % 4096 == 0
                && exists|i: int|
                0 <= i < rs.len() && rs[i].usable && rs[i].start <= frame_seq(rs)[a] && frame_seq(
                    rs,
                )[a] + 4096 <= rs[i].end,
{
    assert forall|a: int, b: int|
        0 <= a < frame_seq(rs).len() && 0 <= b < frame_seq(rs).len() && a
            != b implies #[trigger] frame_seq(rs)[a] + 4096 <= #[trigger] frame_seq(rs)[b]
        || frame_seq(rs)[b] + 4096 <= frame_seq(rs)[a] by {
        if a < b {
            lemma_frames_distinct(rs, a, b);
        } else {
            lemma_frames_distinct(rs, b, a);
        }
    }
    assert forall|a: int| 0 <= a < frame_seq(rs).len() implies (#[trigger] frame_seq(rs)[a]) as int
        % 4096 == 0 && exists|i: int|
        0 <= i < rs.len() && rs[i].usable && rs[i].start <= frame_seq(rs)[a] && frame_seq(rs)[a]
            + 4096 <= rs[i].end by {
        lemma_frame_in_usable_region(rs, a);
    }
}

} // verus!
