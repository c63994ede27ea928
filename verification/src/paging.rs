//! Virtual-memory mapper.
//!
//! Models the fixed-depth page-table hierarchy as plain data: one `Level`
//! per depth holds the tables that exist at that depth, each table the
//! physical frame address it occupies and its 512 entries. `map_page`
//! walks the hierarchy from the root to the leaf along the virtual page's
//! index slices, allocates and installs missing intermediate tables from
//! the frame source, and installs the leaf entry last — an in-use virtual
//! address never sees a half-built chain, because a fresh table is fully
//! zeroed before the entry pointing at it is made present. The hardware
//! side — writing table frames through the physical-memory offset and
//! loading the root register — stays outside this crate.

use crate::frames::{frame_seq, lemma_frame_uniqueness, lemma_served_in_range,
    usable_regions_disjoint, BootInfoFrameAllocator, Frame};
use vstd::arithmetic::div_mod::{lemma_fundamental_div_mod, lemma_fundamental_div_mod_converse};
use vstd::prelude::*;

verus! {

/// Permissions requested for one mapping.
#[derive(Clone, Copy, Debug, PartialEq, Eq, Structural)]
pub struct PageFlags {
    pub writable: bool,
    pub no_exec: bool,
}

/// One page-table entry: whether it is present, its permission bits, and
/// the physical address it points at (a child table or a leaf frame).
#[derive(Clone, Copy, Debug, PartialEq, Eq, Structural)]
pub struct Entry {
    pub present: bool,
    pub writable: bool,
    pub no_exec: bool,
    pub addr: u64,
}

/// An aligned virtual address naming one page of the address space.
#[derive(Clone, Copy, Debug, PartialEq, Eq, Structural)]
pub struct VirtualPage {
    pub addr: u64,
}

/// Failure of a mapping request.
#[derive(Clone, Copy, Debug, PartialEq, Eq, Structural)]
pub enum MapError {
    /// The frame source ran dry while a missing intermediate table was
    /// being allocated.
    FrameAllocationFailed,
    /// The leaf entry is already present; overwriting it silently would
    /// orphan an existing mapping.
    PageAlreadyMapped,
}

/// A virtual page the hierarchy can hold: page-aligned and within the
/// 48-bit translated address space.
pub open spec fn page_wf(p: VirtualPage) -> bool {
    p.addr % 4096 == 0 && p.addr < 0x1_0000_0000_0000
}

/// The page number: the address in units of whole pages.
pub open spec fn page_number(addr: u64) -> int {
    addr as int / 4096
}

/// Index slices of the page number, leaf level first: each level of the
/// hierarchy consumes nine bits.
pub open spec fn idx1(addr: u64) -> int {
    page_number(addr) % 512
}

pub open spec fn idx2(addr: u64) -> int {
    (page_number(addr) / 512) % 512
}

pub open spec fn idx3(addr: u64) -> int {
    ((page_number(addr) / 512) / 512) % 512
}

pub open spec fn idx4(addr: u64) -> int {
    (((page_number(addr) / 512) / 512) / 512) % 512
}

/// An entry that maps nothing: how every slot of a freshly zeroed table
/// reads.
pub open spec fn empty_entry() -> Entry {
    Entry { present: false, writable: false, no_exec: false, addr: 0 }
}

/// First index of `a` in `s`, if any.
pub open spec fn find_spec(s: Seq<u64>, a: u64) -> Option<int>
    decreases s.len(),
{
    if s.len() == 0 {
        None
    } else if s[0] == a {
        Some(0)
    } else {
        match find_spec(s.skip(1), a) {
            Some(i) => Some(i + 1),
            None => None,
        }
    }
}

/// A found index is in range and names the address searched for.
proof fn lemma_find_spec_valid(s: Seq<u64>, a: u64)
    ensures
        match find_spec(s, a) {
            Some(i) => 0 <= i < s.len() && s[i] == a,
            None => forall|i: int| 0 <= i < s.len() ==> s[i] != a,
        },
    decreases s.len(),
{
    if s.len() > 0 && s[0] != a {
        lemma_find_spec_valid(s.skip(1), a);
        if find_spec(s.skip(1), a) is None {
            assert forall|i: int| 0 <= i < s.len() implies s[i] != a by {
                if i > 0 {
                    assert(s.skip(1)[i - 1] == s[i]);
                }
            }
        }
    }
}

/// Appending an address leaves every earlier search result in place.
proof fn lemma_find_spec_push(s: Seq<u64>, a: u64, x: u64)
    requires
        find_spec(s, a) is Some,
    ensures
        find_spec(s.push(x), a) == find_spec(s, a),
    decreases s.len(),
{
    assert(s.push(x)[0] == s[0]);
    if s[0] != a {
        assert(s.push(x).skip(1) =~= s.skip(1).push(x));
        lemma_find_spec_push(s.skip(1), a, x);
    }
}

/// Appending a new address makes it findable at the tail position.
proof fn lemma_find_spec_push_new(s: Seq<u64>, x: u64)
    requires
        forall|i: int| 0 <= i < s.len() ==> s[i] != x,
    ensures
        find_spec(s.push(x), x) == Some(s.len() as int),
    decreases s.len(),
{
    if s.len() == 0 {
        assert(s.push(x)[0] == x);
    } else {
        assert(s.push(x)[0] == s[0]);
        assert(s.push(x).skip(1) =~= s.skip(1).push(x));
        assert(forall|i: int| 0 <= i < s.skip(1).len() ==> s.skip(1)[i] != x);
        lemma_find_spec_push_new(s.skip(1), x);
    }
}

/// All tables of one depth of the hierarchy. Table `t` occupies the frame
/// at `addrs[t]` and its 512 entries sit at `entries[512 * t .. 512 * t + 512]`.
pub struct Level {
    addrs: Vec<u64>,
    entries: Vec<Entry>,
}

impl Level {
    /// Frame addresses of this depth's tables, in creation order.
    pub closed spec fn addrs(self) -> Seq<u64> {
        self.addrs@
    }

    /// All entries of this depth, flattened table by table.
    pub closed spec fn entries(self) -> Seq<Entry> {
        self.entries@
    }

    /// How many tables exist at this depth.
    pub open spec fn table_count(self) -> int {
        self.addrs().len() as int
    }

    /// Entry `j` of table `t`.
    pub open spec fn entry_at(self, t: int, j: int) -> Entry {
        self.entries()[512 * t + j]
    }

    /// Storage shape: one run of 512 entries per table, table frame
    /// addresses pairwise distinct.
    pub open spec fn wf(self) -> bool {
        &&& self.entries().len() == 512 * self.table_count()
        &&& forall|i: int, j: int|
            0 <= i < j < self.addrs().len() ==> self.addrs()[i] != self.addrs()[j]
    }

    /// A depth with no tables yet.
    pub fn empty() -> (r: Self)
        ensures
            r.wf(),
            r.addrs() == Seq::<u64>::empty(),
            r.entries() == Seq::<Entry>::empty(),
    {
        let r = Level { addrs: Vec::new(), entries: Vec::new() };
        proof {
            assert(r.addrs@ =~= Seq::<u64>::empty());
            assert(r.entries@ =~= Seq::<Entry>::empty());
        }
        r
    }

    /// The index of the table occupying frame `addr`, if one exists.
    pub fn find(&self, addr: u64) -> (r: Option<usize>)
        ensures
            match r {
                Some(t) => find_spec(self.addrs(), addr) == Some(t as int),
                None => find_spec(self.addrs(), addr) is None,
            },
    {
        let mut i: usize = 0;
        proof {
            assert(self.addrs@.skip(0) =~= self.addrs@);
        }
        loop
            invariant
                0 <= i <= self.addrs.len(),
                find_spec(self.addrs@, addr) == match find_spec(self.addrs@.skip(i as int), addr) {
                    Some(k) => Some(k + i),
                    None => None::<int>,
                },
            decreases self.addrs@.len() - i,
        {
            if i >= self.addrs.len() {
                proof {
                    assert(self.addrs@.skip(i as int) =~= Seq::<u64>::empty());
                }
                return None;
            }
            let ghost pre = self.addrs@.skip(i as int);
            proof {
                assert(pre[0] == self.addrs@[i as int]);
                assert(pre.skip(1) =~= self.addrs@.skip(i as int + 1));
            }
            if self.addrs[i] == addr {
                return Some(i);
            }
            i = i + 1;
        }
    }

    /// Entry `j` of table `t`.
    pub fn get_entry(&self, t: usize, j: usize) -> (e: Entry)
        requires
            self.wf(),
            t < self.table_count(),
            j < 512,
        ensures
            e == self.entry_at(t as int, j as int),
    {
        let n = self.entries.len();
        proof {
            assert(512 * (t as int) + (j as int) < 512 * self.table_count()) by (nonlinear_arith)
                requires
                    (t as int) < self.table_count(),
                    j < 512,
            ;
            assert(0 <= 512 * (t as int)) by (nonlinear_arith)
                requires
                    0 <= t as int,
            ;
            assert(512 * (t as int) + (j as int) < n as int);
        }
        self.entries[512 * t + j]
    }

    /// Overwrites entry `j` of table `t`; every other entry and all table
    /// addresses stay.
    pub fn set_entry(&mut self, t: usize, j: usize, e: Entry)
        requires
            old(self).wf(),
            t < old(self).table_count(),
            j < 512,
        ensures
            final(self).wf(),
            final(self).addrs() == old(self).addrs(),
            final(self).entries() == old(self).entries().update(512 * t as int + j as int, e),
    {
        let n = self.entries.len();
        proof {
            let ghost tc = old(self).table_count();
            assert(512 * (t as int) + (j as int) < 512 * tc) by (nonlinear_arith)
                requires
                    (t as int) < tc,
                    j < 512,
            ;
            assert(0 <= 512 * (t as int)) by (nonlinear_arith)
                requires
                    0 <= t as int,
            ;
            assert(512 * (t as int) + (j as int) < n as int);
        }
        self.entries.set(512 * t + j, e);
    }

    /// Installs a fresh, fully zeroed table in the frame at `addr`; the
    /// new table's entries all read as absent.
    pub fn add_table(&mut self, addr: u64) -> (t: usize)
        requires
            old(self).wf(),
            find_spec(old(self).addrs(), addr) is None,
        ensures
            final(self).wf(),
            t as int == old(self).table_count(),
            final(self).addrs() == old(self).addrs().push(addr),
            final(self).entries() == old(self).entries() + Seq::new(512, |k: int| empty_entry()),
            find_spec(final(self).addrs(), addr) == Some(t as int),
    {
        let t = self.addrs.len();
        proof {
            lemma_find_spec_valid(self.addrs@, addr);
            lemma_find_spec_push_new(self.addrs@, addr);
        }
        self.addrs.push(addr);
        let mut k: usize = 0;
        while k < 512
            invariant
                0 <= k <= 512,
                self.addrs@ == old(self).addrs@.push(addr),
                self.entries@ == old(self).entries@ + Seq::new(k as nat, |x: int| empty_entry()),
            decreases 512 - k,
        {
            let ghost before = self.entries@;
            self.entries.push(Entry { present: false, writable: false, no_exec: false, addr: 0 });
            proof {
                assert(self.entries@ =~= old(self).entries@ + Seq::new(
                    k as nat + 1,
                    |x: int| empty_entry(),
                ));
            }
            k = k + 1;
        }
        proof {
            let ghost n0 = old(self).addrs@.len() as int;
            let ghost n1 = self.addrs@.len() as int;
            assert(self.entries@.len() == old(self).entries@.len() + 512);
            assert(512 * n1 == 512 * n0 + 512) by (nonlinear_arith)
                requires
                    n1 == n0 + 1,
            ;
        }
        t
    }
}

/// Distinct (table, slot) pairs occupy distinct positions of the
/// flattened entry storage.
proof fn lemma_slot_injective(t1: int, j1: int, t2: int, j2: int)
    requires
        0 <= j1 < 512,
        0 <= j2 < 512,
        512 * t1 + j1 == 512 * t2 + j2,
    ensures
        t1 == t2 && j1 == j2,
{
    assert(t1 == t2 && j1 == j2) by (nonlinear_arith)
        requires
            0 <= j1 < 512,
            0 <= j2 < 512,
            512 * t1 + j1 == 512 * t2 + j2,
    ;
}

/// A slot of an existing table lies inside the flattened storage.
proof fn lemma_slot_in_range(t: int, j: int, count: int)
    requires
        0 <= t < count,
        0 <= j < 512,
    ensures
        0 <= 512 * t + j < 512 * count,
{
    assert(0 <= 512 * t + j < 512 * count) by (nonlinear_arith)
        requires
            0 <= t < count,
            0 <= j < 512,
    ;
}

/// Present entries of one depth point at pairwise-distinct frames, so no
/// two paths ever converge on the same child table.
pub open spec fn ptr_injective(l: Level) -> bool {
    forall|t1: int, j1: int, t2: int, j2: int|
        #![trigger l.entry_at(t1, j1), l.entry_at(t2, j2)]
        0 <= t1 < l.table_count() && 0 <= j1 < 512 && 0 <= t2 < l.table_count() && 0 <= j2 < 512
            && (t1 != t2 || j1 != j2) && l.entry_at(t1, j1).present && l.entry_at(t2, j2).present
            ==> l.entry_at(t1, j1).addr != l.entry_at(t2, j2).addr
}

/// Every present entry of `parent` points at a table that exists in
/// `child`.
pub open spec fn linked(parent: Level, child: Level) -> bool {
    forall|t: int, j: int|
        0 <= t < parent.table_count() && 0 <= j < 512 && (#[trigger] parent.entry_at(
            t,
            j,
        )).present ==> find_spec(child.addrs(), parent.entry_at(t, j).addr) is Some
}

/// Every table of the depth occupies a frame from `given`.
pub open spec fn addrs_from(l: Level, given: Seq<u64>) -> bool {
    forall|i: int| 0 <= i < l.addrs().len() ==> given.contains(#[trigger] l.addrs()[i])
}

/// The frames a source has already handed out, in order.
pub open spec fn given_frames(fs: BootInfoFrameAllocator) -> Seq<u64> {
    frame_seq(fs.regions()).take(fs.served())
}

/// Growing the record of handed-out frames keeps every containment.
proof fn lemma_addrs_from_push(l: Level, given: Seq<u64>, x: u64)
    requires
        addrs_from(l, given),
    ensures
        addrs_from(l, given.push(x)),
{
    assert forall|i: int| 0 <= i < l.addrs().len() implies given.push(x).contains(
        #[trigger] l.addrs()[i],
    ) by {
        let k = choose|k: int| 0 <= k < given.len() && given[k] == l.addrs()[i];
        assert(given.push(x)[k] == l.addrs()[i]);
    }
}

/// A level extended by one fully zeroed table still links into the same
/// depth below: the new entries are all absent.
proof fn lemma_extend_keeps_linked(pre: Level, post: Level, f: u64, below: Level)
    requires
        pre.wf(),
        post.addrs() == pre.addrs().push(f),
        post.entries() == pre.entries() + Seq::new(512, |k: int| empty_entry()),
        linked(pre, below),
    ensures
        linked(post, below),
{
    assert forall|t: int, j: int|
        0 <= t < post.table_count() && 0 <= j < 512 && (#[trigger] post.entry_at(
            t,
            j,
        )).present implies find_spec(below.addrs(), post.entry_at(t, j).addr) is Some by {
        if t < pre.table_count() {
            lemma_slot_in_range(t, j, pre.table_count());
            assert(post.entry_at(t, j) == pre.entry_at(t, j));
        } else {
            lemma_slot_in_range(t, j, post.table_count());
            assert(t == pre.table_count());
            assert(512 * t + j - pre.entries().len() == j);
            assert(post.entry_at(t, j) == empty_entry());
        }
    }
}

/// A level extended by one fully zeroed table keeps its present entries
/// pairwise distinct: the new table adds none.
proof fn lemma_extend_keeps_injective(pre: Level, post: Level, f: u64)
    requires
        pre.wf(),
        post.addrs() == pre.addrs().push(f),
        post.entries() == pre.entries() + Seq::new(512, |k: int| empty_entry()),
        ptr_injective(pre),
    ensures
        ptr_injective(post),
{
    assert forall|t1: int, j1: int, t2: int, j2: int|
        #![trigger post.entry_at(t1, j1), post.entry_at(t2, j2)]
        0 <= t1 < post.table_count() && 0 <= j1 < 512 && 0 <= t2 < post.table_count() && 0 <= j2
            < 512 && (t1 != t2 || j1 != j2) && post.entry_at(t1, j1).present && post.entry_at(
            t2,
            j2,
        ).present implies post.entry_at(t1, j1).addr != post.entry_at(t2, j2).addr by {
        if t1 < pre.table_count() {
            lemma_slot_in_range(t1, j1, pre.table_count());
            assert(post.entry_at(t1, j1) == pre.entry_at(t1, j1));
        } else {
            lemma_slot_in_range(t1, j1, post.table_count());
            assert(512 * t1 + j1 - pre.entries().len() == j1);
            assert(post.entry_at(t1, j1) == empty_entry());
        }
        if t2 < pre.table_count() {
            lemma_slot_in_range(t2, j2, pre.table_count());
            assert(post.entry_at(t2, j2) == pre.entry_at(t2, j2));
        } else {
            lemma_slot_in_range(t2, j2, post.table_count());
            assert(512 * t2 + j2 - pre.entries().len() == j2);
            assert(post.entry_at(t2, j2) == empty_entry());
        }
    }
}

/// The page-table hierarchy and the physical-memory offset through which
/// its frames are reached. `l4` is the root depth and always holds exactly
/// one table — the one the boot environment reports active; `l1` holds the
/// leaf tables whose entries map pages to frames.
pub struct Mapper {
    phys_offset: u64,
    l4: Level,
    l3: Level,
    l2: Level,
    l1: Level,
}

impl Mapper {
    /// The virtual base at which all physical memory is visible.
    pub closed spec fn phys_offset_spec(self) -> u64 {
        self.phys_offset
    }

    /// Hierarchy well-formedness: each depth is well shaped, the root
    /// depth holds exactly one table, every present entry of a depth
    /// points at an existing table one depth down, and no two present
    /// entries of one depth point at the same child — paths never merge.
    pub closed spec fn wf(self) -> bool {
        &&& self.l4.wf() && self.l3.wf() && self.l2.wf() && self.l1.wf()
        &&& self.l4.table_count() == 1
        &&& linked(self.l4, self.l3) && linked(self.l3, self.l2) && linked(self.l2, self.l1)
        &&& ptr_injective(self.l4) && ptr_injective(self.l3) && ptr_injective(self.l2)
        &&& ptr_injective(self.l1)
    }

    /// Every table below the root occupies a frame this source has handed
    /// out — so the next frame the source yields is certain to be fresh.
    pub closed spec fn tables_from(self, given: Seq<u64>) -> bool {
        addrs_from(self.l3, given) && addrs_from(self.l2, given) && addrs_from(self.l1, given)
    }

    /// Whether some present leaf entry already points at frame `f`: the
    /// frame is backing a virtual page.
    pub closed spec fn frame_in_use(self, f: u64) -> bool {
        exists|t: int, j: int|
            0 <= t < self.l1.table_count() && 0 <= j < 512 && (#[trigger] self.l1.entry_at(
                t,
                j,
            )).present && self.l1.entry_at(t, j).addr == f
    }

    /// Every frame backing a page was handed out by the source — so the
    /// source's next frame is certain not to be backing anything yet.
    pub open spec fn leaves_from(self, given: Seq<u64>) -> bool {
        forall|f: u64| self.frame_in_use(f) ==> given.contains(f)
    }

    /// What the hierarchy maps a page to: the frame address and the
    /// permissions of its leaf entry, reached root-down along the page's
    /// index slices — or nothing, where any entry on the way is absent.
    pub closed spec fn translate(self, q: VirtualPage) -> Option<(u64, PageFlags)> {
        let e4 = self.l4.entry_at(0, idx4(q.addr));
        if !e4.present {
            None
        } else {
            match find_spec(self.l3.addrs(), e4.addr) {
                None => None,
                Some(t3) => {
                    let e3 = self.l3.entry_at(t3, idx3(q.addr));
                    if !e3.present {
                        None
                    } else {
                        match find_spec(self.l2.addrs(), e3.addr) {
                            None => None,
                            Some(t2) => {
                                let e2 = self.l2.entry_at(t2, idx2(q.addr));
                                if !e2.present {
                                    None
                                } else {
                                    match find_spec(self.l1.addrs(), e2.addr) {
                                        None => None,
                                        Some(t1) => {
                                            let e1 = self.l1.entry_at(t1, idx1(q.addr));
                                            if !e1.present {
                                                None
                                            } else {
                                                Some(
                                                    (
                                                        e1.addr,
                                                        PageFlags {
                                                            writable: e1.writable,
                                                            no_exec: e1.no_exec,
                                                        },
                                                    ),
                                                )
                                            }
                                        },
                                    }
                                }
                            },
                        }
                    }
                },
            }
        }
    }

    /// A mapper over the initially empty hierarchy rooted in the table
    /// frame at `root_addr`, with all physical memory visible at
    /// `phys_offset`. That the offset mapping really holds and that the
    /// root frame is the active, zeroed one are boot-time obligations of
    /// the caller; they cannot be checked from here.
    pub fn init(phys_offset: u64, root_addr: u64) -> (r: Mapper)
        ensures
            r.wf(),
            r.phys_offset_spec() == phys_offset,
            forall|q: VirtualPage| r.translate(q) is None,
            forall|given: Seq<u64>| #[trigger] r.tables_from(given),
            forall|given: Seq<u64>| #[trigger] r.leaves_from(given),
    {
        let mut l4 = Level::empty();
        let _t = l4.add_table(root_addr);
        let r = Mapper { phys_offset, l4, l3: Level::empty(), l2: Level::empty(), l1: Level::empty() };
        proof {
            assert forall|q: VirtualPage| r.translate(q) is None by {
                let j = idx4(q.addr);
                assert(0 <= j < 512);
                assert(r.l4.entries() == Seq::<Entry>::empty() + Seq::new(
                    512,
                    |k: int| empty_entry(),
                ));
                assert(r.l4.entry_at(0, j) == empty_entry());
            }
        }
        r
    }
}

/// One step of the walk: make sure the table below `parent`'s entry
/// `(pt, pj)` exists. If the entry is present the existing child table is
/// found; if it is absent, a frame is drawn from the source, installed in
/// `child` fully zeroed, and only then made reachable by writing the
/// parent entry — present bit and all — as the last step.
fn ensure_child(
    parent: &mut Level,
    pt: usize,
    pj: usize,
    child: &mut Level,
    fs: &mut BootInfoFrameAllocator,
) -> (r: Result<usize, MapError>)
    requires
        old(parent).wf(),
        old(child).wf(),
        old(fs).wf(),
        usable_regions_disjoint(old(fs).regions()),
        pt < old(parent).table_count(),
        pj < 512,
        linked(*old(parent), *old(child)),
        ptr_injective(*old(parent)),
        addrs_from(*old(child), given_frames(*old(fs))),
    ensures
        final(parent).wf(),
        final(child).wf(),
        final(fs).wf(),
        final(fs).regions() == old(fs).regions(),
        linked(*final(parent), *final(child)),
        ptr_injective(*final(parent)),
        addrs_from(*final(child), given_frames(*final(fs))),
        final(parent).addrs() == old(parent).addrs(),
        match r {
            Ok(t) => {
                &&& 0 <= (t as int) < final(child).table_count()
                &&& final(parent).entry_at(pt as int, pj as int).present
                &&& find_spec(
                    final(child).addrs(),
                    final(parent).entry_at(pt as int, pj as int).addr,
                ) == Some(t as int)
                &&& if old(parent).entry_at(pt as int, pj as int).present {
                    &&& *final(parent) == *old(parent)
                    &&& *final(child) == *old(child)
                    &&& *final(fs) == *old(fs)
                } else {
                    &&& final(fs).served() == old(fs).served() + 1
                    &&& old(fs).served() < frame_seq(old(fs).regions()).len()
                    &&& t as int == old(child).table_count()
                    &&& final(parent).entries() == old(parent).entries().update(
                        512 * pt as int + pj as int,
                        (Entry {
                            present: true,
                            writable: true,
                            no_exec: false,
                            addr: frame_seq(old(fs).regions())[old(fs).served()],
                        }),
                    )
                    &&& final(child).addrs() == old(child).addrs().push(
                        frame_seq(old(fs).regions())[old(fs).served()],
                    )
                    &&& final(child).entries() == old(child).entries() + Seq::new(
                        512,
                        |k: int| empty_entry(),
                    )
                    &&& find_spec(
                        old(child).addrs(),
                        frame_seq(old(fs).regions())[old(fs).served()],
                    ) is None
                }
            },
            Err(e) => {
                &&& e == MapError::FrameAllocationFailed
                &&& !old(parent).entry_at(pt as int, pj as int).present
                &&& *final(parent) == *old(parent)
                &&& *final(child) == *old(child)
                &&& final(fs).served() == old(fs).served()
                &&& old(fs).served() == frame_seq(old(fs).regions()).len()
            },
        },
{
    let e = parent.get_entry(pt, pj);
    if e.present {
        let found = child.find(e.addr);
        proof {
            assert(find_spec(child.addrs(), e.addr) is Some);
        }
        let t = match found {
            Some(t) => t,
            None => {
                proof {
                    assert(false);
                }
                0
            },
        };
        proof {
            lemma_find_spec_valid(child.addrs(), e.addr);
        }
        Ok(t)
    } else {
        match fs.next_frame() {
            None => Err(MapError::FrameAllocationFailed),
            Some(f) => {
                proof {
                    // the frame is fresh: every table of `child` occupies an
                    // earlier element of the stream, and the stream never
                    // repeats an address
                    lemma_frame_uniqueness(fs.regions());
                    lemma_find_spec_valid(child.addrs(), f.start);
                    if find_spec(child.addrs(), f.start) is Some {
                        let i = find_spec(child.addrs(), f.start)->Some_0;
                        assert(given_frames(*old(fs)).contains(child.addrs()[i]));
                        let k = choose|k: int|
                            0 <= k < given_frames(*old(fs)).len() && given_frames(*old(fs))[k]
                                == child.addrs()[i];
                        assert(frame_seq(fs.regions())[k] == frame_seq(fs.regions())[old(
                            fs,
                        ).served()]);
                        assert(false);
                    }
                }
                let t = child.add_table(f.start);
                parent.set_entry(
                    pt,
                    pj,
                    Entry { present: true, writable: true, no_exec: false, addr: f.start },
                );
                proof {
                    let ghost pre_p = *old(parent);
                    let ghost pre_c = *old(child);
                    let ghost slot = 512 * pt as int + pj as int;
                    lemma_slot_in_range(pt as int, pj as int, pre_p.table_count());
                    // the new record of handed-out frames is the old one
                    // plus this frame
                    assert(given_frames(*fs) =~= given_frames(*old(fs)).push(f.start));
                    lemma_addrs_from_push(pre_c, given_frames(*old(fs)), f.start);
                    assert forall|i: int|
                        0 <= i < child.addrs().len() implies given_frames(*fs).contains(
                        #[trigger] child.addrs()[i],
                    ) by {
                        if i < pre_c.addrs().len() {
                            assert(child.addrs()[i] == pre_c.addrs()[i]);
                        } else {
                            assert(child.addrs()[i] == f.start);
                            assert(given_frames(*fs)[given_frames(*fs).len() - 1] == f.start);
                        }
                    }
                    // the updated parent still links into the child and its
                    // present entries still point at pairwise-distinct frames
                    assert forall|t2: int, j2: int|
                        0 <= t2 < parent.table_count() && 0 <= j2 < 512 && (
                        #[trigger] parent.entry_at(t2, j2)).present implies find_spec(
                        child.addrs(),
                        parent.entry_at(t2, j2).addr,
                    ) is Some by {
                        lemma_slot_in_range(t2, j2, pre_p.table_count());
                        if 512 * t2 + j2 == slot {
                            lemma_slot_injective(t2, j2, pt as int, pj as int);
                        } else {
                            assert(parent.entry_at(t2, j2) == pre_p.entry_at(t2, j2));
                            if pre_p.entry_at(t2, j2).present {
                                lemma_find_spec_push(pre_c.addrs(), pre_p.entry_at(t2, j2).addr,
                                    f.start);
                            }
                        }
                    }
                    assert forall|t1: int, j1: int, t2: int, j2: int|
                        #![trigger parent.entry_at(t1, j1), parent.entry_at(t2, j2)]
                        0 <= t1 < parent.table_count() && 0 <= j1 < 512 && 0 <= t2
                            < parent.table_count() && 0 <= j2 < 512 && (t1 != t2 || j1 != j2)
                            && parent.entry_at(t1, j1).present && parent.entry_at(
                            t2,
                            j2,
                        ).present implies parent.entry_at(t1, j1).addr != parent.entry_at(
                            t2,
                            j2,
                        ).addr by {
                        lemma_slot_in_range(t1, j1, pre_p.table_count());
                        lemma_slot_in_range(t2, j2, pre_p.table_count());
                        if 512 * t1 + j1 != slot && 512 * t2 + j2 != slot {
                            assert(parent.entry_at(t1, j1) == pre_p.entry_at(t1, j1));
                            assert(parent.entry_at(t2, j2) == pre_p.entry_at(t2, j2));
                        } else if 512 * t1 + j1 == slot && 512 * t2 + j2 != slot {
                            lemma_slot_injective(t1, j1, pt as int, pj as int);
                            assert(parent.entry_at(t2, j2) == pre_p.entry_at(t2, j2));
                            // the old entry's target exists in the old child,
                            // the fresh frame does not
                            lemma_find_spec_valid(pre_c.addrs(), pre_p.entry_at(t2, j2).addr);
                        } else if 512 * t1 + j1 != slot && 512 * t2 + j2 == slot {
                            lemma_slot_injective(t2, j2, pt as int, pj as int);
                            assert(parent.entry_at(t1, j1) == pre_p.entry_at(t1, j1));
                            lemma_find_spec_valid(pre_c.addrs(), pre_p.entry_at(t1, j1).addr);
                        } else {
                            lemma_slot_injective(t1, j1, t2, j2);
                        }
                    }
                }
                Ok(t)
            },
        }
    }
}


/// A quotient stays below `c` when the dividend stays below `d * c`.
proof fn lemma_div_bound(x: int, d: int, c: int)
    requires
        0 <= x,
        0 < d,
        0 < c,
        x < d * c,
    ensures
        x / d < c,
{
    lemma_fundamental_div_mod(x, d);
    if x / d >= c {
        assert(d * (x / d) >= d * c) by (nonlinear_arith)
            requires
                x / d >= c,
                0 < d,
        ;
    }
}

/// An aligned page address is exactly its four index slices put back
/// together: the hierarchy path determines the page.
proof fn lemma_page_decompose(a: u64)
    requires
        a % 4096 == 0,
        a < 0x1_0000_0000_0000,
    ensures
        a as int == 4096 * (idx1(a) + 512 * (idx2(a) + 512 * (idx3(a) + 512 * idx4(a)))),
{
    let n = page_number(a);
    lemma_fundamental_div_mod(a as int, 4096);
    let n1 = n / 512;
    let n2 = n1 / 512;
    let n3 = n2 / 512;
    lemma_fundamental_div_mod(n, 512);
    lemma_fundamental_div_mod(n1, 512);
    lemma_fundamental_div_mod(n2, 512);
    lemma_div_bound(a as int, 4096, 0x10_0000_0000);
    lemma_div_bound(n, 512, 0x800_0000);
    lemma_div_bound(n1, 512, 0x4_0000);
    lemma_div_bound(n2, 512, 512);
    lemma_fundamental_div_mod_converse(n3, 512, 0, n3);
}

/// Two well-formed pages with the same four index slices are the same
/// page.
proof fn lemma_indices_determine(a: u64, b: u64)
    requires
        a % 4096 == 0,
        b % 4096 == 0,
        a < 0x1_0000_0000_0000,
        b < 0x1_0000_0000_0000,
        idx1(a) == idx1(b),
        idx2(a) == idx2(b),
        idx3(a) == idx3(b),
        idx4(a) == idx4(b),
    ensures
        a == b,
{
    lemma_page_decompose(a);
    lemma_page_decompose(b);
}

/// Hanging a fresh, fully zeroed level-3 table under a previously absent
/// root entry changes no translation: pages routed through other root
/// entries read untouched state; pages routed through the new entry were
/// unmapped and find only absent entries in the new table.
proof fn lemma_grow_l3_preserves(pre: Mapper, post: Mapper, pj: int, f: u64)
    requires
        pre.wf(),
        0 <= pj < 512,
        !pre.l4.entry_at(0, pj).present,
        find_spec(pre.l3.addrs(), f) is None,
        post.l4.addrs() == pre.l4.addrs(),
        post.l4.entries() == pre.l4.entries().update(
            pj,
            (Entry { present: true, writable: true, no_exec: false, addr: f }),
        ),
        post.l3.addrs() == pre.l3.addrs().push(f),
        post.l3.entries() == pre.l3.entries() + Seq::new(512, |k: int| empty_entry()),
        post.l2 == pre.l2,
        post.l1 == pre.l1,
    ensures
        forall|q: VirtualPage| post.translate(q) == pre.translate(q),
{
    assert forall|q: VirtualPage| post.translate(q) == pre.translate(q) by {
        let i4 = idx4(q.addr);
        assert(0 <= i4 < 512);
        if i4 == pj {
            lemma_find_spec_valid(pre.l3.addrs(), f);
            lemma_find_spec_push_new(pre.l3.addrs(), f);
            let t3 = pre.l3.table_count();
            assert(0 <= idx3(q.addr) < 512);
            assert(512 * t3 + idx3(q.addr) - pre.l3.entries().len() == idx3(q.addr));
            assert(post.l3.entry_at(t3, idx3(q.addr)) == empty_entry());
            assert(post.translate(q) is None);
            assert(pre.translate(q) is None);
        } else {
            assert(post.l4.entry_at(0, i4) == pre.l4.entry_at(0, i4));
            let e4 = pre.l4.entry_at(0, i4);
            if e4.present {
                lemma_find_spec_push(pre.l3.addrs(), e4.addr, f);
                lemma_find_spec_valid(pre.l3.addrs(), e4.addr);
                let t3 = find_spec(pre.l3.addrs(), e4.addr)->Some_0;
                lemma_slot_in_range(t3, idx3(q.addr), pre.l3.table_count());
                assert(post.l3.entry_at(t3, idx3(q.addr)) == pre.l3.entry_at(t3, idx3(q.addr)));
            }
        }
    }
}

/// Hanging a fresh, fully zeroed level-2 table under a previously absent
/// level-3 entry changes no translation.
proof fn lemma_grow_l2_preserves(pre: Mapper, post: Mapper, t3: int, i3: int, f: u64)
    requires
        pre.wf(),
        0 <= t3 < pre.l3.table_count(),
        0 <= i3 < 512,
        !pre.l3.entry_at(t3, i3).present,
        find_spec(pre.l2.addrs(), f) is None,
        post.l4 == pre.l4,
        post.l3.addrs() == pre.l3.addrs(),
        post.l3.entries() == pre.l3.entries().update(
            512 * t3 + i3,
            (Entry { present: true, writable: true, no_exec: false, addr: f }),
        ),
        post.l2.addrs() == pre.l2.addrs().push(f),
        post.l2.entries() == pre.l2.entries() + Seq::new(512, |k: int| empty_entry()),
        post.l1 == pre.l1,
    ensures
        forall|q: VirtualPage| post.translate(q) == pre.translate(q),
{
    assert forall|q: VirtualPage| post.translate(q) == pre.translate(q) by {
        let i4 = idx4(q.addr);
        let e4 = pre.l4.entry_at(0, i4);
        if e4.present && find_spec(pre.l3.addrs(), e4.addr) is Some {
            lemma_find_spec_valid(pre.l3.addrs(), e4.addr);
            let t3q = find_spec(pre.l3.addrs(), e4.addr)->Some_0;
            let i3q = idx3(q.addr);
            assert(0 <= i3q < 512);
            lemma_slot_in_range(t3q, i3q, pre.l3.table_count());
            if 512 * t3q + i3q == 512 * t3 + i3 {
                lemma_slot_injective(t3q, i3q, t3, i3);
                // the page was unmapped here and the fresh table maps nothing
                lemma_find_spec_valid(pre.l2.addrs(), f);
                lemma_find_spec_push_new(pre.l2.addrs(), f);
                let t2 = pre.l2.table_count();
                assert(0 <= idx2(q.addr) < 512);
                assert(512 * t2 + idx2(q.addr) - pre.l2.entries().len() == idx2(q.addr));
                assert(post.l2.entry_at(t2, idx2(q.addr)) == empty_entry());
                assert(pre.translate(q) is None);
                assert(post.translate(q) is None);
            } else {
                assert(post.l3.entry_at(t3q, i3q) == pre.l3.entry_at(t3q, i3q));
                let e3 = pre.l3.entry_at(t3q, i3q);
                if e3.present {
                    lemma_find_spec_push(pre.l2.addrs(), e3.addr, f);
                    lemma_find_spec_valid(pre.l2.addrs(), e3.addr);
                    let t2q = find_spec(pre.l2.addrs(), e3.addr)->Some_0;
                    lemma_slot_in_range(t2q, idx2(q.addr), pre.l2.table_count());
                    assert(post.l2.entry_at(t2q, idx2(q.addr)) == pre.l2.entry_at(
                        t2q,
                        idx2(q.addr),
                    ));
                }
            }
        }
    }
}

/// Hanging a fresh, fully zeroed leaf table under a previously absent
/// level-2 entry changes no translation.
proof fn lemma_grow_l1_preserves(pre: Mapper, post: Mapper, t2: int, i2: int, f: u64)
    requires
        pre.wf(),
        0 <= t2 < pre.l2.table_count(),
        0 <= i2 < 512,
        !pre.l2.entry_at(t2, i2).present,
        find_spec(pre.l1.addrs(), f) is None,
        post.l4 == pre.l4,
        post.l3 == pre.l3,
        post.l2.addrs() == pre.l2.addrs(),
        post.l2.entries() == pre.l2.entries().update(
            512 * t2 + i2,
            (Entry { present: true, writable: true, no_exec: false, addr: f }),
        ),
        post.l1.addrs() == pre.l1.addrs().push(f),
        post.l1.entries() == pre.l1.entries() + Seq::new(512, |k: int| empty_entry()),
    ensures
        forall|q: VirtualPage| post.translate(q) == pre.translate(q),
{
    assert forall|q: VirtualPage| post.translate(q) == pre.translate(q) by {
        let i4 = idx4(q.addr);
        let e4 = pre.l4.entry_at(0, i4);
        if e4.present && find_spec(pre.l3.addrs(), e4.addr) is Some {
            lemma_find_spec_valid(pre.l3.addrs(), e4.addr);
            let t3q = find_spec(pre.l3.addrs(), e4.addr)->Some_0;
            let e3 = pre.l3.entry_at(t3q, idx3(q.addr));
            if e3.present && find_spec(pre.l2.addrs(), e3.addr) is Some {
                lemma_find_spec_valid(pre.l2.addrs(), e3.addr);
                let t2q = find_spec(pre.l2.addrs(), e3.addr)->Some_0;
                let i2q = idx2(q.addr);
                assert(0 <= i2q < 512);
                lemma_slot_in_range(t2q, i2q, pre.l2.table_count());
                if 512 * t2q + i2q == 512 * t2 + i2 {
                    lemma_slot_injective(t2q, i2q, t2, i2);
                    lemma_find_spec_valid(pre.l1.addrs(), f);
                    lemma_find_spec_push_new(pre.l1.addrs(), f);
                    let t1 = pre.l1.table_count();
                    assert(0 <= idx1(q.addr) < 512);
                    assert(512 * t1 + idx1(q.addr) - pre.l1.entries().len() == idx1(q.addr));
                    assert(post.l1.entry_at(t1, idx1(q.addr)) == empty_entry());
                    assert(pre.translate(q) is None);
                    assert(post.translate(q) is None);
                } else {
                    assert(post.l2.entry_at(t2q, i2q) == pre.l2.entry_at(t2q, i2q));
                    let e2 = pre.l2.entry_at(t2q, i2q);
                    if e2.present {
                        lemma_find_spec_push(pre.l1.addrs(), e2.addr, f);
                        lemma_find_spec_valid(pre.l1.addrs(), e2.addr);
                        let t1q = find_spec(pre.l1.addrs(), e2.addr)->Some_0;
                        lemma_slot_in_range(t1q, idx1(q.addr), pre.l1.table_count());
                        assert(post.l1.entry_at(t1q, idx1(q.addr)) == pre.l1.entry_at(
                            t1q,
                            idx1(q.addr),
                        ));
                    }
                }
            }
        }
    }
}

/// Writing the leaf entry maps exactly the requested page and nothing
/// else: because present entries of each depth are pairwise distinct,
/// only one page's path ends in the written slot.
proof fn lemma_set_leaf(
    pre: Mapper,
    post: Mapper,
    page: VirtualPage,
    frame: Frame,
    flags: PageFlags,
    t3: int,
    t2: int,
    t1: int,
)
    requires
        pre.wf(),
        page_wf(page),
        pre.l4.entry_at(0, idx4(page.addr)).present,
        find_spec(pre.l3.addrs(), pre.l4.entry_at(0, idx4(page.addr)).addr) == Some(t3),
        pre.l3.entry_at(t3, idx3(page.addr)).present,
        find_spec(pre.l2.addrs(), pre.l3.entry_at(t3, idx3(page.addr)).addr) == Some(t2),
        pre.l2.entry_at(t2, idx2(page.addr)).present,
        find_spec(pre.l1.addrs(), pre.l2.entry_at(t2, idx2(page.addr)).addr) == Some(t1),
        !pre.l1.entry_at(t1, idx1(page.addr)).present,
        post.l4 == pre.l4,
        post.l3 == pre.l3,
        post.l2 == pre.l2,
        post.l1.addrs() == pre.l1.addrs(),
        post.l1.entries() == pre.l1.entries().update(
            512 * t1 + idx1(page.addr),
            (Entry {
                present: true,
                writable: flags.writable,
                no_exec: flags.no_exec,
                addr: frame.start,
            }),
        ),
    ensures
        pre.translate(page) is None,
        post.translate(page) == Some((frame.start, flags)),
        forall|q: VirtualPage|
            page_wf(q) && q != page ==> post.translate(q) == pre.translate(q),
{
    lemma_find_spec_valid(pre.l1.addrs(), pre.l2.entry_at(t2, idx2(page.addr)).addr);
    lemma_find_spec_valid(pre.l2.addrs(), pre.l3.entry_at(t3, idx3(page.addr)).addr);
    lemma_find_spec_valid(pre.l3.addrs(), pre.l4.entry_at(0, idx4(page.addr)).addr);
    assert(0 <= idx1(page.addr) < 512);
    lemma_slot_in_range(t1, idx1(page.addr), pre.l1.table_count());
    assert(post.l1.entry_at(t1, idx1(page.addr)) == (Entry {
        present: true,
        writable: flags.writable,
        no_exec: flags.no_exec,
        addr: frame.start,
    }));
    assert(post.translate(page) == Some((frame.start, flags)));
    assert forall|q: VirtualPage|
        page_wf(q) && q != page implies post.translate(q) == pre.translate(q) by {
        let i4q = idx4(q.addr);
        let e4q = pre.l4.entry_at(0, i4q);
        if e4q.present && find_spec(pre.l3.addrs(), e4q.addr) is Some {
            lemma_find_spec_valid(pre.l3.addrs(), e4q.addr);
            let t3q = find_spec(pre.l3.addrs(), e4q.addr)->Some_0;
            let e3q = pre.l3.entry_at(t3q, idx3(q.addr));
            if e3q.present && find_spec(pre.l2.addrs(), e3q.addr) is Some {
                lemma_find_spec_valid(pre.l2.addrs(), e3q.addr);
                let t2q = find_spec(pre.l2.addrs(), e3q.addr)->Some_0;
                let e2q = pre.l2.entry_at(t2q, idx2(q.addr));
                if e2q.present && find_spec(pre.l1.addrs(), e2q.addr) is Some {
                    lemma_find_spec_valid(pre.l1.addrs(), e2q.addr);
                    let t1q = find_spec(pre.l1.addrs(), e2q.addr)->Some_0;
                    let i1q = idx1(q.addr);
                    assert(0 <= i1q < 512);
                    lemma_slot_in_range(t1q, i1q, pre.l1.table_count());
                    if 512 * t1q + i1q == 512 * t1 + idx1(page.addr) {
                        // the two paths end in the same slot: show they are
                        // one path, contradicting q != page
                        lemma_slot_injective(t1q, i1q, t1, idx1(page.addr));
                        // same leaf table: its level-2 entries coincide
                        assert(pre.l1.addrs()[t1q] == e2q.addr);
                        assert(pre.l1.addrs()[t1] == pre.l2.entry_at(t2, idx2(page.addr)).addr);
                        assert(e2q.addr == pre.l2.entry_at(t2, idx2(page.addr)).addr);
                        assert(t2q == t2 && idx2(q.addr) == idx2(page.addr));
                        assert(pre.l2.addrs()[t2q] == e3q.addr);
                        assert(pre.l2.addrs()[t2] == pre.l3.entry_at(t3, idx3(page.addr)).addr);
                        assert(e3q.addr == pre.l3.entry_at(t3, idx3(page.addr)).addr);
                        assert(t3q == t3 && idx3(q.addr) == idx3(page.addr));
                        assert(pre.l3.addrs()[t3q] == e4q.addr);
                        assert(pre.l3.addrs()[t3] == pre.l4.entry_at(0, idx4(page.addr)).addr);
                        assert(e4q.addr == pre.l4.entry_at(0, idx4(page.addr)).addr);
                        assert(i4q == idx4(page.addr));
                        lemma_indices_determine(q.addr, page.addr);
                        assert(false);
                    } else {
                        assert(post.l1.entry_at(t1q, i1q) == pre.l1.entry_at(t1q, i1q));
                    }
                }
            }
        }
    }
}


impl Mapper {
    /// The virtual base at which all physical memory is visible: table
    /// frames are read and written through it on real hardware.
    pub fn phys_offset(&self) -> (r: u64)
        ensures
            r == self.phys_offset_spec(),
    {
        self.phys_offset
    }

    /// Reads what the hierarchy currently maps `page` to, without
    /// changing anything.
    pub fn lookup(&self, page: VirtualPage) -> (r: Option<(u64, PageFlags)>)
        requires
            self.wf(),
        ensures
            r == self.translate(page),
    {
        let n = page.addr / 4096;
        let n1 = n / 512;
        let n2 = n1 / 512;
        let n3 = n2 / 512;
        let i1 = (n % 512) as usize;
        let i2 = (n1 % 512) as usize;
        let i3 = (n2 % 512) as usize;
        let i4 = (n3 % 512) as usize;
        let e4 = self.l4.get_entry(0, i4);
        if !e4.present {
            return None;
        }
        let t3 = match self.l3.find(e4.addr) {
            Some(t) => t,
            None => {
                return None;
            },
        };
        proof {
            lemma_find_spec_valid(self.l3.addrs(), e4.addr);
        }
        let e3 = self.l3.get_entry(t3, i3);
        if !e3.present {
            return None;
        }
        let t2 = match self.l2.find(e3.addr) {
            Some(t) => t,
            None => {
                return None;
            },
        };
        proof {
            lemma_find_spec_valid(self.l2.addrs(), e3.addr);
        }
        let e2 = self.l2.get_entry(t2, i2);
        if !e2.present {
            return None;
        }
        let t1 = match self.l1.find(e2.addr) {
            Some(t) => t,
            None => {
                return None;
            },
        };
        proof {
            lemma_find_spec_valid(self.l1.addrs(), e2.addr);
        }
        let e1 = self.l1.get_entry(t1, i1);
        if !e1.present {
            return None;
        }
        Some((e1.addr, PageFlags { writable: e1.writable, no_exec: e1.no_exec }))
    }

    /// Maps `page` to `frame` with the requested permissions.
    ///
    /// The walk from the root allocates any missing intermediate table
    /// from `fs` — zeroed first, made reachable last — and installs the
    /// leaf entry as the final step. The call refuses to overwrite: a
    /// present leaf entry yields `PageAlreadyMapped` with nothing changed.
    /// A dry frame source mid-walk yields `FrameAllocationFailed`; tables
    /// already installed stay, but no translation has changed. Success is
    /// certain when the page is unmapped and at least three frames remain.
    pub fn map_page(
        &mut self,
        page: VirtualPage,
        frame: Frame,
        flags: PageFlags,
        fs: &mut BootInfoFrameAllocator,
    ) -> (r: Result<(), MapError>)
        requires
            old(self).wf(),
            old(fs).wf(),
            page_wf(page),
            usable_regions_disjoint(old(fs).regions()),
            old(self).tables_from(given_frames(*old(fs))),
            !old(self).frame_in_use(frame.start),
        ensures
            final(self).wf(),
            final(fs).wf(),
            final(fs).regions() == old(fs).regions(),
            final(self).phys_offset_spec() == old(self).phys_offset_spec(),
            final(self).tables_from(given_frames(*final(fs))),
            old(fs).served() <= final(fs).served() <= old(fs).served() + 3,
            match r {
                Ok(()) => {
                    &&& old(self).translate(page) is None
                    &&& final(self).translate(page) == Some((frame.start, flags))
                    &&& forall|q: VirtualPage|
                        page_wf(q) && q != page ==> final(self).translate(q) == old(
                            self,
                        ).translate(q)
                    &&& forall|f: u64|
                        final(self).frame_in_use(f) <==> f == frame.start || old(
                            self,
                        ).frame_in_use(f)
                },
                Err(MapError::PageAlreadyMapped) => {
                    &&& old(self).translate(page) is Some
                    &&& *final(self) == *old(self)
                    &&& *final(fs) == *old(fs)
                },
                Err(MapError::FrameAllocationFailed) => {
                    &&& final(fs).served() == frame_seq(old(fs).regions()).len()
                    &&& forall|q: VirtualPage|
                        final(self).translate(q) == old(self).translate(q)
                    &&& forall|f: u64|
                        final(self).frame_in_use(f) <==> old(self).frame_in_use(f)
                },
            },
            old(self).translate(page) is None && old(fs).served() + 3 <= frame_seq(
                old(fs).regions(),
            ).len() ==> r == Ok::<(), MapError>(()),
    {
        let n = page.addr / 4096;
        let n1 = n / 512;
        let n2 = n1 / 512;
        let n3 = n2 / 512;
        let i1 = (n % 512) as usize;
        let i2 = (n1 % 512) as usize;
        let i3 = (n2 % 512) as usize;
        let i4 = (n3 % 512) as usize;
        let ghost s0 = *self;
        let ghost f0 = *fs;

        // root depth down to level 3
        let t3 = match ensure_child(&mut self.l4, 0, i4, &mut self.l3, fs) {
            Ok(t) => t,
            Err(e) => {
                return Err(e);
            },
        };
        proof {
            if !s0.l4.entry_at(0, i4 as int).present {
                let f = frame_seq(f0.regions())[f0.served()];
                lemma_served_in_range(f0);
                assert(given_frames(*fs) =~= given_frames(f0).push(f));
                lemma_extend_keeps_linked(s0.l3, self.l3, f, self.l2);
                lemma_extend_keeps_injective(s0.l3, self.l3, f);
                lemma_addrs_from_push(self.l2, given_frames(f0), f);
                lemma_addrs_from_push(self.l1, given_frames(f0), f);
                lemma_grow_l3_preserves(s0, *self, i4 as int, f);
            } else {
                assert(*self == s0);
            }
            assert(self.wf());
            assert(self.tables_from(given_frames(*fs)));
            assert(forall|q: VirtualPage| self.translate(q) == s0.translate(q));
        }
        let ghost s1 = *self;
        let ghost f1 = *fs;

        // level 3 down to level 2
        let t2 = match ensure_child(&mut self.l3, t3, i3, &mut self.l2, fs) {
            Ok(t) => t,
            Err(e) => {
                return Err(e);
            },
        };
        proof {
            if !s1.l3.entry_at(t3 as int, i3 as int).present {
                let f = frame_seq(f1.regions())[f1.served()];
                lemma_served_in_range(f1);
                assert(given_frames(*fs) =~= given_frames(f1).push(f));
                lemma_extend_keeps_linked(s1.l2, self.l2, f, self.l1);
                lemma_extend_keeps_injective(s1.l2, self.l2, f);
                lemma_addrs_from_push(self.l3, given_frames(f1), f);
                lemma_addrs_from_push(self.l1, given_frames(f1), f);
                // the root depth still links into level 3: only entries of
                // level 3 changed, not its tables
                assert forall|t: int, j: int|
                    0 <= t < self.l4.table_count() && 0 <= j < 512 && (#[trigger] self.l4.entry_at(
                        t,
                        j,
                    )).present implies find_spec(
                    self.l3.addrs(),
                    self.l4.entry_at(t, j).addr,
                ) is Some by {
                    assert(s1.l4.entry_at(t, j) == self.l4.entry_at(t, j));
                }
                lemma_grow_l2_preserves(s1, *self, t3 as int, i3 as int, f);
            } else {
                assert(*self == s1);
            }
            assert(self.wf());
            assert(self.tables_from(given_frames(*fs)));
            assert(forall|q: VirtualPage| self.translate(q) == s0.translate(q));
        }
        let ghost s2 = *self;
        let ghost f2 = *fs;

        // level 2 down to the leaf depth
        let t1 = match ensure_child(&mut self.l2, t2, i2, &mut self.l1, fs) {
            Ok(t) => t,
            Err(e) => {
                return Err(e);
            },
        };
        proof {
            if !s2.l2.entry_at(t2 as int, i2 as int).present {
                let f = frame_seq(f2.regions())[f2.served()];
                lemma_served_in_range(f2);
                assert(given_frames(*fs) =~= given_frames(f2).push(f));
                lemma_addrs_from_push(self.l3, given_frames(f2), f);
                lemma_addrs_from_push(self.l2, given_frames(f2), f);
                lemma_extend_keeps_injective(s2.l1, self.l1, f);
                assert forall|t: int, j: int|
                    0 <= t < self.l3.table_count() && 0 <= j < 512 && (#[trigger] self.l3.entry_at(
                        t,
                        j,
                    )).present implies find_spec(
                    self.l2.addrs(),
                    self.l3.entry_at(t, j).addr,
                ) is Some by {
                    assert(s2.l3.entry_at(t, j) == self.l3.entry_at(t, j));
                }
                lemma_grow_l1_preserves(s2, *self, t2 as int, i2 as int, f);
            } else {
                assert(*self == s2);
            }
            assert(self.wf());
            assert(self.tables_from(given_frames(*fs)));
            assert(forall|q: VirtualPage| self.translate(q) == s0.translate(q));
            assert forall|f: u64| self.frame_in_use(f) <==> s0.frame_in_use(f) by {
                if self.frame_in_use(f) {
                    let (t, j) = choose|t: int, j: int|
                        0 <= t < self.l1.table_count() && 0 <= j < 512 && (
                        #[trigger] self.l1.entry_at(t, j)).present && self.l1.entry_at(t, j).addr
                            == f;
                    if t >= s0.l1.table_count() {
                        lemma_slot_in_range(t, j, self.l1.table_count());
                        assert(512 * t + j - s0.l1.entries().len() == j);
                        assert(self.l1.entry_at(t, j) == empty_entry());
                    } else {
                        lemma_slot_in_range(t, j, s0.l1.table_count());
                        assert(s0.l1.entry_at(t, j) == self.l1.entry_at(t, j));
                    }
                }
                if s0.frame_in_use(f) {
                    let (t, j) = choose|t: int, j: int|
                        0 <= t < s0.l1.table_count() && 0 <= j < 512 && (#[trigger] s0.l1.entry_at(
                            t,
                            j,
                        )).present && s0.l1.entry_at(t, j).addr == f;
                    lemma_slot_in_range(t, j, s0.l1.table_count());
                    assert(self.l1.entry_at(t, j) == s0.l1.entry_at(t, j));
                }
            }
        }
        let ghost s3 = *self;

        let e1 = self.l1.get_entry(t1, i1);
        if e1.present {
            proof {
                // a present leaf can only have been reached through tables
                // that all existed before the call: a freshly grown table
                // maps nothing, so each step took its existing branch
                if !s2.l2.entry_at(t2 as int, i2 as int).present {
                    assert(512 * (t1 as int) + (i1 as int) - s2.l1.entries().len() == i1 as int);
                    assert(s3.l1.entry_at(t1 as int, i1 as int) == empty_entry());
                    assert(false);
                }
                assert(s3 == s2 && *fs == f2);
                if !s1.l3.entry_at(t3 as int, i3 as int).present {
                    assert(512 * (t2 as int) + (i2 as int) - s1.l2.entries().len() == i2 as int);
                    assert(s2.l2.entry_at(t2 as int, i2 as int) == empty_entry());
                    assert(false);
                }
                assert(s2 == s1 && f2 == f1);
                if !s0.l4.entry_at(0, i4 as int).present {
                    assert(512 * (t3 as int) + (i3 as int) - s0.l3.entries().len() == i3 as int);
                    assert(s1.l3.entry_at(t3 as int, i3 as int) == empty_entry());
                    assert(false);
                }
                assert(s1 == s0 && f1 == f0);
                assert(s0.translate(page) == Some(
                    (e1.addr, PageFlags { writable: e1.writable, no_exec: e1.no_exec }),
                ));
            }
            return Err(MapError::PageAlreadyMapped);
        }
        self.l1.set_entry(
            t1,
            i1,
            Entry {
                present: true,
                writable: flags.writable,
                no_exec: flags.no_exec,
                addr: frame.start,
            },
        );
        proof {
            lemma_set_leaf(s3, *self, page, frame, flags, t3 as int, t2 as int, t1 as int);
            let ghost slot = 512 * t1 as int + i1 as int;
            lemma_slot_in_range(t1 as int, i1 as int, s3.l1.table_count());
            assert forall|x1: int, y1: int, x2: int, y2: int|
                #![trigger self.l1.entry_at(x1, y1), self.l1.entry_at(x2, y2)]
                0 <= x1 < self.l1.table_count() && 0 <= y1 < 512 && 0 <= x2
                    < self.l1.table_count() && 0 <= y2 < 512 && (x1 != x2 || y1 != y2)
                    && self.l1.entry_at(x1, y1).present && self.l1.entry_at(
                    x2,
                    y2,
                ).present implies self.l1.entry_at(x1, y1).addr != self.l1.entry_at(
                    x2,
                    y2,
                ).addr by {
                lemma_slot_in_range(x1, y1, s3.l1.table_count());
                lemma_slot_in_range(x2, y2, s3.l1.table_count());
                if 512 * x1 + y1 == slot && 512 * x2 + y2 != slot {
                    assert(self.l1.entry_at(x2, y2) == s3.l1.entry_at(x2, y2));
                    assert(!s3.frame_in_use(frame.start));
                } else if 512 * x1 + y1 != slot && 512 * x2 + y2 == slot {
                    assert(self.l1.entry_at(x1, y1) == s3.l1.entry_at(x1, y1));
                    assert(!s3.frame_in_use(frame.start));
                } else if 512 * x1 + y1 == slot && 512 * x2 + y2 == slot {
                    lemma_slot_injective(x1, y1, x2, y2);
                } else {
                    assert(self.l1.entry_at(x1, y1) == s3.l1.entry_at(x1, y1));
                    assert(self.l1.entry_at(x2, y2) == s3.l1.entry_at(x2, y2));
                }
            }
            assert forall|f: u64|
                self.frame_in_use(f) <==> f == frame.start || s3.frame_in_use(f) by {
                if self.frame_in_use(f) && f != frame.start {
                    let (t, j) = choose|t: int, j: int|
                        0 <= t < self.l1.table_count() && 0 <= j < 512 && (
                        #[trigger] self.l1.entry_at(t, j)).present && self.l1.entry_at(t, j).addr
                            == f;
                    lemma_slot_in_range(t, j, s3.l1.table_count());
                    if 512 * t + j == slot {
                        lemma_slot_injective(t, j, t1 as int, i1 as int);
                    } else {
                        assert(s3.l1.entry_at(t, j) == self.l1.entry_at(t, j));
                    }
                }
                if f == frame.start {
                    assert(self.l1.entry_at(t1 as int, i1 as int).present && self.l1.entry_at(
                        t1 as int,
                        i1 as int,
                    ).addr == f);
                }
                if s3.frame_in_use(f) {
                    let (t, j) = choose|t: int, j: int|
                        0 <= t < s3.l1.table_count() && 0 <= j < 512 && (#[trigger] s3.l1.entry_at(
                            t,
                            j,
                        )).present && s3.l1.entry_at(t, j).addr == f;
                    lemma_slot_in_range(t, j, s3.l1.table_count());
                    if 512 * t + j == slot {
                        lemma_slot_injective(t, j, t1 as int, i1 as int);
                        assert(false);
                    } else {
                        assert(self.l1.entry_at(t, j) == s3.l1.entry_at(t, j));
                    }
                }
            }
            // only leaf entries changed: the hierarchy shape is untouched
            assert forall|t: int, j: int|
                0 <= t < self.l2.table_count() && 0 <= j < 512 && (#[trigger] self.l2.entry_at(
                    t,
                    j,
                )).present implies find_spec(
                self.l1.addrs(),
                self.l2.entry_at(t, j).addr,
            ) is Some by {
                assert(s3.l2.entry_at(t, j) == self.l2.entry_at(t, j));
            }
            assert(self.wf());
            assert(self.tables_from(given_frames(*fs)));
        }
        Ok(())
    }
}


/// Growing the record of handed-out frames keeps every table accounted
/// for.
pub proof fn lemma_tables_from_push(m: Mapper, given: Seq<u64>, x: u64)
    requires
        m.tables_from(given),
    ensures
        m.tables_from(given.push(x)),
{
    lemma_addrs_from_push(m.l3, given, x);
    lemma_addrs_from_push(m.l2, given, x);
    lemma_addrs_from_push(m.l1, given, x);
}

/// The physical byte a virtual address reaches: its page's frame plus the
/// offset within the page — or nothing, where the page is unmapped.
pub open spec fn phys_addr_of(m: Mapper, va: u64) -> Option<int> {
    let page = VirtualPage { addr: ((va as int / 4096) * 4096) as u64 };
    match m.translate(page) {
        Some(t) => Some(t.0 + (va as int % 4096)),
        None => None,
    }
}

/// Mapping round-trip (law): through a mapping of `page` to frame `f`,
/// every virtual address of the page reaches physical byte
/// `f + (va - page.addr)`. Writing a byte there through the virtual
/// address and reading it back yields the same byte, and the
/// physical-memory-offset alias of the frame names the very same cell, so
/// it reads the identical byte. Physical memory is the map `mem` here;
/// that the hardware honours the translation and the offset mirror is the
/// boot-time premise this model rests on.
pub proof fn lemma_mapping_round_trip(
    m: Mapper,
    page: VirtualPage,
    f: u64,
    fl: PageFlags,
    mem: Map<int, u8>,
    va: u64,
    b: u8,
)
    requires
        page_wf(page),
        m.translate(page) == Some((f, fl)),
        page.addr <= va < page.addr + 4096,
    ensures
        phys_addr_of(m, va) == Some(f + (va - page.addr)),
        mem.insert(f + (va - page.addr), b)[f + (va - page.addr)] == b,
{
    lemma_fundamental_div_mod(page.addr as int, 4096);
    lemma_fundamental_div_mod_converse(
        va as int,
        4096,
        page.addr as int / 4096,
        va as int - page.addr as int,
    );
    assert(((va as int / 4096) * 4096) as u64 == page.addr);
}


/// Frame non-aliasing (law): a physical frame backs at most one virtual
/// page at a time — two distinct mapped pages never translate to the same
/// frame. Paths through the hierarchy never merge (present entries of each
/// depth point at pairwise-distinct children, leaf entries included), and
/// a page's index slices pin its path, so distinct pages end in distinct
/// leaf entries with distinct frame addresses.
pub proof fn lemma_no_frame_aliasing(m: Mapper, q1: VirtualPage, q2: VirtualPage)
    requires
        m.wf(),
        page_wf(q1),
        page_wf(q2),
        q1 != q2,
        m.translate(q1) is Some,
        m.translate(q2) is Some,
    ensures
        (m.translate(q1)->Some_0).0 != (m.translate(q2)->Some_0).0,
{
    let e4_1 = m.l4.entry_at(0, idx4(q1.addr));
    let t3_1 = find_spec(m.l3.addrs(), e4_1.addr)->Some_0;
    let e3_1 = m.l3.entry_at(t3_1, idx3(q1.addr));
    let t2_1 = find_spec(m.l2.addrs(), e3_1.addr)->Some_0;
    let e2_1 = m.l2.entry_at(t2_1, idx2(q1.addr));
    let t1_1 = find_spec(m.l1.addrs(), e2_1.addr)->Some_0;
    let e4_2 = m.l4.entry_at(0, idx4(q2.addr));
    let t3_2 = find_spec(m.l3.addrs(), e4_2.addr)->Some_0;
    let e3_2 = m.l3.entry_at(t3_2, idx3(q2.addr));
    let t2_2 = find_spec(m.l2.addrs(), e3_2.addr)->Some_0;
    let e2_2 = m.l2.entry_at(t2_2, idx2(q2.addr));
    let t1_2 = find_spec(m.l1.addrs(), e2_2.addr)->Some_0;
    lemma_find_spec_valid(m.l3.addrs(), e4_1.addr);
    lemma_find_spec_valid(m.l2.addrs(), e3_1.addr);
    lemma_find_spec_valid(m.l1.addrs(), e2_1.addr);
    lemma_find_spec_valid(m.l3.addrs(), e4_2.addr);
    lemma_find_spec_valid(m.l2.addrs(), e3_2.addr);
    lemma_find_spec_valid(m.l1.addrs(), e2_2.addr);
    assert(0 <= idx1(q1.addr) < 512 && 0 <= idx1(q2.addr) < 512);
    if t1_1 == t1_2 && idx1(q1.addr) == idx1(q2.addr) {
        // the two paths end in the same leaf slot: they must be one path,
        // so the pages' index slices all agree — but then q1 == q2
        assert(m.l1.addrs()[t1_1] == e2_1.addr && m.l1.addrs()[t1_2] == e2_2.addr);
        assert(e2_1.addr == e2_2.addr);
        assert(t2_1 == t2_2 && idx2(q1.addr) == idx2(q2.addr));
        assert(m.l2.addrs()[t2_1] == e3_1.addr && m.l2.addrs()[t2_2] == e3_2.addr);
        assert(e3_1.addr == e3_2.addr);
        assert(t3_1 == t3_2 && idx3(q1.addr) == idx3(q2.addr));
        assert(m.l3.addrs()[t3_1] == e4_1.addr && m.l3.addrs()[t3_2] == e4_2.addr);
        assert(e4_1.addr == e4_2.addr);
        assert(idx4(q1.addr) == idx4(q2.addr));
        lemma_indices_determine(q1.addr, q2.addr);
        assert(false);
    }
    lemma_slot_in_range(t1_1, idx1(q1.addr), m.l1.table_count());
    lemma_slot_in_range(t1_2, idx1(q2.addr), m.l1.table_count());
    assert(m.l1.entry_at(t1_1, idx1(q1.addr)).addr != m.l1.entry_at(t1_2, idx1(q2.addr)).addr);
}

} // verus!
