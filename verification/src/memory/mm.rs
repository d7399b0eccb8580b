//! Sets of memory regions, each set behind a page table that maps exactly
//! the regions of the set.
use vstd::prelude::*;
use crate::arch::riscv::csr::{CsrAccess, CsrOp, CSR_HGATP, CSR_SATP};
use crate::error::{HvError, HvResult};
use crate::memory::addr::{align_down, align_up};
use crate::memory::frame::{Frame, FrameAllocator};
use crate::memory::paging::{
    exhausted, level_size, map_args_ok, mapped_to, mapped_up_to, root_available, stage_limit,
    PageTable, Stage, Translation, PADDR_LIMIT,
};
use crate::memory::MemFlags;

verus! {

/// How the addresses of a region are turned into physical addresses.
#[derive(Clone, Copy, Debug, PartialEq, Eq, Structural)]
pub enum Mapper {
    /// The region's first address goes to `host_base`, and every other
    /// address as far behind `host_base` as it lies behind the first.
    Offset { host_base: u64 },
    /// The region lies in a run of `frame_count` frames from the allocator
    /// that starts at `start_paddr`, page by page in the order of the run.
    Frames { start_paddr: u64, frame_count: usize },
}

/// A range of addresses with the rights and the physical memory behind it.
#[derive(Clone, Copy, Debug, PartialEq, Eq, Structural)]
pub struct MemoryRegion {
    pub start: u64,
    pub size: u64,
    pub flags: MemFlags,
    pub mapper: Mapper,
}

/// The fence that makes a change of translation visible.
#[derive(Clone, Copy, Debug, PartialEq, Eq, Structural)]
pub enum Fence {
    /// `sfence.vma`, for the hypervisor's own stage.
    SfenceVma,
    /// `hfence.gvma`, for a guest's stage.
    HfenceGvma,
}

/// What is to be done to put a table into use: a register is written, then a
/// fence is issued.
#[derive(Clone, Copy, Debug, PartialEq, Eq, Structural)]
pub struct Activation {
    pub write: CsrOp,
    pub fence: Fence,
}

/// The translation mode of three levels, in the mode field of `satp` and
/// `hgatp`.
pub const MODE_SV39: u64 = 0x8000_0000_0000_0000;

impl MemoryRegion {
    /// The first address behind the region.
    pub open spec fn end(&self) -> int {
        self.start + self.size
    }

    /// The physical address that the region's first address goes to.
    pub open spec fn host_base(&self) -> u64 {
        match self.mapper {
            Mapper::Offset { host_base } => host_base,
            Mapper::Frames { start_paddr, .. } => start_paddr,
        }
    }

    /// Whether the memory behind the region is as long as the region: a
    /// run of frames has to have exactly the region's pages.
    pub open spec fn backed(&self) -> bool {
        match self.mapper {
            Mapper::Offset { .. } => true,
            Mapper::Frames { frame_count, .. } => self.size == frame_count * 0x1000,
        }
    }

    /// Whether `v` is an address of the region.
    pub open spec fn covers(&self, v: int) -> bool {
        self.start <= v < self.end()
    }

    /// Where the region sends its address `v`.
    pub open spec fn translation(&self, v: int) -> Translation {
        Translation { paddr: (self.host_base() + (v - self.start)) as u64, flags: self.flags }
    }

    /// Whether the two regions share an address.
    pub open spec fn overlaps(&self, other: &MemoryRegion) -> bool {
        self.start < other.end() && other.start < self.end()
    }

    /// Whether a table of `stage` can map the region: it starts and ends on
    /// page boundaries, as does the memory behind it, it lies within the
    /// stage's reach, and the memory behind it within physical memory.
    pub open spec fn fits(&self, stage: Stage) -> bool {
        map_args_ok(stage, self.start, self.host_base(), self.size) && self.backed()
    }

    /// The region of `size` bytes from `start_vaddr` that goes to the memory
    /// from `start_paddr`: both addresses are rounded down to a page
    /// boundary and the size is rounded up to whole pages.
    pub fn new_with_offset_mapper(start_vaddr: u64, start_paddr: u64, size: u64, flags: MemFlags) -> (r:
        Self)
        requires
            size + 0xfff <= u64::MAX,
        ensures
            r.start == crate::memory::addr::align_down_spec(start_vaddr as int),
            r.size == crate::memory::addr::align_up_spec(size as int),
            r.flags == flags,
            r.mapper == (Mapper::Offset {
                host_base: crate::memory::addr::align_down_spec(start_paddr as int) as u64,
            }),
    {
        MemoryRegion {
            start: align_down(start_vaddr),
            size: align_up(size),
            flags,
            mapper: Mapper::Offset { host_base: align_down(start_paddr) },
        }
    }

    /// The region from `start_vaddr`, rounded down to a page boundary, that
    /// lies in the pages of `frame`.
    pub fn new_with_frame_mapper(start_vaddr: u64, frame: &Frame, flags: MemFlags) -> (r: Self)
        ensures
            r.start == crate::memory::addr::align_down_spec(start_vaddr as int),
            r.size == frame.count() * 0x1000,
            r.flags == flags,
            r.mapper == (Mapper::Frames {
                start_paddr: frame.start() as u64,
                frame_count: frame.count() as usize,
            }),
            r.backed(),
    {
        MemoryRegion {
            start: align_down(start_vaddr),
            size: frame.size(),
            flags,
            mapper: Mapper::Frames {
                start_paddr: frame.start_paddr(),
                frame_count: frame.frame_count(),
            },
        }
    }
}

/// Whether each region ends where the next starts, or before.
pub open spec fn sorted_disjoint(regions: Seq<MemoryRegion>) -> bool {
    forall|i: int, j: int|
        0 <= i < j < regions.len() ==> (#[trigger] regions[i]).end() <= (#[trigger] regions[j]).start
}

/// Whether every region is not empty and fits a table of `stage`.
pub open spec fn all_fit(regions: Seq<MemoryRegion>, stage: Stage) -> bool {
    forall|i: int| 0 <= i < regions.len() ==> (#[trigger] regions[i]).size > 0 && regions[i].fits(stage)
}

/// Whether `table` maps exactly the regions: an address of a region goes
/// where the region sends it, and no other address is mapped.
pub open spec fn mirrors(table: &PageTable, regions: Seq<MemoryRegion>) -> bool {
    &&& forall|i: int, v: int|
        0 <= i < regions.len() && #[trigger] regions[i].covers(v) ==> table.translate(v) == Some(
            regions[i].translation(v),
        )
    &&& forall|v: int|
        (#[trigger] table.translate(v)) is Some ==> exists|i: int|
            0 <= i < regions.len() && #[trigger] regions[i].covers(v)
    &&& forall|i: int|
        0 <= i < regions.len() ==> table.closed((#[trigger] regions[i]).start as int, regions[i].end())
}

/// A range that is mapped by whole blocks stays so when the table changes
/// only within another range that shares no address with it.
pub proof fn lemma_closed_kept(
    before: &PageTable,
    after: &PageTable,
    lo: int,
    hi: int,
    a: int,
    b: int,
)
    requires
        before.closed(lo, hi),
        after.same_outside(before, a, b),
        after.stage() == before.stage(),
        0 <= lo,
        hi <= stage_limit(before.stage()),
        hi <= a || b <= lo,
    ensures
        after.closed(lo, hi),
{
    assert forall|v: int| lo <= v < hi implies (#[trigger] after.translate(v)) is Some && lo
        <= after.block_start(v) && after.block_end(v) <= hi by {
        assert(before.translate(v) is Some);
    }
}


/// Whether `region` shares an address with one of `regions`.
pub open spec fn overlaps_any(regions: Seq<MemoryRegion>, region: MemoryRegion) -> bool {
    exists|i: int| 0 <= i < regions.len() && (#[trigger] regions[i]).overlaps(&region)
}

/// Whether `idx` is the place of `region` among `regions`: behind every
/// region that starts before it, before every other.
pub open spec fn is_place(regions: Seq<MemoryRegion>, region: MemoryRegion, idx: int) -> bool {
    &&& 0 <= idx <= regions.len()
    &&& forall|i: int| 0 <= i < idx ==> (#[trigger] regions[i]).start < region.start
    &&& forall|i: int| idx <= i < regions.len() ==> (#[trigger] regions[i]).start >= region.start
}

/// What becomes of `regions` when `region` is put into a set of `stage`
/// that holds them, as long as frames are to be had: an empty region
/// changes nothing; a region that does not fit the stage is a bad
/// parameter; one that shares an address with a region of the set is an
/// overlap; any other takes its place in the order.
pub open spec fn inserted(regions: Seq<MemoryRegion>, region: MemoryRegion, stage: Stage) -> Result<
    Seq<MemoryRegion>,
    HvError,
> {
    if region.size == 0 {
        Ok(regions)
    } else if !region.fits(stage) {
        Err(HvError::BadParam)
    } else if overlaps_any(regions, region) {
        Err(HvError::Overlap)
    } else {
        Ok(regions.insert(choose|idx: int| is_place(regions, region, idx), region))
    }
}

/// What becomes of `regions` when the regions of `todo` are put into the
/// set one after the other, as long as frames are to be had: the first that
/// is refused ends it with its error.
pub open spec fn inserted_all(regions: Seq<MemoryRegion>, todo: Seq<MemoryRegion>, stage: Stage) -> Result<
    Seq<MemoryRegion>,
    HvError,
>
    decreases todo.len(),
{
    if todo.len() == 0 {
        Ok(regions)
    } else {
        match inserted(regions, todo[0], stage) {
            Ok(next) => inserted_all(next, todo.subrange(1, todo.len() as int), stage),
            Err(e) => Err(e),
        }
    }
}

/// Putting in one more region at the end is putting in the others first.
pub proof fn lemma_inserted_all_push(
    regions: Seq<MemoryRegion>,
    todo: Seq<MemoryRegion>,
    last: MemoryRegion,
    stage: Stage,
)
    ensures
        inserted_all(regions, todo.push(last), stage) == match inserted_all(regions, todo, stage) {
            Ok(next) => inserted(next, last, stage),
            Err(e) => Err(e),
        },
    decreases todo.len(),
{
    let all = todo.push(last);
    if todo.len() == 0 {
        assert(all.subrange(1, all.len() as int) =~= Seq::<MemoryRegion>::empty());
        match inserted(regions, last, stage) {
            Ok(next) => {
                assert(inserted_all(next, Seq::<MemoryRegion>::empty(), stage) == Ok::<
                    Seq<MemoryRegion>,
                    HvError,
                >(next));
            },
            Err(e) => {},
        }
    } else {
        assert(all[0] == todo[0]);
        assert(all.subrange(1, all.len() as int) =~= todo.subrange(1, todo.len() as int).push(last));
        match inserted(regions, todo[0], stage) {
            Ok(next) => {
                lemma_inserted_all_push(next, todo.subrange(1, todo.len() as int), last, stage);
            },
            Err(e) => {},
        }
    }
}

/// A region has one place in an ordered list.
pub proof fn lemma_place_unique(regions: Seq<MemoryRegion>, region: MemoryRegion, a: int, b: int)
    requires
        is_place(regions, region, a),
        is_place(regions, region, b),
    ensures
        a == b,
{
    if a < b {
        assert(regions[a].start >= region.start);
        assert(regions[a].start < region.start);
    }
    if b < a {
        assert(regions[b].start >= region.start);
        assert(regions[b].start < region.start);
    }
}

/// Whether `region` shares an address with none of `regions`.
pub open spec fn apart(regions: Seq<MemoryRegion>, region: MemoryRegion) -> bool {
    forall|i: int| 0 <= i < regions.len() ==> !(#[trigger] regions[i]).overlaps(&region)
}

/// Whether `after` maps `region` as the region says and every other
/// address as `before` does.
pub open spec fn region_mapped(before: &PageTable, after: &PageTable, region: MemoryRegion) -> bool {
    &&& after.wf()
    &&& after.stage() == before.stage()
    &&& forall|v: int| #[trigger]
        after.translate(v) == if region.covers(v) {
            mapped_to(region.start, region.host_base(), region.flags, v)
        } else {
            before.translate(v)
        }
    &&& after.same_outside(before, region.start as int, region.end())
    &&& after.closed(region.start as int, region.end())
}

/// Whether `after` maps no address of `region` and every other address as
/// `before` does.
pub open spec fn region_unmapped(before: &PageTable, after: &PageTable, region: MemoryRegion) -> bool {
    &&& after.wf()
    &&& after.stage() == before.stage()
    &&& forall|v: int| #[trigger]
        after.translate(v) == if region.covers(v) {
            None
        } else {
            before.translate(v)
        }
    &&& after.same_outside(before, region.start as int, region.end())
}

/// A set stays well-formed when a region that shares no address with its
/// regions is mapped and put in at its place.
pub proof fn lemma_insert_keeps(before: &MemorySet, after: &MemorySet, region: MemoryRegion, idx: int)
    requires
        before.wf(),
        region.size > 0,
        region.fits(before.stage()),
        is_place(before.regions(), region, idx),
        apart(before.regions(), region),
        after.regions() == before.regions().insert(idx, region),
        region_mapped(before.table(), after.table(), region),
    ensures
        after.wf(),
{
    let prior = before.regions();
    let now = after.regions();
    assert forall|i: int| 0 <= i < now.len() implies (#[trigger] now[i]).size > 0 && now[i].fits(
        after.stage(),
    ) by {
        if i < idx {
            assert(now[i] == prior[i]);
        } else if i > idx {
            assert(now[i] == prior[i - 1]);
        }
    }
    assert forall|i: int, j: int| 0 <= i < j < now.len() implies (#[trigger] now[i]).end() <= (
    #[trigger] now[j]).start by {
        let oi = if i < idx {
            i
        } else {
            i - 1
        };
        let oj = if j < idx {
            j
        } else {
            j - 1
        };
        if i != idx && j != idx {
            assert(prior[oi].end() <= prior[oj].start);
        } else if i == idx {
            assert(!prior[oj].overlaps(&region));
            assert(prior[oj].start >= region.start);
        } else {
            assert(!prior[oi].overlaps(&region));
            assert(prior[oi].start < region.start);
        }
    }
    lemma_insert_mirrors(before, after, region, idx);
}

/// The table of a set mirrors the regions after a region was mapped and
/// put in.
pub proof fn lemma_insert_mirrors(before: &MemorySet, after: &MemorySet, region: MemoryRegion, idx: int)
    requires
        before.wf(),
        region.size > 0,
        region.fits(before.stage()),
        0 <= idx <= before.regions().len(),
        apart(before.regions(), region),
        after.regions() == before.regions().insert(idx, region),
        region_mapped(before.table(), after.table(), region),
    ensures
        mirrors(after.table(), after.regions()),
{
    let prior = before.regions();
    let now = after.regions();
    assert forall|i: int, v: int|
        0 <= i < now.len() && #[trigger] now[i].covers(v) implies after.table().translate(v) == Some(
        now[i].translation(v),
    ) by {
        if i != idx {
            let o = if i < idx {
                i
            } else {
                i - 1
            };
            assert(now[i] == prior[o]);
            assert(prior[o].covers(v));
            assert(!prior[o].overlaps(&region));
        }
    }
    assert forall|v: int| (#[trigger] after.table().translate(v)) is Some implies exists|i: int|
        0 <= i < now.len() && #[trigger] now[i].covers(v) by {
        if region.covers(v) {
            assert(now[idx].covers(v));
        } else {
            assert(before.table().translate(v) is Some);
            let o = choose|o: int| 0 <= o < prior.len() && #[trigger] prior[o].covers(v);
            let i = if o < idx {
                o
            } else {
                o + 1
            };
            assert(now[i] == prior[o]);
            assert(now[i].covers(v));
        }
    }
    assert forall|i: int| 0 <= i < now.len() implies after.table().closed(
        (#[trigger] now[i]).start as int,
        now[i].end(),
    ) by {
        if i != idx {
            let o = if i < idx {
                i
            } else {
                i - 1
            };
            assert(now[i] == prior[o]);
            assert(!prior[o].overlaps(&region));
            assert(prior[o].size > 0 && prior[o].fits(before.stage()));
            assert(before.table().closed(prior[o].start as int, prior[o].end()));
            lemma_closed_kept(
                before.table(),
                after.table(),
                prior[o].start as int,
                prior[o].end(),
                region.start as int,
                region.end(),
            );
        }
    }
}

/// A set stays well-formed when one of its regions is unmapped and taken
/// out.
pub proof fn lemma_remove_keeps(before: &MemorySet, after: &MemorySet, idx: int)
    requires
        before.wf(),
        0 <= idx < before.regions().len(),
        after.regions() == before.regions().remove(idx),
        region_unmapped(before.table(), after.table(), before.regions()[idx]),
    ensures
        after.wf(),
{
    let prior = before.regions();
    let now = after.regions();
    let region = prior[idx];
    assert forall|i: int| 0 <= i < now.len() implies (#[trigger] now[i]).size > 0 && now[i].fits(
        after.stage(),
    ) by {
        let o = if i < idx {
            i
        } else {
            i + 1
        };
        assert(now[i] == prior[o]);
    }
    assert forall|i: int, j: int| 0 <= i < j < now.len() implies (#[trigger] now[i]).end() <= (
    #[trigger] now[j]).start by {
        let oi = if i < idx {
            i
        } else {
            i + 1
        };
        let oj = if j < idx {
            j
        } else {
            j + 1
        };
        assert(prior[oi].end() <= prior[oj].start);
    }
    assert forall|i: int, v: int|
        0 <= i < now.len() && #[trigger] now[i].covers(v) implies after.table().translate(v) == Some(
        now[i].translation(v),
    ) by {
        let o = if i < idx {
            i
        } else {
            i + 1
        };
        assert(now[i] == prior[o]);
        assert(prior[o].covers(v));
        if o < idx {
            assert(prior[o].end() <= prior[idx].start);
        } else {
            assert(prior[idx].end() <= prior[o].start);
        }
    }
    assert forall|v: int| (#[trigger] after.table().translate(v)) is Some implies exists|i: int|
        0 <= i < now.len() && #[trigger] now[i].covers(v) by {
        assert(!region.covers(v));
        assert(before.table().translate(v) is Some);
        let o = choose|o: int| 0 <= o < prior.len() && #[trigger] prior[o].covers(v);
        assert(o != idx);
        let i = if o < idx {
            o
        } else {
            o - 1
        };
        assert(now[i] == prior[o]);
        assert(now[i].covers(v));
    }
    assert forall|i: int| 0 <= i < now.len() implies after.table().closed(
        (#[trigger] now[i]).start as int,
        now[i].end(),
    ) by {
        let o = if i < idx {
            i
        } else {
            i + 1
        };
        assert(now[i] == prior[o]);
        assert(prior[o].size > 0 && prior[o].fits(before.stage()));
        assert(before.table().closed(prior[o].start as int, prior[o].end()));
        if o < idx {
            assert(prior[o].end() <= prior[idx].start);
        } else {
            assert(prior[idx].end() <= prior[o].start);
        }
        lemma_closed_kept(
            before.table(),
            after.table(),
            prior[o].start as int,
            prior[o].end(),
            region.start as int,
            region.end(),
        );
    }
}

/// A set of regions that share no address, in ascending order, and the page
/// table that maps them.
#[derive(Debug)]
pub struct MemorySet {
    regions: Vec<MemoryRegion>,
    pt: PageTable,
}

impl MemorySet {
    /// The regions of the set, in ascending order.
    pub closed spec fn regions(&self) -> Seq<MemoryRegion> {
        self.regions@
    }

    /// The page table behind the set.
    pub closed spec fn table(&self) -> &PageTable {
        &self.pt
    }

    /// The stage that the set's table serves.
    pub open spec fn stage(&self) -> Stage {
        self.table().stage()
    }

    /// The regions are in order, share no address and fit the stage, and
    /// the table is a tree.
    pub open spec fn structured(&self) -> bool {
        &&& self.table().wf()
        &&& all_fit(self.regions(), self.stage())
        &&& sorted_disjoint(self.regions())
    }

    /// The set is structured, and the table maps exactly the regions.
    pub open spec fn wf(&self) -> bool {
        &&& self.structured()
        &&& mirrors(self.table(), self.regions())
    }

    /// The empty set for `stage`, its table's root on a frame from `pool`.
    pub fn new(stage: Stage, pool: &mut FrameAllocator) -> (r: HvResult<Self>)
        requires
            old(pool).wf(),
        ensures
            final(pool).wf(),
            final(pool).base() == old(pool).base(),
            final(pool).page_count() == old(pool).page_count(),
            r is Ok <==> root_available(old(pool), stage),
            final(pool).free().subset_of(old(pool).free()),
            r matches Ok(set) ==> set.wf() && set.stage() == stage && set.regions().len() == 0
                && set.table().backed_by(final(pool)),
            r matches Err(e) ==> e == HvError::NoMem && final(pool).free() == old(pool).free(),
    {
        match PageTable::new(stage, pool) {
            Ok(pt) => {
                let set = MemorySet { regions: Vec::new(), pt };
                Ok(set)
            },
            Err(e) => Err(e),
        }
    }

    /// The page table behind the set.
    pub fn page_table(&self) -> (r: &PageTable)
        ensures
            r == self.table(),
    {
        &self.pt
    }

    /// Number of regions in the set.
    pub fn len(&self) -> (r: usize)
        ensures
            r == self.regions().len(),
    {
        self.regions.len()
    }

    /// The `i`-th region of the set.
    pub fn region(&self, i: usize) -> (r: MemoryRegion)
        requires
            i < self.regions().len(),
        ensures
            r == self.regions()[i as int],
    {
        self.regions[i]
    }

    /// The index of the first region that does not start before `start`.
    fn position(&self, start: u64) -> (idx: usize)
        ensures
            0 <= idx <= self.regions().len(),
            forall|i: int| 0 <= i < idx ==> (#[trigger] self.regions()[i]).start < start,
            idx < self.regions().len() ==> self.regions()[idx as int].start >= start,
    {
        let mut idx: usize = 0;
        while idx < self.regions.len() && self.regions[idx].start < start
            invariant
                idx <= self.regions@.len(),
                forall|i: int| 0 <= i < idx ==> (#[trigger] self.regions@[i]).start < start,
            decreases self.regions@.len() - idx,
        {
            idx = idx + 1;
        }
        idx
    }

    /// Puts `region` into the set and maps it.
    ///
    /// An empty region is accepted and changes nothing. A region that the
    /// stage's table cannot map is refused as a bad parameter, one that
    /// shares an address with a region of the set as an overlap; neither
    /// changes anything. Otherwise the region is mapped and takes its place
    /// in the order. Where the pool runs out of frames for the table, the
    /// regions stay as they were, and of the table it is only known that no
    /// address outside the region changed.
    pub fn insert(&mut self, pool: &mut FrameAllocator, region: MemoryRegion) -> (r: HvResult)
        requires
            old(self).wf(),
            old(self).table().backed_by(old(pool)),
            old(pool).wf(),
        ensures
            final(pool).wf(),
            final(pool).base() == old(pool).base(),
            final(pool).page_count() == old(pool).page_count(),
            final(pool).free().subset_of(old(pool).free()),
            r matches Err(e) ==> (e == HvError::NoMem ==> exhausted(final(pool))),
            final(self).structured(),
            final(self).stage() == old(self).stage(),
            final(self).table().backed_by(final(pool)),
            inserted(old(self).regions(), region, old(self).stage()) matches Err(e) ==> r == Err::<
                (),
                HvError,
            >(e),
            inserted(old(self).regions(), region, old(self).stage()) matches Ok(next) ==> (r is Ok
                && final(self).regions() == next) || r == Err::<(), HvError>(HvError::NoMem),
            r is Err ==> final(self).regions() == old(self).regions(),
            r is Err && r != Err::<(), HvError>(HvError::NoMem) ==> final(self).wf(),
            r is Err ==> forall|v: int|
                !region.covers(v) ==> #[trigger] final(self).table().translate(v) == old(
                    self,
                ).table().translate(v),
            r is Err ==> exists|done: int|
                0 <= done <= region.size && mapped_up_to(
                    old(self).table(),
                    final(self).table(),
                    region.start,
                    region.host_base(),
                    region.flags,
                    done,
                ),
            r is Ok ==> final(self).wf(),
    {
        if region.size == 0 {
            return Ok(());
        }
        let (host_base, backed): (u64, bool) = match region.mapper {
            Mapper::Offset { host_base } => (host_base, true),
            Mapper::Frames { start_paddr, frame_count } => (
                start_paddr,
                (frame_count as u64) <= 0xf_ffff_ffff_ffff && region.size == (frame_count as u64)
                    * 0x1000,
            ),
        };
        let limit: u64 = match self.pt.stage_of() {
            Stage::Stage1 => 0x80_0000_0000,
            Stage::Stage2 => 0x200_0000_0000,
        };
        if !backed || region.start % 0x1000 != 0 || host_base % 0x1000 != 0 || region.size % 0x1000 != 0
            || region.start > limit || region.size > limit - region.start || host_base > PADDR_LIMIT
            || region.size > PADDR_LIMIT - host_base {
            proof {
                assert(mapped_up_to(
                    self.table(),
                    self.table(),
                    region.start,
                    region.host_base(),
                    region.flags,
                    0,
                ));
            }
            return Err(HvError::BadParam);
        }
        let idx: usize = self.position(region.start);
        if idx > 0 && self.regions[idx - 1].start + self.regions[idx - 1].size > region.start {
            proof {
                assert(self.regions()[idx - 1].overlaps(&region));
                assert(overlaps_any(self.regions(), region));
                assert(mapped_up_to(
                    self.table(),
                    self.table(),
                    region.start,
                    region.host_base(),
                    region.flags,
                    0,
                ));
            }
            return Err(HvError::Overlap);
        }
        if idx < self.regions.len() && region.start + region.size > self.regions[idx].start {
            proof {
                assert(self.regions()[idx as int].overlaps(&region));
                assert(overlaps_any(self.regions(), region));
                assert(mapped_up_to(
                    self.table(),
                    self.table(),
                    region.start,
                    region.host_base(),
                    region.flags,
                    0,
                ));
            }
            return Err(HvError::Overlap);
        }
        proof {
            assert forall|i: int| 0 <= i < self.regions().len() implies !(
            #[trigger] self.regions()[i]).overlaps(&region) by {
                if i < idx - 1 {
                    assert(self.regions()[i].end() <= self.regions()[idx - 1].start);
                }
                if i > idx {
                    assert(self.regions()[idx as int].end() <= self.regions()[i].start);
                }
            }
            assert(apart(self.regions(), region));
            assert(is_place(self.regions(), region, idx as int)) by {
                assert forall|i: int| idx <= i < self.regions().len() implies (
                #[trigger] self.regions()[i]).start >= region.start by {
                    if i > idx {
                        assert(self.regions()[idx as int].end() <= self.regions()[i].start);
                    }
                }
            }
        }
        let ghost before = *self;
        match self.pt.map(pool, region.start, host_base, region.size, region.flags) {
            Ok(()) => {
                self.regions.insert(idx, region);
                proof {
                    lemma_insert_keeps(&before, self, region, idx as int);
                    lemma_place_unique(
                        before.regions(),
                        region,
                        idx as int,
                        choose|k: int| is_place(before.regions(), region, k),
                    );
                }
                Ok(())
            },
            Err(e) => {
                proof {
                    if e == HvError::Overlap {
                        let v = choose|v: int|
                            region.start <= v < region.start + region.size && (
                            #[trigger] before.table().translate(v)) is Some;
                        let o = choose|o: int|
                            0 <= o < before.regions().len() && #[trigger] before.regions()[o].covers(v);
                        assert(before.regions()[o].overlaps(&region));
                    }
                }
                Err(HvError::NoMem)
            },
        }
    }

    /// Puts the regions of `todo` into the set one after the other, and
    /// stops at the first that is refused or that the pool has no frames
    /// for.
    pub fn insert_all(&mut self, pool: &mut FrameAllocator, todo: &Vec<MemoryRegion>) -> (r: HvResult)
        requires
            old(self).wf(),
            old(self).table().backed_by(old(pool)),
            old(pool).wf(),
        ensures
            final(pool).wf(),
            final(pool).base() == old(pool).base(),
            final(pool).page_count() == old(pool).page_count(),
            final(pool).free().subset_of(old(pool).free()),
            r matches Err(e) ==> (e == HvError::NoMem ==> exhausted(final(pool))),
            final(self).structured(),
            final(self).stage() == old(self).stage(),
            final(self).table().backed_by(final(pool)),
            inserted_all(old(self).regions(), todo@, old(self).stage()) matches Err(e) ==> r == Err::<
                (),
                HvError,
            >(e) || r == Err::<(), HvError>(HvError::NoMem),
            inserted_all(old(self).regions(), todo@, old(self).stage()) matches Ok(all) ==> (r is Ok
                && final(self).regions() == all) || r == Err::<(), HvError>(HvError::NoMem),
            r is Ok ==> final(self).wf(),
            r is Err ==> exists|k: int|
                0 <= k < todo@.len() && inserted_all(
                    old(self).regions(),
                    todo@.take(k),
                    old(self).stage(),
                ) == Ok::<Seq<MemoryRegion>, HvError>(final(self).regions()),
    {
        let mut k: usize = 0;
        proof {
            assert(todo@.subrange(0, todo@.len() as int) =~= todo@);
            assert(todo@.take(0) =~= Seq::<MemoryRegion>::empty());
        }
        while k < todo.len()
            invariant
                k <= todo@.len(),
                self.wf(),
                self.table().backed_by(pool),
                pool.wf(),
                pool.base() == old(pool).base(),
                pool.page_count() == old(pool).page_count(),
                pool.free().subset_of(old(pool).free()),
                self.stage() == old(self).stage(),
                inserted_all(old(self).regions(), todo@, old(self).stage()) == inserted_all(
                    self.regions(),
                    todo@.subrange(k as int, todo@.len() as int),
                    old(self).stage(),
                ),
                inserted_all(old(self).regions(), todo@.take(k as int), old(self).stage()) == Ok::<
                    Seq<MemoryRegion>,
                    HvError,
                >(self.regions()),
            decreases todo@.len() - k,
        {
            let ghost rest = todo@.subrange(k as int, todo@.len() as int);
            proof {
                assert(rest[0] == todo@[k as int]);
                assert(rest.subrange(1, rest.len() as int) =~= todo@.subrange(
                    k + 1,
                    todo@.len() as int,
                ));
                lemma_inserted_all_push(
                    old(self).regions(),
                    todo@.take(k as int),
                    todo@[k as int],
                    old(self).stage(),
                );
                assert(todo@.take(k as int).push(todo@[k as int]) =~= todo@.take(k + 1));
            }
            match self.insert(pool, todo[k]) {
                Ok(()) => {},
                Err(e) => {
                    return Err(e);
                },
            }
            k = k + 1;
        }
        proof {
            assert(todo@.subrange(k as int, todo@.len() as int) =~= Seq::<MemoryRegion>::empty());
            assert(todo@.subrange(0, todo@.len() as int) =~= todo@);
        }
        Ok(())
    }

    /// Takes the region that starts at `start` out of the set and unmaps
    /// it. Where no region starts there, nothing changes and the request
    /// fails as unmapped.
    pub fn unmap(&mut self, start: u64) -> (r: HvResult)
        requires
            old(self).wf(),
        ensures
            final(self).wf(),
            final(self).stage() == old(self).stage(),
            final(self).table().frames() == old(self).table().frames(),
            r is Err <==> forall|i: int|
                0 <= i < old(self).regions().len() ==> (#[trigger] old(self).regions()[i]).start
                    != start,
            r matches Err(e) ==> e == HvError::Unmapped && final(self).regions() == old(
                self,
            ).regions(),
            r is Ok ==> exists|idx: int|
                0 <= idx < old(self).regions().len() && old(self).regions()[idx].start == start
                    && final(self).regions() == old(self).regions().remove(idx),
    {
        let idx: usize = self.position(start);
        if idx >= self.regions.len() || self.regions[idx].start != start {
            proof {
                assert forall|i: int| 0 <= i < self.regions().len() implies (
                #[trigger] self.regions()[i]).start != start by {
                    if i > idx {
                        assert(self.regions()[idx as int].end() <= self.regions()[i].start);
                    }
                }
            }
            return Err(HvError::Unmapped);
        }
        let region = self.regions[idx];
        let ghost before = *self;
        proof {
            assert(region.size > 0 && region.fits(self.stage()));
            assert(self.table().closed(region.start as int, region.end()));
        }
        match self.pt.unmap(region.start, region.size) {
            Ok(()) => {},
            Err(e) => {
                return Err(e);
            },
        }
        let _ = self.regions.remove(idx);
        proof {
            lemma_remove_keeps(&before, self, idx as int);
        }
        Ok(())
    }

    /// Where the set sends address `vaddr`, with what rights, and the size
    /// of the block that maps it; or that it is not mapped.
    pub fn query(&self, vaddr: u64) -> (r: HvResult<(u64, MemFlags, u64)>)
        requires
            self.wf(),
        ensures
            r is Ok <==> exists|i: int|
                0 <= i < self.regions().len() && #[trigger] self.regions()[i].covers(vaddr as int),
            r matches Err(e) ==> e == HvError::Unmapped,
            r matches Ok((paddr, flags, size)) ==> size == level_size(
                self.table().leaf_level(vaddr as int),
            ) && forall|i: int|
                0 <= i < self.regions().len() && #[trigger] self.regions()[i].covers(vaddr as int)
                    ==> self.regions()[i].translation(vaddr as int) == (Translation { paddr, flags }),
    {
        self.pt.query(vaddr)
    }

    /// What puts the set's table into use: the stage's translation register
    /// takes the three-level mode and the page number of the root, and the
    /// stage's fence follows.
    pub open spec fn activation(&self) -> Activation {
        Activation {
            write: CsrOp {
                access: CsrAccess::Write,
                csr: if self.stage() == Stage::Stage1 {
                    CSR_SATP
                } else {
                    CSR_HGATP
                },
                value: MODE_SV39 | ((self.table().node_paddr(0) as u64) >> 12),
            },
            fence: if self.stage() == Stage::Stage1 {
                Fence::SfenceVma
            } else {
                Fence::HfenceGvma
            },
        }
    }

    /// Gives what puts the set's table into use.
    pub fn activate(&self) -> (r: Activation)
        requires
            self.table().wf(),
        ensures
            r == self.activation(),
    {
        let value: u64 = MODE_SV39 | (self.pt.root_paddr() >> 12);
        match self.pt.stage_of() {
            Stage::Stage1 => Activation {
                write: CsrOp { access: CsrAccess::Write, csr: CSR_SATP, value },
                fence: Fence::SfenceVma,
            },
            Stage::Stage2 => Activation {
                write: CsrOp { access: CsrAccess::Write, csr: CSR_HGATP, value },
                fence: Fence::HfenceGvma,
            },
        }
    }
}

/// What a well-formed set's table does with an address: an address of a
/// region goes where the region sends it, with the region's rights; an
/// address of no region is not mapped; and no address belongs to two
/// regions. Putting regions in and taking them out keeps the set
/// well-formed, so this holds after any sequence of both.
pub proof fn lemma_table_mirrors_regions(set: &MemorySet, v: int)
    requires
        set.wf(),
    ensures
        forall|i: int|
            0 <= i < set.regions().len() && #[trigger] set.regions()[i].covers(v)
                ==> set.table().translate(v) == Some(set.regions()[i].translation(v))
                && set.table().translate(v)->0.flags.has(set.regions()[i].flags),
        (forall|i: int| 0 <= i < set.regions().len() ==> !#[trigger] set.regions()[i].covers(v))
            ==> set.table().translate(v) is None,
        forall|i: int, j: int|
            #![trigger set.regions()[i], set.regions()[j]]
            0 <= i < j < set.regions().len() ==> !set.regions()[i].overlaps(&set.regions()[j]),
{
    assert forall|i: int|
        0 <= i < set.regions().len() && #[trigger] set.regions()[i].covers(
            v,
        ) implies set.table().translate(v)->0.flags.has(set.regions()[i].flags) by {
        let bits = set.regions()[i].flags.bits;
        assert(bits & bits == bits) by (bit_vector);
    }
}

/// Whether no region of the list is empty.
pub open spec fn none_empty(regions: Seq<MemoryRegion>) -> bool {
    forall|i: int| 0 <= i < regions.len() ==> (#[trigger] regions[i]).size > 0
}

/// An ordered list has a place for every region.
pub proof fn lemma_place_exists(regions: Seq<MemoryRegion>, region: MemoryRegion)
    requires
        sorted_disjoint(regions),
    ensures
        exists|idx: int| is_place(regions, region, idx),
    decreases regions.len(),
{
    if regions.len() == 0 {
        assert(is_place(regions, region, 0));
    } else {
        let n = regions.len() as int;
        if regions[n - 1].start < region.start {
            assert forall|i: int| 0 <= i < n implies (#[trigger] regions[i]).start < region.start by {
                if i < n - 1 {
                    assert(regions[i].end() <= regions[n - 1].start);
                }
            }
            assert(is_place(regions, region, n));
        } else {
            let head = regions.drop_last();
            assert forall|i: int, j: int| 0 <= i < j < head.len() implies (#[trigger] head[i]).end() <= (
            #[trigger] head[j]).start by {
                assert(regions[i].end() <= regions[j].start);
            }
            lemma_place_exists(head, region);
            let idx = choose|idx: int| is_place(head, region, idx);
            assert forall|i: int| idx <= i < n implies (#[trigger] regions[i]).start >= region.start by {
                if i < n - 1 {
                    assert(head[i].start >= region.start);
                }
            }
            assert forall|i: int| 0 <= i < idx implies (#[trigger] regions[i]).start < region.start by {
                assert(head[i].start < region.start);
            }
            assert(is_place(regions, region, idx));
        }
    }
}

/// Putting a region into an ordered list keeps the list ordered, keeps what
/// was in it, and puts the region in, unless it is empty.
pub proof fn lemma_inserted_holds(regions: Seq<MemoryRegion>, region: MemoryRegion, stage: Stage)
    requires
        sorted_disjoint(regions),
        none_empty(regions),
        inserted(regions, region, stage) is Ok,
    ensures
        sorted_disjoint(inserted(regions, region, stage)->Ok_0),
        none_empty(inserted(regions, region, stage)->Ok_0),
        forall|r: MemoryRegion|
            regions.contains(r) ==> #[trigger] inserted(regions, region, stage)->Ok_0.contains(r),
        region.size > 0 ==> inserted(regions, region, stage)->Ok_0.contains(region),
{
    if region.size > 0 {
        lemma_place_exists(regions, region);
        let idx = choose|idx: int| is_place(regions, region, idx);
        let next = regions.insert(idx, region);
        assert(!overlaps_any(regions, region));
        assert forall|i: int, j: int| 0 <= i < j < next.len() implies (#[trigger] next[i]).end() <= (
        #[trigger] next[j]).start by {
            let oi = if i < idx {
                i
            } else {
                i - 1
            };
            let oj = if j < idx {
                j
            } else {
                j - 1
            };
            if i != idx && j != idx {
                assert(regions[oi].end() <= regions[oj].start);
            } else if i == idx {
                assert(!regions[oj].overlaps(&region));
                assert(regions[oj].start >= region.start);
                assert(regions[oj].size > 0);
            } else {
                assert(!regions[oi].overlaps(&region));
                assert(regions[oi].start < region.start);
                assert(regions[oi].size > 0);
            }
        }
        assert(next[idx] == region);
        assert forall|i: int| 0 <= i < next.len() implies (#[trigger] next[i]).size > 0 by {
            if i < idx {
                assert(next[i] == regions[i]);
            } else if i > idx {
                assert(next[i] == regions[i - 1]);
            }
        }
        assert forall|r: MemoryRegion| regions.contains(r) implies #[trigger] next.contains(r) by {
            let i = choose|i: int| 0 <= i < regions.len() && regions[i] == r;
            let j = if i < idx {
                i
            } else {
                i + 1
            };
            assert(next[j] == r);
        }
    }
}

/// Putting regions into an ordered list one after the other, where none is
/// refused, keeps the list ordered, keeps what was in it, and puts in
/// every region that is not empty.
pub proof fn lemma_inserted_all_holds(regions: Seq<MemoryRegion>, todo: Seq<MemoryRegion>, stage: Stage)
    requires
        sorted_disjoint(regions),
        none_empty(regions),
        inserted_all(regions, todo, stage) is Ok,
    ensures
        sorted_disjoint(inserted_all(regions, todo, stage)->Ok_0),
        none_empty(inserted_all(regions, todo, stage)->Ok_0),
        forall|r: MemoryRegion|
            regions.contains(r) ==> #[trigger] inserted_all(regions, todo, stage)->Ok_0.contains(r),
        forall|i: int|
            0 <= i < todo.len() && todo[i].size > 0 ==> inserted_all(
                regions,
                todo,
                stage,
            )->Ok_0.contains(#[trigger] todo[i]),
    decreases todo.len(),
{
    if todo.len() > 0 {
        let next = inserted(regions, todo[0], stage)->Ok_0;
        let rest = todo.subrange(1, todo.len() as int);
        lemma_inserted_holds(regions, todo[0], stage);
        lemma_inserted_all_holds(next, rest, stage);
        let all = inserted_all(regions, todo, stage)->Ok_0;
        assert forall|r: MemoryRegion| regions.contains(r) implies #[trigger] all.contains(r) by {
            assert(next.contains(r));
        }
        assert forall|i: int| 0 <= i < todo.len() && todo[i].size > 0 implies all.contains(
            #[trigger] todo[i],
        ) by {
            if i == 0 {
                assert(next.contains(todo[0]));
            } else {
                assert(rest[i - 1] == todo[i]);
            }
        }
    }
}

/// After regions were put into an empty set, none of them refused, the
/// walk for an address of any of them yields what the region says: the
/// memory behind it, as far in as the address lies in the region, with the
/// region's rights.
pub proof fn lemma_inserted_regions_resolve(set: &MemorySet, todo: Seq<MemoryRegion>, k: int, v: int)
    requires
        set.wf(),
        inserted_all(Seq::empty(), todo, set.stage()) == Ok::<Seq<MemoryRegion>, HvError>(
            set.regions(),
        ),
        0 <= k < todo.len(),
        todo[k].covers(v),
    ensures
        set.table().translate(v) == Some(todo[k].translation(v)),
        set.table().translate(v)->0.flags.has(todo[k].flags),
{
    lemma_inserted_all_holds(Seq::empty(), todo, set.stage());
    assert(set.regions().contains(todo[k]));
    let j = choose|j: int| 0 <= j < set.regions().len() && set.regions()[j] == todo[k];
    assert(set.regions()[j].covers(v));
    let bits = todo[k].flags.bits;
    assert(bits & bits == bits) by (bit_vector);
}

} // verus!
