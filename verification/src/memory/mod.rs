//! Address arithmetic, the frame allocator, the page tables of the two
//! translation stages, and the region sets that drive them.
use vstd::prelude::*;
use crate::consts::{layout_fits, HV_MEM_POOL_SIZE, MAX_CPU_NUM, PER_CPU_SIZE};
use crate::devicetree::{device_regions, push_device_regions, region_of, DeviceTree, Sizing};
use crate::error::{HvError, HvResult};
use crate::memory::frame::{run, FrameAllocator};
use crate::memory::mm::{inserted_all, MemoryRegion, MemorySet};
use crate::memory::paging::{root_available, Stage};

pub mod addr;
pub mod frame;
pub mod mm;
pub mod paging;

verus! {

pub const TEMPORARY_MAPPING_BASE: u64 = 0x80_0000_0000;

pub const NUM_TEMPORARY_PAGES: usize = 16;

pub const MEM_READ: u64 = 0x1;

pub const MEM_WRITE: u64 = 0x2;

pub const MEM_EXECUTE: u64 = 0x4;

pub const MEM_DMA: u64 = 0x8;

pub const MEM_IO: u64 = 0x10;

pub const MEM_COMMUNICATION: u64 = 0x20;

pub const MEM_LOADABLE: u64 = 0x40;

pub const MEM_ROOTSHARED: u64 = 0x80;

pub const MEM_NO_HUGEPAGES: u64 = 0x100;

pub const MEM_USER: u64 = 0x200;

/// Every bit that names a flag.
pub const MEM_ALL: u64 = 0x3ff;

/// What a region of memory may be used for, as a set of flags.
#[derive(Clone, Copy, Debug, PartialEq, Eq, Structural)]
pub struct MemFlags {
    pub bits: u64,
}

impl MemFlags {
    /// Whether every flag of `other` is a flag of `self`.
    pub open spec fn has(&self, other: MemFlags) -> bool {
        self.bits & other.bits == other.bits
    }

    /// The set with no flag.
    pub fn empty() -> (r: Self)
        ensures
            r.bits == 0,
    {
        MemFlags { bits: 0 }
    }

    /// The set of the flags that `bits` names; bits that name no flag are
    /// dropped.
    pub fn from_bits_truncate(bits: u64) -> (r: Self)
        ensures
            r.bits == bits & MEM_ALL,
    {
        MemFlags { bits: bits & MEM_ALL }
    }

    /// The flags as bits.
    pub fn bits(&self) -> (r: u64)
        ensures
            r == self.bits,
    {
        self.bits
    }

    /// Tells whether every flag of `other` is a flag of `self`.
    pub fn contains(&self, other: MemFlags) -> (r: bool)
        ensures
            r == self.has(other),
    {
        self.bits & other.bits == other.bits
    }

    /// The flags that are in `self` or in `other`.
    pub fn union(self, other: MemFlags) -> (r: Self)
        ensures
            r.bits == self.bits | other.bits,
    {
        MemFlags { bits: self.bits | other.bits }
    }
}

/// One page of bytes, for data that is to lie on a page boundary.
pub struct AlignedPage(pub [u8; 4096]);

impl AlignedPage {
    /// A page of zero bytes.
    pub fn new() -> (r: Self)
        ensures
            forall|i: int| 0 <= i < 4096 ==> r.0@[i] == 0,
    {
        AlignedPage([0u8;4096])
    }
}

/// Sets up the frame allocator for the pool that follows the per-CPU array
/// of an image that ends at `core_end`: every page of the pool is free.
pub fn init_frame_allocator(core_end: u64) -> (r: FrameAllocator)
    requires
        layout_fits(core_end),
        core_end + MAX_CPU_NUM * PER_CPU_SIZE + HV_MEM_POOL_SIZE + 2 * 4096 <= u64::MAX,
    ensures
        r.wf(),
        r.base() == crate::memory::addr::align_up_spec(core_end + MAX_CPU_NUM * PER_CPU_SIZE),
        r.page_count() == HV_MEM_POOL_SIZE / 4096,
        r.free() == run(0, r.page_count()),
{
    crate::memory::frame::init(crate::consts::mem_pool_start(core_end), HV_MEM_POOL_SIZE as u64)
}

/// The rights to read and write.
pub open spec fn rw() -> MemFlags {
    MemFlags { bits: 0x3 }
}

/// The rights to read, write and execute.
pub open spec fn rwx() -> MemFlags {
    MemFlags { bits: 0x7 }
}

/// The regions that the hypervisor maps for itself, in the order in which
/// they are put into its memory set, each onto itself: the memory, as the
/// first range of the tree's memory node gives it; then the virtio devices,
/// the test device, the serial port, the core-local interrupter, the
/// interrupt controller and the PCI host.
pub open spec fn host_regions(dt: &DeviceTree) -> Seq<MemoryRegion> {
    seq![
        region_of(dt.memory@[0].start, dt.memory@[0].start, dt.memory@[0].size->0 as int, rwx()),
    ] + device_regions(dt.virtio_mmio@, rw(), Sizing::Plain) + device_regions(
        dt.test@,
        rwx(),
        Sizing::PlusPage,
    ) + device_regions(dt.uart@, rw(), Sizing::RoundUp) + device_regions(
        dt.clint@,
        rw(),
        Sizing::Plain,
    ) + device_regions(dt.plic@, rw(), Sizing::Plain) + device_regions(
        dt.pci@,
        rw(),
        Sizing::Plain,
    )
}

/// Lists the regions that the hypervisor maps for itself.
pub fn host_region_list(dt: &DeviceTree) -> (r: Vec<MemoryRegion>)
    requires
        dt.usable(),
    ensures
        r@ == host_regions(dt),
{
    let rw_flags = MemFlags { bits: MEM_READ | MEM_WRITE };
    let rwx_flags = MemFlags { bits: MEM_READ | MEM_WRITE | MEM_EXECUTE };
    proof {
        assert(0x1u64 | 0x2u64 == 0x3u64) by (bit_vector);
        assert(0x1u64 | 0x2u64 | 0x4u64 == 0x7u64) by (bit_vector);
    }
    let mem = dt.memory[0];
    let mem_size: u64 = match mem.size {
        Some(size) => size,
        None => 0,
    };
    let mut out: Vec<MemoryRegion> = Vec::new();
    out.push(MemoryRegion::new_with_offset_mapper(mem.start, mem.start, mem_size, rwx_flags));
    let ghost head = out@;
    push_device_regions(&mut out, &dt.virtio_mmio, rw_flags, Sizing::Plain);
    push_device_regions(&mut out, &dt.test, rwx_flags, Sizing::PlusPage);
    push_device_regions(&mut out, &dt.uart, rw_flags, Sizing::RoundUp);
    push_device_regions(&mut out, &dt.clint, rw_flags, Sizing::Plain);
    push_device_regions(&mut out, &dt.plic, rw_flags, Sizing::Plain);
    push_device_regions(&mut out, &dt.pci, rw_flags, Sizing::Plain);
    proof {
        assert(head =~= seq![region_of(mem.start, mem.start, mem_size as int, rwx())]);
    }
    out
}

/// Builds the hypervisor's own memory set from the host's device tree: the
/// regions of `host_regions` are put in one after the other, and the first
/// that is refused, or that the pool has no frames for, ends it.
pub fn init_hv_page_table(dt: &DeviceTree, pool: &mut FrameAllocator) -> (r: HvResult<MemorySet>)
    requires
        old(pool).wf(),
        dt.usable(),
    ensures
        final(pool).wf(),
        final(pool).base() == old(pool).base(),
        final(pool).page_count() == old(pool).page_count(),
        inserted_all(Seq::empty(), host_regions(dt), Stage::Stage1) matches Err(e) ==> r matches Err(
            got,
        ) && (got == e || got == HvError::NoMem),
        inserted_all(Seq::empty(), host_regions(dt), Stage::Stage1) matches Ok(all) ==> (r matches Ok(
            set,
        ) && set.regions() == all) || (r matches Err(got) && got == HvError::NoMem),
        r matches Ok(set) ==> set.wf() && set.stage() == Stage::Stage1 && set.table().backed_by(
            final(pool),
        ),
        final(pool).free().subset_of(old(pool).free()),
        r matches Err(e) ==> (e == HvError::NoMem ==> !root_available(final(pool), Stage::Stage1)),
{
    let mut hv_pt = match MemorySet::new(Stage::Stage1, pool) {
        Ok(set) => set,
        Err(e) => {
            proof {
                crate::memory::paging::lemma_root_same(old(pool), pool, Stage::Stage1);
            }
            return Err(e);
        },
    };
    proof {
        assert(hv_pt.regions() =~= Seq::<MemoryRegion>::empty());
    }
    let todo = host_region_list(dt);
    match hv_pt.insert_all(pool, &todo) {
        Ok(()) => Ok(hv_pt),
        Err(e) => {
            proof {
                crate::memory::paging::lemma_root_needs_pages(pool);
            }
            Err(e)
        },
    }
}

} // verus!
