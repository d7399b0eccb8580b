//! Memory-map constants and the addresses derived from the end of the image.
use vstd::prelude::*;

verus! {

/// Size of a page in bytes.
pub const PAGE_SIZE: usize = 4096;

/// Size of the hypervisor heap.
pub const HV_HEAP_SIZE: usize = 1024 * 1024;

/// Size of the pool that the frame allocator serves.
pub const HV_MEM_POOL_SIZE: usize = 16 * 1024 * 1024;

/// Size of the per-CPU data (stack and other CPU-local data).
pub const PER_CPU_SIZE: usize = 128 * 1024;

/// Number of harts the image is built for.
pub const MAX_CPU_NUM: usize = 4;

/// Start virtual address of the hypervisor memory.
pub const HV_BASE: u64 = 0x8020_0000;

/// Physical address the image is linked at.
pub const HV_PHY_BASE: u64 = 0x8020_0000;

/// Marks an entry address that was never assigned.
pub const INVALID_ADDRESS: u64 = u64::MAX;

/// Guest physical address at which each zone sees its device tree.
pub const DTB_ADDR: u64 = 0xbfe0_0000;

/// Whether the per-CPU array and the frame pool that follow an image ending
/// at `core_end` still lie within the address space.
pub open spec fn layout_fits(core_end: u64) -> bool {
    core_end + MAX_CPU_NUM * PER_CPU_SIZE + HV_MEM_POOL_SIZE <= u64::MAX
}

/// Start of the frame pool: it follows the per-CPU array, which follows the
/// image.
pub fn mem_pool_start(core_end: u64) -> (r: u64)
    requires
        layout_fits(core_end),
    ensures
        r == core_end + MAX_CPU_NUM * PER_CPU_SIZE,
{
    core_end + (MAX_CPU_NUM * PER_CPU_SIZE) as u64
}

/// End of the hypervisor's memory: the end of the frame pool.
pub fn hv_end(core_end: u64) -> (r: u64)
    requires
        layout_fits(core_end),
    ensures
        r == core_end + MAX_CPU_NUM * PER_CPU_SIZE + HV_MEM_POOL_SIZE,
{
    mem_pool_start(core_end) + HV_MEM_POOL_SIZE as u64
}

} // verus!
