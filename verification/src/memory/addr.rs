//! Address types and page alignment.
use vstd::prelude::*;
use crate::consts::PAGE_SIZE;

verus! {

pub type VirtAddr = u64;

pub type PhysAddr = u64;

pub type GuestVirtAddr = u64;

pub type GuestPhysAddr = u64;

pub type HostVirtAddr = u64;

pub type HostPhysAddr = u64;

/// Whether `addr` is a multiple of the page size.
pub open spec fn is_aligned_spec(addr: int) -> bool {
    addr % 4096 == 0
}

/// The largest page boundary that is not above `addr`.
pub open spec fn align_down_spec(addr: int) -> int {
    addr - addr % 4096
}

/// The smallest page boundary that is not below `addr`.
pub open spec fn align_up_spec(addr: int) -> int {
    if addr % 4096 == 0 {
        addr
    } else {
        addr - addr % 4096 + 4096
    }
}

/// Rounds `addr` down to a page boundary.
pub fn align_down(addr: u64) -> (r: u64)
    ensures
        r == align_down_spec(addr as int),
        is_aligned_spec(r as int),
        r <= addr < r + PAGE_SIZE,
{
    let r: u64 = addr & !0xfffu64;
    assert(addr & !0xfffu64 == addr - addr % 4096) by (bit_vector);
    r
}

/// Rounds `addr` up to a page boundary.
pub fn align_up(addr: u64) -> (r: u64)
    requires
        addr + PAGE_SIZE - 1 <= u64::MAX,
    ensures
        r == align_up_spec(addr as int),
        is_aligned_spec(r as int),
        addr <= r < addr + PAGE_SIZE,
{
    let up: u64 = addr + 0xfff;
    let r: u64 = up & !0xfffu64;
    assert(up & !0xfffu64 == up - up % 4096) by (bit_vector);
    r
}

/// Tells whether `addr` lies on a page boundary.
pub fn is_aligned(addr: u64) -> (r: bool)
    ensures
        r == is_aligned_spec(addr as int),
{
    let low: u64 = addr & 0xfff;
    assert(addr & 0xfffu64 == addr % 4096) by (bit_vector);
    low == 0
}

} // verus!
