//! What the hypervisor reads from a flattened device tree.
//!
//! The tree itself is parsed by the caller. Here it is the answers to the
//! questions that the hypervisor asks of it: the memory, the first register
//! range of each device node it knows by path, and the harts.
use vstd::prelude::*;
use crate::memory::addr::{align_down_spec, align_up, align_up_spec};
use crate::memory::mm::{Mapper, MemoryRegion};
use crate::memory::MemFlags;

verus! {

/// A register range of a node: where it starts and, if the node says so,
/// how long it is.
#[derive(Clone, Copy, Debug, PartialEq, Eq, Structural)]
pub struct RegRange {
    pub start: u64,
    pub size: Option<u64>,
}

/// How the size of a device's region is taken from the size of its register
/// range.
#[derive(Clone, Copy, Debug, PartialEq, Eq, Structural)]
pub enum Sizing {
    /// As it is.
    Plain,
    /// With one more page.
    PlusPage,
    /// Rounded up to whole pages.
    RoundUp,
}

/// The answers of a device tree.
#[derive(Debug)]
pub struct DeviceTree {
    /// Size of the tree's blob in bytes.
    pub total_size: u64,
    /// The ranges of the memory node.
    pub memory: Vec<RegRange>,
    /// For each node `/soc/virtio_mmio`, its first register range, if it
    /// has one.
    pub virtio_mmio: Vec<Option<RegRange>>,
    /// The same for the nodes `/soc/test`.
    pub test: Vec<Option<RegRange>>,
    /// The same for the nodes `/soc/uart`.
    pub uart: Vec<Option<RegRange>>,
    /// The same for the nodes `/soc/clint`.
    pub clint: Vec<Option<RegRange>>,
    /// The same for the nodes `/soc/plic`.
    pub plic: Vec<Option<RegRange>>,
    /// The same for the nodes `/soc/pci`.
    pub pci: Vec<Option<RegRange>>,
    /// For each hart node, its first id, if it has one.
    pub cpus: Vec<Option<usize>>,
}

/// The largest size of a range that the hypervisor works with: adding a
/// page to it and rounding it up stay within 64 bits.
pub const MAX_RANGE_SIZE: u64 = 0xffff_ffff_ffff_0000;

/// Whether `reg` says how long it is, and is not too long to work with.
pub open spec fn reg_usable(reg: RegRange) -> bool {
    reg.size matches Some(size) && size <= MAX_RANGE_SIZE
}

/// Whether every register range in `nodes` is usable.
pub open spec fn nodes_usable(nodes: Seq<Option<RegRange>>) -> bool {
    forall|i: int|
        0 <= i < nodes.len() ==> ((#[trigger] nodes[i]) matches Some(reg) ==> reg_usable(reg))
}

/// The size of a device's region, from the size of its register range.
pub open spec fn sized(size: u64, sizing: Sizing) -> int {
    match sizing {
        Sizing::Plain => size as int,
        Sizing::PlusPage => size + 0x1000,
        Sizing::RoundUp => align_up_spec(size as int),
    }
}

/// The region of `size` bytes from `start` that goes to the memory from
/// `paddr`: both addresses rounded down to a page boundary, the size
/// rounded up to whole pages.
pub open spec fn region_of(start: u64, paddr: u64, size: int, flags: MemFlags) -> MemoryRegion {
    MemoryRegion {
        start: align_down_spec(start as int) as u64,
        size: align_up_spec(size) as u64,
        flags,
        mapper: Mapper::Offset { host_base: align_down_spec(paddr as int) as u64 },
    }
}

/// The region that maps the register range `reg` onto itself.
pub open spec fn device_region(reg: RegRange, flags: MemFlags, sizing: Sizing) -> MemoryRegion {
    region_of(reg.start, reg.start, sized(reg.size->0, sizing), flags)
}

/// The regions that map the register ranges of `nodes` onto themselves, in
/// the order of the nodes; a node without a register range has none.
pub open spec fn device_regions(nodes: Seq<Option<RegRange>>, flags: MemFlags, sizing: Sizing) -> Seq<
    MemoryRegion,
>
    decreases nodes.len(),
{
    if nodes.len() == 0 {
        Seq::empty()
    } else {
        let rest = device_regions(nodes.drop_last(), flags, sizing);
        match nodes.last() {
            Some(reg) => rest.push(device_region(reg, flags, sizing)),
            None => rest,
        }
    }
}

/// Appends to `out` the regions that map the register ranges of `nodes`
/// onto themselves.
pub fn push_device_regions(
    out: &mut Vec<MemoryRegion>,
    nodes: &Vec<Option<RegRange>>,
    flags: MemFlags,
    sizing: Sizing,
)
    requires
        nodes_usable(nodes@),
    ensures
        final(out)@ == old(out)@ + device_regions(nodes@, flags, sizing),
{
    let mut i: usize = 0;
    proof {
        assert(nodes@.take(0) =~= Seq::<Option<RegRange>>::empty());
        assert(out@ =~= old(out)@ + device_regions(nodes@.take(0), flags, sizing));
    }
    while i < nodes.len()
        invariant
            i <= nodes@.len(),
            nodes_usable(nodes@),
            out@ == old(out)@ + device_regions(nodes@.take(i as int), flags, sizing),
        decreases nodes@.len() - i,
    {
        proof {
            assert(nodes@.take(i + 1).drop_last() =~= nodes@.take(i as int));
            assert(nodes@.take(i + 1).last() == nodes@[i as int]);
        }
        match nodes[i] {
            Some(reg) => {
                let size: u64 = match reg.size {
                    Some(size) => size,
                    None => 0,
                };
                let region_size: u64 = match sizing {
                    Sizing::Plain => size,
                    Sizing::PlusPage => size + 0x1000,
                    Sizing::RoundUp => align_up(size),
                };
                out.push(MemoryRegion::new_with_offset_mapper(reg.start, reg.start, region_size, flags));
                proof {
                    assert(out@ =~= old(out)@ + device_regions(nodes@.take(i + 1), flags, sizing));
                }
            },
            None => {},
        }
        i = i + 1;
    }
    proof {
        assert(nodes@.take(nodes@.len() as int) =~= nodes@);
    }
}

/// Tells whether every register range in `nodes` is usable.
pub fn check_nodes(nodes: &Vec<Option<RegRange>>) -> (r: bool)
    ensures
        r == nodes_usable(nodes@),
{
    let mut i: usize = 0;
    while i < nodes.len()
        invariant
            i <= nodes@.len(),
            forall|j: int|
                0 <= j < i ==> ((#[trigger] nodes@[j]) matches Some(reg) ==> reg_usable(reg)),
        decreases nodes@.len() - i,
    {
        match nodes[i] {
            Some(reg) => {
                match reg.size {
                    Some(size) => {
                        if size > MAX_RANGE_SIZE {
                            return false;
                        }
                    },
                    None => {
                        return false;
                    },
                }
            },
            None => {},
        }
        i = i + 1;
    }
    true
}

impl DeviceTree {
    /// Whether the tree answers what the hypervisor asks: there is memory,
    /// and the first range of it and every register range of a device says
    /// how long it is, none of them too long to work with, nor the tree
    /// itself.
    pub open spec fn usable(&self) -> bool {
        &&& self.total_size <= MAX_RANGE_SIZE
        &&& self.memory@.len() >= 1
        &&& reg_usable(self.memory@[0])
        &&& nodes_usable(self.virtio_mmio@)
        &&& nodes_usable(self.test@)
        &&& nodes_usable(self.uart@)
        &&& nodes_usable(self.clint@)
        &&& nodes_usable(self.plic@)
        &&& nodes_usable(self.pci@)
    }

    /// Tells whether the tree answers what the hypervisor asks.
    pub fn check(&self) -> (r: bool)
        ensures
            r == self.usable(),
    {
        if self.total_size > MAX_RANGE_SIZE || self.memory.len() < 1 {
            return false;
        }
        let first = self.memory[0];
        let memory_ok: bool = match first.size {
            Some(size) => size <= MAX_RANGE_SIZE,
            None => false,
        };
        memory_ok && check_nodes(&self.virtio_mmio) && check_nodes(&self.test) && check_nodes(
            &self.uart,
        ) && check_nodes(&self.clint) && check_nodes(&self.plic) && check_nodes(&self.pci)
    }
}

} // verus!
