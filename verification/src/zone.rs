//! Zones: the set of harts bound to a guest, and the guest's memory.
use vstd::prelude::*;
use crate::consts::MAX_CPU_NUM;
use crate::devicetree::{
    device_regions, push_device_regions, region_of, DeviceTree, Sizing,
};
use crate::error::{HvError, HvResult};
use crate::memory::frame::FrameAllocator;
use crate::memory::mm::{inserted_all, Activation, MemoryRegion, MemorySet};
use crate::memory::paging::{exhausted, root_available, Stage};
use crate::memory::{rw, rwx, MemFlags, MEM_EXECUTE, MEM_READ, MEM_WRITE};
use crate::percpu::PerCpu;

verus! {

/// Whether bit `i` of `word` is set.
pub open spec fn bit(word: u64, i: u64) -> bool {
    (word >> i) & 1 == 1
}

/// The indices below `n` whose bit is set in `word`, in ascending order.
pub open spec fn members_below(word: u64, n: nat) -> Seq<usize>
    decreases n,
{
    if n == 0 {
        Seq::empty()
    } else {
        let rest = members_below(word, (n - 1) as nat);
        if n <= 64 && bit(word, (n - 1) as u64) {
            rest.push((n - 1) as usize)
        } else {
            rest
        }
    }
}

/// The number of bits set in `word` among the lowest `n`.
pub open spec fn bits_set_below(word: u64, n: nat) -> nat
    decreases n,
{
    if n == 0 {
        0
    } else {
        bits_set_below(word, (n - 1) as nat) + if n <= 64 && bit(word, (n - 1) as u64) {
            1nat
        } else {
            0nat
        }
    }
}

/// The number of bits set in `word`.
pub open spec fn popcount(word: u64) -> nat {
    bits_set_below(word, 64)
}

/// The 64-bit word whose bytes, lowest first, are the eight bytes of `bytes`.
pub open spec fn word_from_bytes(bytes: Seq<u8>) -> u64 {
    (bytes[0] as u64) | ((bytes[1] as u64) << 8) | ((bytes[2] as u64) << 16) | ((bytes[3] as u64)
        << 24) | ((bytes[4] as u64) << 32) | ((bytes[5] as u64) << 40) | ((bytes[6] as u64) << 48)
        | ((bytes[7] as u64) << 56)
}

/// A set of hart ids, kept as a bitmap with an upper bound on the ids.
#[derive(Copy, Clone, Debug)]
pub struct CpuSet {
    max_cpu_id: usize,
    bitmap: u64,
}

impl CpuSet {
    /// The largest id the set can hold.
    pub closed spec fn max_id(&self) -> usize {
        self.max_cpu_id
    }

    /// The bitmap behind the set.
    pub closed spec fn bits(&self) -> u64 {
        self.bitmap
    }

    /// Every id the set can hold indexes a bit of the bitmap.
    pub open spec fn wf(&self) -> bool {
        self.max_id() < 64
    }

    /// Whether `id` is in the set.
    pub open spec fn contains(&self, id: usize) -> bool {
        id <= self.max_id() && id < 64 && bit(self.bits(), id as u64)
    }

    /// The ids in the set, in ascending order.
    pub open spec fn members(&self) -> Seq<usize> {
        members_below(self.bits(), (self.max_id() + 1) as nat)
    }

    /// The set that can hold the ids up to `max_cpu_id` and holds those
    /// whose bit is set in `bitmap`.
    pub fn new(max_cpu_id: usize, bitmap: u64) -> (r: Self)
        requires
            max_cpu_id < 64,
        ensures
            r.wf(),
            r.max_id() == max_cpu_id,
            r.bits() == bitmap,
    {
        Self { max_cpu_id, bitmap }
    }

    /// The set that eight bytes describe, the lowest ids in the first byte.
    pub fn from_cpuset_slice(cpu_set: &[u8]) -> (r: Self)
        requires
            cpu_set@.len() == 8,
        ensures
            r.wf(),
            r.max_id() == 63,
            r.bits() == word_from_bytes(cpu_set@),
    {
        let cpu_set_long: u64 = (cpu_set[0] as u64) | ((cpu_set[1] as u64) << 8) | ((
        cpu_set[2] as u64) << 16) | ((cpu_set[3] as u64) << 24) | ((cpu_set[4] as u64) << 32) | ((
        cpu_set[5] as u64) << 40) | ((cpu_set[6] as u64) << 48) | ((cpu_set[7] as u64) << 56);
        Self::new(cpu_set.len() * 8 - 1, cpu_set_long)
    }

    /// Puts `id` into the set.
    pub fn set_bit(&mut self, id: usize)
        requires
            old(self).wf(),
            id <= old(self).max_id(),
        ensures
            final(self).wf(),
            final(self).max_id() == old(self).max_id(),
            final(self).bits() == old(self).bits() | (1u64 << (id as u64)),
            forall|j: usize| #[trigger] final(self).contains(j) <==> old(self).contains(j) || j == id,
    {
        let idb: u64 = id as u64;
        let before: u64 = self.bitmap;
        self.bitmap = before | (1u64 << idb);
        assert(forall|j: u64|
            j < 64 ==> (#[trigger] bit(before | (1u64 << idb), j) <==> bit(before, j) || j == idb))
            by (bit_vector)
            requires
                idb < 64,
        ;
    }

    /// Takes `id` out of the set.
    pub fn clear_bit(&mut self, id: usize)
        requires
            old(self).wf(),
            id <= old(self).max_id(),
        ensures
            final(self).wf(),
            final(self).max_id() == old(self).max_id(),
            final(self).bits() == old(self).bits() & !(1u64 << (id as u64)),
            forall|j: usize| #[trigger] final(self).contains(j) <==> old(self).contains(j) && j != id,
    {
        let idb: u64 = id as u64;
        let before: u64 = self.bitmap;
        self.bitmap = before & !(1u64 << idb);
        assert(forall|j: u64|
            j < 64 ==> (#[trigger] bit(before & !(1u64 << idb), j) <==> bit(before, j) && j != idb))
            by (bit_vector)
            requires
                idb < 64,
        ;
    }

    /// Tells whether `id` is in the set.
    pub fn contains_cpu(&self, id: usize) -> (r: bool)
        requires
            self.wf(),
        ensures
            r == self.contains(id),
    {
        if id > self.max_cpu_id {
            return false;
        }
        let idb: u64 = id as u64;
        let word: u64 = self.bitmap;
        assert(((word & (1u64 << idb)) != 0) == bit(word, idb)) by (bit_vector)
            requires
                idb < 64,
        ;
        (word & (1u64 << idb)) != 0
    }

    /// The lowest id in the set, if the set is not empty.
    pub fn first_cpu(&self) -> (r: Option<usize>)
        requires
            self.wf(),
        ensures
            r is None <==> forall|j: usize| !self.contains(j),
            r matches Some(first) ==> self.contains(first) && forall|j: usize|
                #[trigger] self.contains(j) ==> first <= j,
    {
        let mut i: usize = 0;
        while i <= self.max_cpu_id
            invariant
                self.wf(),
                i <= self.max_id() + 1,
                forall|j: usize| j < i ==> !#[trigger] self.contains(j),
            decreases self.max_id() + 1 - i,
        {
            if self.contains_cpu(i) {
                return Some(i);
            }
            i = i + 1;
        }
        None
    }

    /// The ids in the set, in ascending order.
    pub fn iter(&self) -> (r: Vec<usize>)
        requires
            self.wf(),
        ensures
            r@ == self.members(),
    {
        let mut out: Vec<usize> = Vec::new();
        let mut i: usize = 0;
        while i <= self.max_cpu_id
            invariant
                self.wf(),
                i <= self.max_id() + 1,
                out@ == members_below(self.bits(), i as nat),
            decreases self.max_id() + 1 - i,
        {
            if self.contains_cpu(i) {
                out.push(i);
            }
            i = i + 1;
        }
        out
    }

    /// The ids in the set other than `id`, in ascending order.
    pub fn iter_except(&self, id: usize) -> (r: Vec<usize>)
        requires
            self.wf(),
        ensures
            r@ == self.members().filter(|x: usize| x != id),
    {
        let mut out: Vec<usize> = Vec::new();
        let mut i: usize = 0;
        let ghost keep = |x: usize| x != id;
        while i <= self.max_cpu_id
            invariant
                self.wf(),
                i <= self.max_id() + 1,
                keep == |x: usize| x != id,
                out@ == members_below(self.bits(), i as nat).filter(keep),
            decreases self.max_id() + 1 - i,
        {
            let ghost before = members_below(self.bits(), i as nat);
            if self.contains_cpu(i) {
                proof {
                    lemma_filter_push(before, i, keep);
                }
                if i != id {
                    out.push(i);
                }
            }
            i = i + 1;
        }
        out
    }
}

/// Taking out an id that was put in gives the bitmap back, where the id
/// was not in it before; and putting an id in or taking it out changes no
/// other bit.
pub proof fn lemma_clear_undoes_set(word: u64, id: u64)
    requires
        id < 64,
    ensures
        !bit(word, id) ==> (word | (1u64 << id)) & !(1u64 << id) == word,
        forall|i: u64| i < 64 && i != id ==> #[trigger] bit(word | (1u64 << id), i) == bit(word, i),
        forall|i: u64|
            i < 64 && i != id ==> #[trigger] bit(word & !(1u64 << id), i) == bit(word, i),
{
    assert(!bit(word, id) ==> (word | (1u64 << id)) & !(1u64 << id) == word) by (bit_vector)
        requires
            id < 64,
    ;
    assert(forall|i: u64|
        i < 64 && i != id ==> #[trigger] bit(word | (1u64 << id), i) == bit(word, i))
        by (bit_vector)
        requires
            id < 64,
    ;
    assert(forall|i: u64|
        i < 64 && i != id ==> #[trigger] bit(word & !(1u64 << id), i) == bit(word, i))
        by (bit_vector)
        requires
            id < 64,
    ;
}

/// Filtering a sequence with one more element filters the sequence and then
/// decides on the element.
pub proof fn lemma_filter_push(s: Seq<usize>, x: usize, keep: spec_fn(usize) -> bool)
    ensures
        s.push(x).filter(keep) == if keep(x) {
            s.filter(keep).push(x)
        } else {
            s.filter(keep)
        },
{
    reveal(Seq::filter);
    assert(s.push(x).drop_last() =~= s);
}

/// What `members_below` lists: exactly the set bits below the bound, each
/// once, in ascending order.
pub proof fn lemma_members_below(word: u64, n: nat)
    requires
        n <= 64,
    ensures
        forall|k: int|
            0 <= k < members_below(word, n).len() ==> (#[trigger] members_below(word, n)[k]) < n
                && bit(word, members_below(word, n)[k] as u64),
        forall|k: int, l: int|
            0 <= k < l < members_below(word, n).len() ==> members_below(word, n)[k]
                < members_below(word, n)[l],
        forall|j: usize|
            j < n && bit(word, j as u64) ==> #[trigger] members_below(word, n).contains(j),
        members_below(word, n).len() == bits_set_below(word, n),
    decreases n,
{
    if n > 0 {
        lemma_members_below(word, (n - 1) as nat);
        let rest = members_below(word, (n - 1) as nat);
        let all = members_below(word, n);
        assert forall|j: usize| j < n && bit(word, j as u64) implies #[trigger] all.contains(j) by {
            if j < n - 1 {
                assert(rest.contains(j));
                let k = choose|k: int| 0 <= k < rest.len() && rest[k] == j;
                assert(all[k] == j);
            } else {
                assert(all[all.len() - 1] == j);
            }
        }
    }
}

/// The ids that `iter` yields are exactly the members, in ascending order,
/// and the first of them is what `first_cpu` returns.
pub proof fn lemma_members_are_the_set(set: CpuSet)
    requires
        set.wf(),
    ensures
        forall|j: usize| set.contains(j) <==> #[trigger] set.members().contains(j),
        forall|k: int, l: int|
            0 <= k < l < set.members().len() ==> set.members()[k] < set.members()[l],
        set.members().len() > 0 ==> set.contains(set.members()[0]) && forall|j: usize|
            #[trigger] set.contains(j) ==> set.members()[0] <= j,
        set.members().len() == 0 <==> forall|j: usize| !set.contains(j),
{
    let n = (set.max_id() + 1) as nat;
    lemma_members_below(set.bits(), n);
    let m = set.members();
    assert forall|j: usize| set.contains(j) <==> #[trigger] m.contains(j) by {
        if m.contains(j) {
            let k = choose|k: int| 0 <= k < m.len() && m[k] == j;
            assert(m[k] < n);
        }
    }
    if m.len() > 0 {
        assert(m.contains(m[0]));
        assert forall|j: usize| #[trigger] set.contains(j) implies m[0] <= j by {
            assert(m.contains(j));
            let k = choose|k: int| 0 <= k < m.len() && m[k] == j;
            if k > 0 {
                assert(m[0] < m[k]);
            }
        }
    } else {
        assert forall|j: usize| !set.contains(j) by {
            if set.contains(j) {
                assert(m.contains(j));
            }
        }
    }
    if forall|j: usize| !set.contains(j) {
        if m.len() > 0 {
            assert(m.contains(m[0]));
        }
    }
}

/// Where no bit above the largest id is set, `iter` yields as many ids as
/// the bitmap has bits set.
pub proof fn lemma_iter_counts_bits(set: CpuSet)
    requires
        set.wf(),
        forall|i: u64| set.max_id() < i < 64 ==> !#[trigger] bit(set.bits(), i),
    ensures
        set.members().len() == popcount(set.bits()),
{
    lemma_members_below(set.bits(), (set.max_id() + 1) as nat);
    lemma_no_bits_above(set.bits(), (set.max_id() + 1) as nat, 64);
}

/// Bits that are clear do not count.
pub proof fn lemma_no_bits_above(word: u64, lo: nat, hi: nat)
    requires
        lo <= hi <= 64,
        forall|i: u64| lo <= i < hi ==> !#[trigger] bit(word, i),
    ensures
        bits_set_below(word, hi) == bits_set_below(word, lo),
    decreases hi,
{
    if hi > lo {
        lemma_no_bits_above(word, lo, (hi - 1) as nat);
        assert(!bit(word, (hi - 1) as u64));
    }
}

/// The regions that a zone maps for its guest, in the order in which they
/// are put into its memory set. The guest's memory, as the first range of
/// the tree's memory node gives it, lies at `vm_paddr_start` in the host's
/// memory. The guest finds its device tree, which lies at `guest_dtb` in
/// the host's memory, at `dtb_addr`. The virtio devices, the test device,
/// the serial port, the core-local interrupter and the PCI host are mapped
/// onto themselves. The interrupt controller is left out, so that the
/// guest's accesses to it fault and are emulated.
pub open spec fn guest_regions(dt: &DeviceTree, vm_paddr_start: u64, guest_dtb: u64, dtb_addr: u64) -> Seq<
    MemoryRegion,
> {
    seq![
        region_of(dt.memory@[0].start, vm_paddr_start, dt.memory@[0].size->0 as int, rwx()),
        region_of(
            dtb_addr,
            guest_dtb,
            crate::memory::addr::align_up_spec(dt.total_size as int),
            rwx(),
        ),
    ] + device_regions(dt.virtio_mmio@, rw(), Sizing::Plain) + device_regions(
        dt.test@,
        rwx(),
        Sizing::PlusPage,
    ) + device_regions(dt.uart@, rw(), Sizing::RoundUp) + device_regions(
        dt.clint@,
        rw(),
        Sizing::Plain,
    ) + device_regions(dt.pci@, rw(), Sizing::Plain)
}

/// A guest: its id, its memory, and the harts bound to it.
#[derive(Debug)]
pub struct Zone {
    pub vmid: usize,
    pub gpm: MemorySet,
    pub cpu_set: CpuSet,
}

impl Zone {
    /// A zone with no memory mapped and no hart bound; the root of its page
    /// table takes frames from `pool`.
    pub fn new(vmid: usize, pool: &mut FrameAllocator) -> (r: HvResult<Self>)
        requires
            old(pool).wf(),
        ensures
            final(pool).wf(),
            final(pool).base() == old(pool).base(),
            final(pool).page_count() == old(pool).page_count(),
            r is Ok <==> root_available(old(pool), Stage::Stage2),
            final(pool).free().subset_of(old(pool).free()),
            r matches Ok(zone) ==> zone.vmid == vmid && zone.gpm.wf() && zone.gpm.stage()
                == Stage::Stage2 && zone.gpm.regions().len() == 0 && zone.gpm.table().backed_by(
                final(pool),
            ) && zone.cpu_set.wf() && zone.cpu_set.max_id() == MAX_CPU_NUM && zone.cpu_set.bits()
                == 0,
            r matches Err(e) ==> e == HvError::NoMem && final(pool).free() == old(pool).free(),
    {
        match MemorySet::new(Stage::Stage2, pool) {
            Ok(gpm) => Ok(Self { vmid, gpm, cpu_set: CpuSet::new(MAX_CPU_NUM, 0) }),
            Err(e) => Err(e),
        }
    }

    /// Lists the regions that the zone maps for its guest.
    pub fn guest_region_list(dt: &DeviceTree, vm_paddr_start: u64, guest_dtb: u64, dtb_addr: u64) -> (r:
        Vec<MemoryRegion>)
        requires
            dt.usable(),
        ensures
            r@ == guest_regions(dt, vm_paddr_start, guest_dtb, dtb_addr),
    {
        let rw_flags = MemFlags { bits: MEM_READ | MEM_WRITE };
        let rwx_flags = MemFlags { bits: MEM_READ | MEM_WRITE | MEM_EXECUTE };
        proof {
            assert(0x1u64 | 0x2u64 == 0x3u64) by (bit_vector);
            assert(0x1u64 | 0x2u64 | 0x4u64 == 0x7u64) by (bit_vector);
        }
        let mem = dt.memory[0];
        let mem_size: u64 = match mem.size {
            Some(size) => size,
            None => 0,
        };
        let mut out: Vec<MemoryRegion> = Vec::new();
        out.push(MemoryRegion::new_with_offset_mapper(mem.start, vm_paddr_start, mem_size, rwx_flags));
        out.push(
            MemoryRegion::new_with_offset_mapper(
                dtb_addr,
                guest_dtb,
                crate::memory::addr::align_up(dt.total_size),
                rwx_flags,
            ),
        );
        let ghost head = out@;
        push_device_regions(&mut out, &dt.virtio_mmio, rw_flags, Sizing::Plain);
        push_device_regions(&mut out, &dt.test, rwx_flags, Sizing::PlusPage);
        push_device_regions(&mut out, &dt.uart, rw_flags, Sizing::RoundUp);
        push_device_regions(&mut out, &dt.clint, rw_flags, Sizing::Plain);
        push_device_regions(&mut out, &dt.pci, rw_flags, Sizing::Plain);
        proof {
            assert(head =~= seq![
                region_of(mem.start, vm_paddr_start, mem_size as int, rwx()),
                region_of(
                    dtb_addr,
                    guest_dtb,
                    crate::memory::addr::align_up_spec(dt.total_size as int),
                    rwx(),
                ),
            ]);
        }
        out
    }

    /// Maps the guest's memory, its device tree and its devices, as
    /// `guest_regions` lists them, and stops at the first region that is
    /// refused or that the pool has no frames for.
    pub fn pt_init(
        &mut self,
        pool: &mut FrameAllocator,
        vm_paddr_start: u64,
        dt: &DeviceTree,
        guest_dtb: u64,
        dtb_addr: u64,
    ) -> (r: HvResult)
        requires
            old(self).gpm.wf(),
            old(self).gpm.table().backed_by(old(pool)),
            old(pool).wf(),
            dt.usable(),
        ensures
            final(pool).wf(),
            final(pool).base() == old(pool).base(),
            final(pool).page_count() == old(pool).page_count(),
            final(pool).free().subset_of(old(pool).free()),
            r matches Err(e) ==> (e == HvError::NoMem ==> exhausted(final(pool))),
            final(self).vmid == old(self).vmid,
            final(self).cpu_set == old(self).cpu_set,
            final(self).gpm.structured(),
            final(self).gpm.stage() == old(self).gpm.stage(),
            final(self).gpm.table().backed_by(final(pool)),
            inserted_all(
                old(self).gpm.regions(),
                guest_regions(dt, vm_paddr_start, guest_dtb, dtb_addr),
                old(self).gpm.stage(),
            ) matches Err(e) ==> r == Err::<(), HvError>(e) || r == Err::<(), HvError>(
                HvError::NoMem,
            ),
            inserted_all(
                old(self).gpm.regions(),
                guest_regions(dt, vm_paddr_start, guest_dtb, dtb_addr),
                old(self).gpm.stage(),
            ) matches Ok(all) ==> (r is Ok && final(self).gpm.regions() == all) || r == Err::<
                (),
                HvError,
            >(HvError::NoMem),
            r is Ok ==> final(self).gpm.wf(),
            r is Err ==> exists|k: int|
                0 <= k < guest_regions(dt, vm_paddr_start, guest_dtb, dtb_addr).len() && inserted_all(
                    old(self).gpm.regions(),
                    guest_regions(dt, vm_paddr_start, guest_dtb, dtb_addr).take(k),
                    old(self).gpm.stage(),
                ) == Ok::<Seq<MemoryRegion>, HvError>(final(self).gpm.regions()),
    {
        let todo = Self::guest_region_list(dt, vm_paddr_start, guest_dtb, dtb_addr);
        self.gpm.insert_all(pool, &todo)
    }

    /// What puts the zone's page table into use.
    pub fn gpm_activate(&self) -> (r: Activation)
        requires
            self.gpm.table().wf(),
        ensures
            r == self.gpm.activation(),
    {
        self.gpm.activate()
    }
}

/// Whether every hart node of the tree names a hart that `cpus` has a
/// record for and that a zone's set can hold.
pub open spec fn harts_known(dt: &DeviceTree, cpus: Seq<PerCpu>) -> bool {
    forall|i: int|
        0 <= i < dt.cpus@.len() ==> (#[trigger] dt.cpus@[i]) is Some && dt.cpus@[i]->0 < cpus.len()
            && dt.cpus@[i]->0 <= MAX_CPU_NUM
}

/// Whether `id` is the first id of a hart node of the tree.
pub open spec fn names_hart(dt: &DeviceTree, id: usize) -> bool {
    exists|i: int| 0 <= i < dt.cpus@.len() && #[trigger] dt.cpus@[i] == Some(id)
}

/// Whether no hart node of the tree names a hart below `id`.
pub open spec fn is_lowest_hart(dt: &DeviceTree, id: usize) -> bool {
    forall|other: usize| #[trigger] names_hart(dt, other) ==> id <= other
}

/// Whether `id` is the hart that the tree lists first: the one that boots
/// the zone.
pub open spec fn is_first_listed(dt: &DeviceTree, id: usize) -> bool {
    dt.cpus@.len() > 0 && dt.cpus@[0] == Some(id)
}

/// The lowest hart that a hart node of the tree names.
pub open spec fn lowest_hart(dt: &DeviceTree) -> usize {
    choose|id: usize| names_hart(dt, id) && is_lowest_hart(dt, id)
}

/// The records `cpus` once the harts that the tree names are told that they
/// belong to zone `vmid`: each of them gets the zone, the zone's lowest hart
/// and, as entry address, the start of the guest's memory; the hart that
/// the tree lists first is marked as the one that boots the zone.
pub open spec fn cpus_bound(cpus: Seq<PerCpu>, dt: &DeviceTree, vmid: usize) -> Seq<PerCpu> {
    Seq::new(
        cpus.len(),
        |id: int|
            if names_hart(dt, id as usize) {
                assigned(
                    cpus[id],
                    vmid,
                    is_first_listed(dt, id as usize),
                    lowest_hart(dt),
                    dt.memory@[0].start,
                )
            } else {
                cpus[id]
            },
    )
}

/// Binds the harts that the tree names to `zone`.
fn bind_harts(zone: &mut Zone, dt: &DeviceTree)
    requires
        old(zone).cpu_set.wf(),
        old(zone).cpu_set.max_id() == MAX_CPU_NUM,
        forall|i: int|
            0 <= i < dt.cpus@.len() ==> (#[trigger] dt.cpus@[i]) is Some && dt.cpus@[i]->0
                <= MAX_CPU_NUM,
    ensures
        final(zone).vmid == old(zone).vmid,
        final(zone).gpm == old(zone).gpm,
        final(zone).cpu_set.wf(),
        final(zone).cpu_set.max_id() == MAX_CPU_NUM,
        forall|id: usize| #[trigger]
            final(zone).cpu_set.contains(id) <==> old(zone).cpu_set.contains(id) || names_hart(dt, id),
{
    let mut i: usize = 0;
    while i < dt.cpus.len()
        invariant
            i <= dt.cpus@.len(),
            zone.vmid == old(zone).vmid,
            zone.gpm == old(zone).gpm,
            zone.cpu_set.wf(),
            zone.cpu_set.max_id() == MAX_CPU_NUM,
            forall|k: int|
                0 <= k < dt.cpus@.len() ==> (#[trigger] dt.cpus@[k]) is Some && dt.cpus@[k]->0
                    <= MAX_CPU_NUM,
            forall|id: usize| #[trigger]
                zone.cpu_set.contains(id) <==> old(zone).cpu_set.contains(id) || exists|k: int|
                    0 <= k < i && #[trigger] dt.cpus@[k] == Some(id),
        decreases dt.cpus@.len() - i,
    {
        let ghost before = zone.cpu_set;
        match dt.cpus[i] {
            Some(cpu_id) => {
                zone.cpu_set.set_bit(cpu_id);
                proof {
                    assert forall|id: usize| #[trigger]
                        zone.cpu_set.contains(id) <==> old(zone).cpu_set.contains(id) || exists|k: int|
                            0 <= k < i + 1 && #[trigger] dt.cpus@[k] == Some(id) by {
                        assert(zone.cpu_set.contains(id) == (before.contains(id) || id == cpu_id));
                        if id == cpu_id {
                            assert(dt.cpus@[i as int] == Some(id));
                        }
                        if exists|k: int| 0 <= k < i + 1 && #[trigger] dt.cpus@[k] == Some(id) {
                            let k = choose|k: int| 0 <= k < i + 1 && #[trigger] dt.cpus@[k] == Some(id);
                            if k < i {
                                assert(before.contains(id));
                            }
                        }
                    }
                }
            },
            None => {},
        }
        i = i + 1;
    }
}

/// Tells the harts of `cpu_set` that they belong to zone `vmid`: each gets
/// the zone, the zone's lowest hart `first` and the guest's entry address,
/// and the hart `boot` is marked as the one that boots the zone.
fn assign_harts(
    cpus: &mut Vec<PerCpu>,
    cpu_set: &CpuSet,
    vmid: usize,
    first: usize,
    boot: usize,
    entry: u64,
)
    requires
        cpu_set.wf(),
        forall|id: usize| #[trigger] cpu_set.contains(id) ==> id < old(cpus)@.len(),
    ensures
        final(cpus)@.len() == old(cpus)@.len(),
        forall|id: usize|
            id < old(cpus)@.len() ==> #[trigger] final(cpus)@[id as int] == if cpu_set.contains(id) {
                assigned(old(cpus)@[id as int], vmid, id == boot, first, entry)
            } else {
                old(cpus)@[id as int]
            },
{
    let members = cpu_set.iter();
    proof {
        lemma_members_are_the_set(*cpu_set);
    }
    let mut k: usize = 0;
    while k < members.len()
        invariant
            k <= members@.len(),
            cpu_set.wf(),
            members@ == cpu_set.members(),
            cpus@.len() == old(cpus)@.len(),
            forall|id: usize| cpu_set.contains(id) <==> #[trigger] members@.contains(id),
            forall|a: int, b: int| 0 <= a < b < members@.len() ==> members@[a] < members@[b],
            forall|id: usize| #[trigger] cpu_set.contains(id) ==> id < old(cpus)@.len(),
            forall|id: int|
                0 <= id < old(cpus)@.len() ==> #[trigger] cpus@[id] == if exists|j: int|
                    0 <= j < k && members@[j] == id {
                    assigned(old(cpus)@[id], vmid, id as usize == boot, first, entry)
                } else {
                    old(cpus)@[id]
                },
        decreases members@.len() - k,
    {
        let cpuid: usize = members[k];
        proof {
            assert(members@.contains(cpuid));
            assert(cpu_set.contains(cpuid));
            assert(!exists|j: int| 0 <= j < k && members@[j] == cpuid) by {
                if exists|j: int| 0 <= j < k && members@[j] == cpuid {
                    let j = choose|j: int| 0 <= j < k && members@[j] == cpuid;
                    assert(members@[j] < members@[k as int]);
                }
            }
        }
        let ghost before = cpus@;
        cpus[cpuid].zone = Some(vmid);
        if cpuid == boot {
            cpus[cpuid].boot_cpu = true;
        }
        cpus[cpuid].arch_cpu.first_cpu = first;
        cpus[cpuid].cpu_on_entry = entry;
        proof {
            assert(cpus@[cpuid as int] == assigned(before[cpuid as int], vmid, cpuid == boot, first, entry));
            assert forall|id: int| 0 <= id < old(cpus)@.len() implies #[trigger] cpus@[id] == if exists|
                j: int,
            | 0 <= j < k + 1 && members@[j] == id {
                assigned(old(cpus)@[id], vmid, id as usize == boot, first, entry)
            } else {
                old(cpus)@[id]
            } by {
                if id == cpuid {
                    assert(members@[k as int] == id);
                } else {
                    assert(cpus@[id] == before[id]);
                    if exists|j: int| 0 <= j < k + 1 && members@[j] == id {
                        let j = choose|j: int| 0 <= j < k + 1 && members@[j] == id;
                        assert(j < k);
                    }
                }
            }
        }
        k = k + 1;
    }
    proof {
        assert forall|id: usize| id < old(cpus)@.len() implies #[trigger] cpus@[id as int]
            == if cpu_set.contains(id) {
            assigned(old(cpus)@[id as int], vmid, id == boot, first, entry)
        } else {
            old(cpus)@[id as int]
        } by {
            if cpu_set.contains(id) {
                assert(members@.contains(id));
                let j = choose|j: int| 0 <= j < members@.len() && members@[j] == id;
                assert(0 <= j < k && members@[j] == id);
            }
            if exists|j: int| 0 <= j < k && members@[j] == id {
                let j = choose|j: int| 0 <= j < k && members@[j] == id;
                assert(members@.contains(members@[j]));
            }
        }
    }
}

/// The record `cpu` once its hart is told that it belongs to zone `vmid`,
/// whose lowest hart is `first` and whose guest is entered at `entry`;
/// `boots` says whether the hart is the lowest itself.
pub open spec fn assigned(cpu: PerCpu, vmid: usize, boots: bool, first: usize, entry: u64) -> PerCpu {
    PerCpu {
        zone: Some(vmid),
        boot_cpu: cpu.boot_cpu || boots,
        cpu_on_entry: entry,
        arch_cpu: crate::arch::riscv::cpu::ArchCpu { first_cpu: first, ..cpu.arch_cpu },
        ..cpu
    }
}

/// Creates zone `vmid` from the guest's device tree: its memory is mapped
/// as `pt_init` says, the harts that the tree names are bound to it, and
/// each of them is told so; the hart that the tree lists first boots the
/// zone. The guest is entered at the start of its memory.
pub fn zone_create(
    pool: &mut FrameAllocator,
    cpus: &mut Vec<PerCpu>,
    vmid: usize,
    vm_paddr_start: u64,
    dt: &DeviceTree,
    guest_dtb: u64,
    dtb_addr: u64,
) -> (r: HvResult<Zone>)
    requires
        old(pool).wf(),
        dt.usable(),
        harts_known(dt, old(cpus)@),
    ensures
        final(pool).wf(),
        final(pool).base() == old(pool).base(),
        final(pool).page_count() == old(pool).page_count(),
        final(pool).free().subset_of(old(pool).free()),
        final(cpus)@.len() == old(cpus)@.len(),
        r is Err ==> final(cpus)@ == old(cpus)@,
        r matches Err(e) ==> (e == HvError::NoMem ==> !root_available(final(pool), Stage::Stage2)),
        inserted_all(
            Seq::empty(),
            guest_regions(dt, vm_paddr_start, guest_dtb, dtb_addr),
            Stage::Stage2,
        ) matches Err(e) ==> r matches Err(got) && (got == e || got == HvError::NoMem),
        inserted_all(
            Seq::empty(),
            guest_regions(dt, vm_paddr_start, guest_dtb, dtb_addr),
            Stage::Stage2,
        ) matches Ok(all) ==> (r matches Ok(zone) && zone.gpm.regions() == all) || (r matches Err(
            got,
        ) && got == HvError::NoMem),
        r matches Ok(zone) ==> {
            &&& zone.vmid == vmid
            &&& zone.gpm.wf()
            &&& zone.gpm.stage() == Stage::Stage2
            &&& zone.gpm.table().backed_by(final(pool))
            &&& zone.cpu_set.wf()
            &&& forall|id: usize| #[trigger] zone.cpu_set.contains(id) <==> names_hart(dt, id)
            &&& final(cpus)@ == cpus_bound(old(cpus)@, dt, vmid)
        },
{
    let guest_entry: u64 = dt.memory[0].start;
    let mut zone = match Zone::new(vmid, pool) {
        Ok(zone) => zone,
        Err(e) => {
            proof {
                crate::memory::paging::lemma_root_same(old(pool), pool, Stage::Stage2);
            }
            return Err(e);
        },
    };
    proof {
        assert(zone.gpm.regions() =~= Seq::<MemoryRegion>::empty());
    }
    match zone.pt_init(pool, vm_paddr_start, dt, guest_dtb, dtb_addr) {
        Ok(()) => {},
        Err(e) => {
            proof {
                crate::memory::paging::lemma_root_needs_pages(pool);
            }
            return Err(e);
        },
    }
    bind_harts(&mut zone, dt);
    let cpu_set = zone.cpu_set;
    proof {
        assert forall|id: usize| #[trigger] cpu_set.contains(id) <==> names_hart(dt, id) by {
            assert(!bit(0u64, id as u64)) by (bit_vector);
        }
        assert forall|id: usize| #[trigger] cpu_set.contains(id) implies id < cpus@.len() by {
            let i = choose|i: int| 0 <= i < dt.cpus@.len() && #[trigger] dt.cpus@[i] == Some(id);
            assert(dt.cpus@[i]->0 < cpus@.len());
        }
        lemma_members_are_the_set(cpu_set);
    }
    let count: usize = cpus.len();
    match cpu_set.first_cpu() {
        Some(first) => {
            proof {
                assert(cpu_set.members().contains(first));
                assert(cpu_set.members().len() > 0);
                assert(cpu_set.members()[0] == first) by {
                    assert(cpu_set.contains(cpu_set.members()[0]));
                }
            }
            proof {
                assert(names_hart(dt, first));
                let i = choose|i: int| 0 <= i < dt.cpus@.len() && #[trigger] dt.cpus@[i] == Some(first);
                assert(dt.cpus@[0] is Some);
            }
            let boot: usize = match dt.cpus[0] {
                Some(id) => id,
                None => first,
            };
            assign_harts(cpus, &cpu_set, vmid, first, boot, guest_entry);
            proof {
                assert(names_hart(dt, first) && is_lowest_hart(dt, first)) by {
                    assert(cpu_set.contains(first));
                    assert forall|other: usize| #[trigger] names_hart(dt, other) implies first
                        <= other by {
                        assert(cpu_set.contains(other));
                    }
                }
                assert(lowest_hart(dt) == first) by {
                    let l = lowest_hart(dt);
                    assert(names_hart(dt, l) && is_lowest_hart(dt, l));
                }
                assert forall|id: usize| id < old(cpus)@.len() implies #[trigger] cpus@[id as int]
                    == if names_hart(dt, id) {
                    assigned(
                        old(cpus)@[id as int],
                        vmid,
                        is_first_listed(dt, id),
                        first,
                        dt.memory@[0].start,
                    )
                } else {
                    old(cpus)@[id as int]
                } by {
                    assert(cpu_set.contains(id) == names_hart(dt, id));
                    assert((id == boot) == is_first_listed(dt, id));
                }
                assert forall|id: int| 0 <= id < cpus@.len() implies cpus@[id] == cpus_bound(
                    old(cpus)@,
                    dt,
                    vmid,
                )[id] by {
                    assert(id < count);
                    assert(cpus@[(id as usize) as int] == cpus@[id]);
                }
                assert(cpus@ =~= cpus_bound(old(cpus)@, dt, vmid));
            }
        },
        None => {
            proof {
                assert forall|id: int| 0 <= id < cpus@.len() implies cpus@[id] == cpus_bound(
                    old(cpus)@,
                    dt,
                    vmid,
                )[id] by {
                    assert(id < count);
                    assert(!cpu_set.contains(id as usize));
                }
                assert(cpus@ =~= cpus_bound(old(cpus)@, dt, vmid));
            }
        },
    }
    Ok(zone)
}

/// Adds a zone to the list of zones.
pub fn add_zone(zones: &mut Vec<Zone>, zone: Zone)
    ensures
        final(zones)@ == old(zones)@.push(zone),
{
    zones.push(zone);
}

/// After `pt_init` on a fresh zone, the guest's memory and its device tree
/// resolve: the walk for an address of the guest's memory yields the
/// address as far behind `vm_paddr_start` as it lies behind the memory's
/// start, and the walk for an address of the device tree's range at
/// `dtb_addr` yields the address as far behind `guest_dtb`; both with the
/// rights to read, write and execute. The addresses given are taken as
/// they lie on page boundaries.
pub proof fn lemma_guest_memory_resolves(
    zone: &Zone,
    dt: &DeviceTree,
    vm_paddr_start: u64,
    guest_dtb: u64,
    dtb_addr: u64,
    v: int,
)
    requires
        zone.gpm.wf(),
        inserted_all(
            Seq::empty(),
            guest_regions(dt, vm_paddr_start, guest_dtb, dtb_addr),
            zone.gpm.stage(),
        ) == Ok::<Seq<MemoryRegion>, HvError>(zone.gpm.regions()),
        dt.memory@[0].start % 0x1000 == 0,
        vm_paddr_start % 0x1000 == 0,
        dtb_addr % 0x1000 == 0,
        guest_dtb % 0x1000 == 0,
    ensures
        dt.memory@[0].start <= v < dt.memory@[0].start + crate::memory::addr::align_up_spec(
            dt.memory@[0].size->0 as int,
        ) as u64 ==> zone.gpm.table().translate(v) == Some(
            crate::memory::paging::Translation {
                paddr: (vm_paddr_start + (v - dt.memory@[0].start)) as u64,
                flags: rwx(),
            },
        ),
        dtb_addr <= v < dtb_addr + crate::memory::addr::align_up_spec(
            crate::memory::addr::align_up_spec(dt.total_size as int),
        ) as u64 ==> zone.gpm.table().translate(v) == Some(
            crate::memory::paging::Translation {
                paddr: (guest_dtb + (v - dtb_addr)) as u64,
                flags: rwx(),
            },
        ),
{
    let todo = guest_regions(dt, vm_paddr_start, guest_dtb, dtb_addr);
    if todo[0].covers(v) {
        crate::memory::mm::lemma_inserted_regions_resolve(&zone.gpm, todo, 0, v);
    }
    if todo[1].covers(v) {
        crate::memory::mm::lemma_inserted_regions_resolve(&zone.gpm, todo, 1, v);
    }
}

} // verus!
