//! The per-hart control blocks.
use vstd::prelude::*;
use crate::arch::riscv::cpu::{is_fresh, is_prepared, stack_top_spec, ArchCpu};
use crate::arch::riscv::csr::CsrOp;
use crate::consts::{INVALID_ADDRESS, PER_CPU_SIZE};

verus! {

/// What the image keeps for one hart.
#[derive(Debug)]
pub struct PerCpu {
    pub id: usize,
    /// The guest entry address assigned to this hart.
    pub cpu_on_entry: u64,
    pub arch_cpu: ArchCpu,
    /// The id of the zone that this hart is bound to, if it is bound.
    pub zone: Option<usize>,
    /// Whether this hart boots its zone.
    pub boot_cpu: bool,
}

/// What a hart does once the boot barriers are behind it.
#[derive(Clone, Copy, Debug, PartialEq, Eq, Structural)]
pub enum RunAction {
    /// Enter the guest right away.
    Enter,
    /// Wait for an interrupt first, then clear the pending software
    /// interrupt and enter the guest.
    IdleThenEnter,
}

/// Address of the record of hart `cpu_id` in an array that starts at
/// `per_cpu_base`.
pub open spec fn cpu_data_addr(per_cpu_base: u64, cpu_id: usize) -> int {
    per_cpu_base + cpu_id * PER_CPU_SIZE
}

/// Computes where the record of hart `cpu_id` lies.
pub fn get_cpu_data(per_cpu_base: u64, cpu_id: usize) -> (r: u64)
    requires
        cpu_data_addr(per_cpu_base, cpu_id) <= u64::MAX,
    ensures
        r == cpu_data_addr(per_cpu_base, cpu_id),
{
    assert(PER_CPU_SIZE == 0x2_0000);
    per_cpu_base + (cpu_id as u64) * (PER_CPU_SIZE as u64)
}

impl PerCpu {
    /// The record of hart `cpu_id` as it is when the hart enters: bound to
    /// no zone, with no entry address.
    pub fn new(cpu_id: usize) -> (r: Self)
        ensures
            r.id == cpu_id,
            r.cpu_on_entry == INVALID_ADDRESS,
            is_fresh(r.arch_cpu, cpu_id),
            r.zone is None,
            !r.boot_cpu,
    {
        PerCpu {
            id: cpu_id,
            cpu_on_entry: INVALID_ADDRESS,
            arch_cpu: ArchCpu::new(cpu_id),
            zone: None,
            boot_cpu: false,
        }
    }

    /// Prepares the hart to enter its guest at the entry address assigned to
    /// it, with `dtb` as the address of the guest's device tree.
    pub fn cpu_init(&mut self, per_cpu_base: u64, dtb: u64) -> (r: Vec<CsrOp>)
        requires
            stack_top_spec(per_cpu_base, old(self).arch_cpu.hartid) <= u64::MAX,
        ensures
            final(self).id == old(self).id,
            final(self).cpu_on_entry == old(self).cpu_on_entry,
            final(self).zone == old(self).zone,
            final(self).boot_cpu == old(self).boot_cpu,
            is_prepared(
                old(self).arch_cpu,
                final(self).arch_cpu,
                per_cpu_base,
                old(self).cpu_on_entry,
                old(self).id as u64,
                dtb,
            ),
            r@ == crate::arch::riscv::cpu::init_program(),
    {
        let entry: u64 = self.cpu_on_entry;
        let id: u64 = self.id as u64;
        self.arch_cpu.init(per_cpu_base, entry, id, dtb)
    }

    /// What the hart does to run its guest: the boot hart of a zone enters
    /// at once, every other hart idles until it is woken.
    pub fn run_vm(&self) -> (r: RunAction)
        ensures
            r == if self.boot_cpu {
                RunAction::Enter
            } else {
                RunAction::IdleThenEnter
            },
    {
        if self.boot_cpu {
            RunAction::Enter
        } else {
            RunAction::IdleThenEnter
        }
    }
}

} // verus!
