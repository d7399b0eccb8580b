//! The register shadow of one hart.
use vstd::prelude::*;
use crate::arch::riscv::csr::{
    COUNTEREN_TM, CSR_HCOUNTEREN, CSR_HEDELEG, CSR_HENVCFG, CSR_HIDELEG, CSR_HIE, CSR_HTIMEDELTA, CSR_HVIP, CSR_SCOUNTEREN, CSR_SIE, CSR_VSATP, CSR_VSCAUSE, CSR_VSEPC, CSR_VSSCRATCH, CSR_VSSTATUS, CSR_VSTVAL, CSR_VSTVEC, CsrAccess, CsrOp, HEDELEG_ECU, HEDELEG_IPF, HEDELEG_LPF, HEDELEG_SPF, HENVCFG_STCE, HIDELEG_VSEI, HIDELEG_VSSI, HIDELEG_VSTI, HSTATUS_SPV, HSTATUS_VSXL_64, SIE_SEIE, SIE_SSIE, SIE_STIE, SSTATUS_FS_DIRTY, SSTATUS_SD, SSTATUS_SPP, SSTATUS_XS_DIRTY,
};
use crate::consts::PER_CPU_SIZE;

verus! {

/// The registers of a hart that the trap vector saves and restores, and what
/// the trap engine keeps beside them.
#[derive(Debug)]
pub struct ArchCpu {
    /// The integer registers `x0` to `x31`.
    pub x: [u64; 32],
    pub hstatus: u64,
    pub sstatus: u64,
    pub sepc: u64,
    pub stack_top: u64,
    pub hartid: usize,
    /// The lowest hart of the zone that this hart belongs to.
    pub first_cpu: usize,
    /// Whether the guest programs its timer through `vstimecmp`.
    pub sstc: bool,
    pub ssi: usize,
    pub sti: usize,
    pub sei: usize,
}

/// The register accesses that prepare a hart for its guest: interrupts and
/// exceptions of the guest are delegated to it, it may read `time` and use
/// `stimecmp`, the hypervisor's own three interrupts are enabled, and the
/// guest's supervisor registers start at zero.
pub open spec fn init_program() -> Seq<CsrOp> {
    seq![
        CsrOp { access: CsrAccess::SetBits, csr: CSR_HIDELEG, value: 0x444 },
        CsrOp { access: CsrAccess::SetBits, csr: CSR_HEDELEG, value: 0xb100 },
        CsrOp { access: CsrAccess::SetBits, csr: CSR_HCOUNTEREN, value: 0x2 },
        CsrOp { access: CsrAccess::SetBits, csr: CSR_SCOUNTEREN, value: 0x2 },
        CsrOp { access: CsrAccess::Write, csr: CSR_HTIMEDELTA, value: 0 },
        CsrOp { access: CsrAccess::SetBits, csr: CSR_HENVCFG, value: 0x8000_0000_0000_0000 },
        CsrOp { access: CsrAccess::SetBits, csr: CSR_SIE, value: 0x222 },
        CsrOp { access: CsrAccess::Write, csr: CSR_HIE, value: 0 },
        CsrOp { access: CsrAccess::Write, csr: CSR_VSSTATUS, value: 0 },
        CsrOp { access: CsrAccess::Write, csr: CSR_VSTVEC, value: 0 },
        CsrOp { access: CsrAccess::Write, csr: CSR_VSSCRATCH, value: 0 },
        CsrOp { access: CsrAccess::Write, csr: CSR_VSEPC, value: 0 },
        CsrOp { access: CsrAccess::Write, csr: CSR_VSCAUSE, value: 0 },
        CsrOp { access: CsrAccess::Write, csr: CSR_VSTVAL, value: 0 },
        CsrOp { access: CsrAccess::Write, csr: CSR_HVIP, value: 0 },
        CsrOp { access: CsrAccess::Write, csr: CSR_VSATP, value: 0 },
    ]
}

/// The top of the stack of hart `hartid`, where the per-CPU array starts at
/// `per_cpu_base`: eight bytes below the end of the hart's record.
pub open spec fn stack_top_spec(per_cpu_base: u64, hartid: usize) -> int {
    per_cpu_base + (hartid + 1) * PER_CPU_SIZE - 8
}

/// Whether `after` differs from `before` at most in the integer registers
/// and the program counter: the two status words, the stack top, the hart
/// id, the zone's lowest hart, the timer mode and the three interrupt
/// counts are the same.
pub open spec fn keeps_state(before: ArchCpu, after: ArchCpu) -> bool {
    &&& after.hstatus == before.hstatus
    &&& after.sstatus == before.sstatus
    &&& after.stack_top == before.stack_top
    &&& after.hartid == before.hartid
    &&& after.first_cpu == before.first_cpu
    &&& after.sstc == before.sstc
    &&& after.ssi == before.ssi
    &&& after.sti == before.sti
    &&& after.sei == before.sei
}

/// Whether `cpu` is the shadow of hart `hartid` as it is made: the hart id
/// set, everything else zero.
pub open spec fn is_fresh(cpu: ArchCpu, hartid: usize) -> bool {
    &&& cpu.hartid == hartid
    &&& forall|i: int| 0 <= i < 32 ==> cpu.x@[i] == 0
    &&& cpu.hstatus == 0
    &&& cpu.sstatus == 0
    &&& cpu.sepc == 0
    &&& cpu.stack_top == 0
    &&& cpu.first_cpu == 0
    &&& !cpu.sstc
    &&& cpu.ssi == 0
    &&& cpu.sti == 0
    &&& cpu.sei == 0
}

/// Whether `after` is `before` prepared to enter its guest at `entry`, with
/// `cpu_id` in `a0` and `dtb` in `a1`, its stack in the per-CPU array that
/// starts at `per_cpu_base`.
pub open spec fn is_prepared(
    before: ArchCpu,
    after: ArchCpu,
    per_cpu_base: u64,
    entry: u64,
    cpu_id: u64,
    dtb: u64,
) -> bool {
    &&& after.sepc == entry
    &&& after.hstatus == HSTATUS_SPV | HSTATUS_VSXL_64
    &&& after.sstatus == SSTATUS_SPP | SSTATUS_SD | SSTATUS_FS_DIRTY | SSTATUS_XS_DIRTY
    &&& after.stack_top == stack_top_spec(per_cpu_base, before.hartid)
    &&& after.x@ == before.x@.update(10, cpu_id).update(11, dtb)
    &&& after.hartid == before.hartid
    &&& after.first_cpu == before.first_cpu
    &&& after.sstc == before.sstc
    &&& after.ssi == before.ssi
    &&& after.sti == before.sti
    &&& after.sei == before.sei
}

impl ArchCpu {
    /// The shadow of hart `hartid` with every register at zero.
    pub fn new(hartid: usize) -> (r: Self)
        ensures
            is_fresh(r, hartid),
    {
        ArchCpu {
            x: [0;32],
            hstatus: 0,
            sstatus: 0,
            sepc: 0,
            stack_top: 0,
            hartid,
            first_cpu: 0,
            sstc: false,
            ssi: 0,
            sti: 0,
            sei: 0,
        }
    }

    pub fn get_hartid(&self) -> (r: usize)
        ensures
            r == self.hartid,
    {
        self.hartid
    }

    /// The top of this hart's stack, where the per-CPU array starts at
    /// `per_cpu_base`.
    pub fn stack_top(&self, per_cpu_base: u64) -> (r: u64)
        requires
            stack_top_spec(per_cpu_base, self.hartid) <= u64::MAX,
        ensures
            r == stack_top_spec(per_cpu_base, self.hartid),
    {
        assert(PER_CPU_SIZE == 0x2_0000);
        let record: u64 = PER_CPU_SIZE as u64;
        let below: u64 = (self.hartid as u64) * record;
        per_cpu_base + below + (record - 8)
    }

    /// Prepares the hart to enter its guest at `entry`: the guest starts in
    /// virtual supervisor mode with its hart id in `a0` and the address of
    /// its device tree in `a1`. Returns the register accesses that go with
    /// it, for the caller to perform in order.
    pub fn init(&mut self, per_cpu_base: u64, entry: u64, cpu_id: u64, dtb: u64) -> (r: Vec<CsrOp>)
        requires
            stack_top_spec(per_cpu_base, old(self).hartid) <= u64::MAX,
        ensures
            is_prepared(*old(self), *final(self), per_cpu_base, entry, cpu_id, dtb),
            r@ == init_program(),
    {
        self.sepc = entry;
        self.hstatus = HSTATUS_SPV | HSTATUS_VSXL_64;
        self.sstatus = SSTATUS_SPP | SSTATUS_SD | SSTATUS_FS_DIRTY | SSTATUS_XS_DIRTY;
        self.stack_top = self.stack_top(per_cpu_base);
        self.x[10] = cpu_id;
        self.x[11] = dtb;
        let mut ops: Vec<CsrOp> = Vec::new();
        ops.push(
            CsrOp {
                access: CsrAccess::SetBits,
                csr: CSR_HIDELEG,
                value: HIDELEG_VSSI | HIDELEG_VSTI | HIDELEG_VSEI,
            },
        );
        ops.push(
            CsrOp {
                access: CsrAccess::SetBits,
                csr: CSR_HEDELEG,
                value: HEDELEG_ECU | HEDELEG_IPF | HEDELEG_LPF | HEDELEG_SPF,
            },
        );
        ops.push(CsrOp { access: CsrAccess::SetBits, csr: CSR_HCOUNTEREN, value: COUNTEREN_TM });
        ops.push(CsrOp { access: CsrAccess::SetBits, csr: CSR_SCOUNTEREN, value: COUNTEREN_TM });
        ops.push(CsrOp { access: CsrAccess::Write, csr: CSR_HTIMEDELTA, value: 0 });
        ops.push(CsrOp { access: CsrAccess::SetBits, csr: CSR_HENVCFG, value: HENVCFG_STCE });
        ops.push(
            CsrOp { access: CsrAccess::SetBits, csr: CSR_SIE, value: SIE_SEIE | SIE_STIE | SIE_SSIE },
        );
        ops.push(CsrOp { access: CsrAccess::Write, csr: CSR_HIE, value: 0 });
        ops.push(CsrOp { access: CsrAccess::Write, csr: CSR_VSSTATUS, value: 0 });
        ops.push(CsrOp { access: CsrAccess::Write, csr: CSR_VSTVEC, value: 0 });
        ops.push(CsrOp { access: CsrAccess::Write, csr: CSR_VSSCRATCH, value: 0 });
        ops.push(CsrOp { access: CsrAccess::Write, csr: CSR_VSEPC, value: 0 });
        ops.push(CsrOp { access: CsrAccess::Write, csr: CSR_VSCAUSE, value: 0 });
        ops.push(CsrOp { access: CsrAccess::Write, csr: CSR_VSTVAL, value: 0 });
        ops.push(CsrOp { access: CsrAccess::Write, csr: CSR_HVIP, value: 0 });
        ops.push(CsrOp { access: CsrAccess::Write, csr: CSR_VSATP, value: 0 });
        proof {
            assert(0x4u64 | 0x40u64 | 0x400u64 == 0x444u64) by (bit_vector);
            assert(0x100u64 | 0x1000u64 | 0x2000u64 | 0x8000u64 == 0xb100u64) by (bit_vector);
            assert(0x200u64 | 0x20u64 | 0x2u64 == 0x222u64) by (bit_vector);
            assert(ops@ =~= init_program());
        }
        ops
    }
}

} // verus!
