//! Numbers of the control and status registers, and the register accesses
//! that the hypervisor's decisions ask for.
use vstd::prelude::*;

verus! {

pub const CSR_SCAUSE: u64 = 0x142;

pub const CSR_STVEC: u64 = 0x105;

pub const CSR_SEPC: u64 = 0x141;

pub const CSR_SSTATUS: u64 = 0x100;

pub const CSR_SIE: u64 = 0x104;

pub const CSR_SCOUNTEREN: u64 = 0x106;

pub const CSR_SSCRATCH: u64 = 0x140;

pub const CSR_SIP: u64 = 0x144;

pub const CSR_SATP: u64 = 0x180;

pub const CSR_VSSTATUS: u64 = 0x200;

pub const CSR_VSIE: u64 = 0x204;

pub const CSR_VSTVEC: u64 = 0x205;

pub const CSR_VSSCRATCH: u64 = 0x240;

pub const CSR_VSEPC: u64 = 0x241;

pub const CSR_VSCAUSE: u64 = 0x242;

pub const CSR_VSTVAL: u64 = 0x243;

pub const CSR_VSIP: u64 = 0x244;

pub const CSR_VSATP: u64 = 0x280;

pub const CSR_VSTIMECMP: u64 = 0x24D;

pub const CSR_VSTIMECMPH: u64 = 0x25D;

pub const CSR_HSTATUS: u64 = 0x600;

pub const CSR_HEDELEG: u64 = 0x602;

pub const CSR_HIDELEG: u64 = 0x603;

pub const CSR_HIE: u64 = 0x604;

pub const CSR_HTIMEDELTA: u64 = 0x605;

pub const CSR_HTIMEDELTAH: u64 = 0x615;

pub const CSR_HCOUNTEREN: u64 = 0x606;

pub const CSR_HGEIE: u64 = 0x607;

pub const CSR_HTVAL: u64 = 0x643;

pub const CSR_HIP: u64 = 0x644;

pub const CSR_HVIP: u64 = 0x645;

pub const CSR_HTINST: u64 = 0x64A;

pub const CSR_HGATP: u64 = 0x680;

pub const CSR_HGEIP: u64 = 0xE07;

pub const CSR_HENVCFG: u64 = 0x60A;

pub const CSR_HENVCFGH: u64 = 0x61A;

pub const CSR_STIMECMP: u64 = 0x14D;

pub const CSR_STIMECMPH: u64 = 0x15D;

/// `hstatus.SPV`: the trap came from a virtual mode.
pub const HSTATUS_SPV: u64 = 0x80;

/// `hstatus.VSXL` set for a 64-bit guest.
pub const HSTATUS_VSXL_64: u64 = 0x2_0000_0000;

/// `sstatus.SPP`: return to supervisor mode.
pub const SSTATUS_SPP: u64 = 0x100;

/// `sstatus.SD`: some extension state is dirty.
pub const SSTATUS_SD: u64 = 0x8000_0000_0000_0000;

/// `sstatus.FS` set to dirty.
pub const SSTATUS_FS_DIRTY: u64 = 0x6000;

/// `sstatus.XS` set to dirty.
pub const SSTATUS_XS_DIRTY: u64 = 0x1_8000;

/// `hideleg` bit for the virtual supervisor software interrupt.
pub const HIDELEG_VSSI: u64 = 0x4;

/// `hideleg` bit for the virtual supervisor timer interrupt.
pub const HIDELEG_VSTI: u64 = 0x40;

/// `hideleg` bit for the virtual supervisor external interrupt.
pub const HIDELEG_VSEI: u64 = 0x400;

/// `hedeleg` bit for an environment call from user mode.
pub const HEDELEG_ECU: u64 = 0x100;

/// `hedeleg` bit for an instruction page fault.
pub const HEDELEG_IPF: u64 = 0x1000;

/// `hedeleg` bit for a load page fault.
pub const HEDELEG_LPF: u64 = 0x2000;

/// `hedeleg` bit for a store page fault.
pub const HEDELEG_SPF: u64 = 0x8000;

/// Counter-enable bit for `time`.
pub const COUNTEREN_TM: u64 = 0x2;

/// `henvcfg.STCE`: the guest may use `stimecmp`.
pub const HENVCFG_STCE: u64 = 0x8000_0000_0000_0000;

/// `sie`/`sip` bit for the supervisor software interrupt.
pub const SIE_SSIE: u64 = 0x2;

/// `sie`/`sip` bit for the supervisor timer interrupt.
pub const SIE_STIE: u64 = 0x20;

/// `sie`/`sip` bit for the supervisor external interrupt.
pub const SIE_SEIE: u64 = 0x200;

/// `hvip` bit that makes a software interrupt pending in the guest.
pub const HVIP_VSSIP: u64 = 0x4;

/// `hvip` bit that makes a timer interrupt pending in the guest.
pub const HVIP_VSTIP: u64 = 0x40;

/// `hvip` bit that makes an external interrupt pending in the guest.
pub const HVIP_VSEIP: u64 = 0x400;

/// How a register access changes the register.
#[derive(Clone, Copy, Debug, PartialEq, Eq, Structural)]
pub enum CsrAccess {
    /// The register takes the value.
    Write,
    /// The bits of the value are set in the register.
    SetBits,
    /// The bits of the value are cleared in the register.
    ClearBits,
}

/// One access to a control and status register, for the caller to perform.
#[derive(Clone, Copy, Debug, PartialEq, Eq, Structural)]
pub struct CsrOp {
    pub access: CsrAccess,
    pub csr: u64,
    pub value: u64,
}

/// What a register holds after `op`, if it held `before`; a register that
/// `op` does not name keeps its value.
pub open spec fn csr_after(op: CsrOp, csr: u64, before: u64) -> u64 {
    if op.csr != csr {
        before
    } else {
        match op.access {
            CsrAccess::Write => op.value,
            CsrAccess::SetBits => before | op.value,
            CsrAccess::ClearBits => before & !op.value,
        }
    }
}

/// What a register holds after the accesses of `ops`, in order.
pub open spec fn csr_after_all(ops: Seq<CsrOp>, csr: u64, before: u64) -> u64
    decreases ops.len(),
{
    if ops.len() == 0 {
        before
    } else {
        csr_after(ops.last(), csr, csr_after_all(ops.drop_last(), csr, before))
    }
}

impl CsrOp {
    /// What register `csr` holds after the access, if it held `before`.
    pub fn apply(&self, csr: u64, before: u64) -> (r: u64)
        ensures
            r == csr_after(*self, csr, before),
    {
        if self.csr != csr {
            before
        } else {
            match self.access {
                CsrAccess::Write => self.value,
                CsrAccess::SetBits => before | self.value,
                CsrAccess::ClearBits => before & !self.value,
            }
        }
    }
}

/// What register `csr` holds after the accesses of `ops`, in order, if it
/// held `before`.
pub fn apply_all(ops: &Vec<CsrOp>, csr: u64, before: u64) -> (r: u64)
    ensures
        r == csr_after_all(ops@, csr, before),
{
    let mut value: u64 = before;
    let mut i: usize = 0;
    proof {
        assert(ops@.take(0) =~= Seq::<CsrOp>::empty());
    }
    while i < ops.len()
        invariant
            i <= ops@.len(),
            value == csr_after_all(ops@.take(i as int), csr, before),
        decreases ops@.len() - i,
    {
        proof {
            assert(ops@.take(i + 1).drop_last() =~= ops@.take(i as int));
            assert(ops@.take(i + 1).last() == ops@[i as int]);
        }
        value = ops[i].apply(csr, value);
        i = i + 1;
    }
    proof {
        assert(ops@.take(ops@.len() as int) =~= ops@);
    }
    value
}

} // verus!
