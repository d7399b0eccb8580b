//! The shim between a guest's firmware calls and the firmware.
use vstd::prelude::*;
use crate::arch::riscv::cpu::{keeps_state, ArchCpu};
use crate::consts::MAX_CPU_NUM;
use crate::percpu::PerCpu;

verus! {

/// Extension id of the base extension.
pub const SBI_EID_BASE: u64 = 0x10;

/// Extension id of the timer extension.
pub const SBI_EID_SET_TIMER: u64 = 0x5449_4D45;

/// Extension id of hart state management.
pub const SBI_EID_HSM: u64 = 0x48_534D;

/// Extension id of the inter-processor interrupt extension.
pub const SBI_EID_SEND_IPI: u64 = 0x73_5049;

/// Extension id of the remote fence extension.
pub const SBI_EID_RFENCE: u64 = 0x5246_4E43;

/// Extension id of the performance monitoring extension.
pub const SBI_EID_PMU: u64 = 0x50_4D55;

pub const SBI_SUCCESS: i64 = 0;

pub const SBI_ERR_FAILURE: i64 = -1;

pub const SBI_ERR_NOT_SUPPORTED: i64 = -2;

pub const SBI_ERR_INVALID_PARAM: i64 = -3;

pub const SBI_ERR_DENIED: i64 = -4;

pub const SBI_ERR_INVALID_ADDRESS: i64 = -5;

pub const SBI_ERR_ALREADY_AVAILABLE: i64 = -6;

/// What a firmware call returns: an error code and a value.
#[derive(Clone, Copy, Debug, PartialEq, Eq, Structural)]
pub struct SbiRet {
    pub error: i64,
    pub value: i64,
}

/// What is to be done for a guest's firmware call.
#[derive(Clone, Copy, Debug, PartialEq, Eq, Structural)]
pub enum SbiAction {
    /// Make the same call to the firmware; what it returns goes to the
    /// guest.
    PassThrough { eid: u64, fid: u64, arg0: u64, arg1: u64, arg2: u64, arg3: u64, arg4: u64 },
    /// Write `stime` to `vstimecmp`; the guest gets success.
    WriteVstimecmp { stime: u64 },
    /// Ask the firmware for a timer interrupt at `stime`, clear the guest's
    /// pending timer interrupt, and enable the hypervisor's timer
    /// interrupt; what the firmware returns goes to the guest.
    SetTimer { stime: u64 },
    /// Record the start address and the opaque value in the record of hart
    /// `hartid`, then send that hart an interrupt with the hart mask
    /// `ipi_mask` from hart base zero; the guest gets success.
    HsmStart { hartid: usize, start_addr: u64, opaque: u64, ipi_mask: u64 },
    /// Nothing is to be done; the guest gets `ret`.
    Return { ret: SbiRet },
}

/// The return value that means success.
pub open spec fn success() -> SbiRet {
    SbiRet { error: SBI_SUCCESS, value: 0 }
}

/// What a timer call asks for: with the `stimecmp` extension the guest's
/// own compare register is written, without it the firmware is asked.
pub open spec fn time_action(cpu: ArchCpu) -> SbiAction {
    if cpu.sstc {
        SbiAction::WriteVstimecmp { stime: cpu.x@[10] }
    } else {
        SbiAction::SetTimer { stime: cpu.x@[10] }
    }
}

/// What a call to start a hart asks for. The hart in `a0` is started at the
/// address in `a1` with the opaque value in `a2`, unless it is the calling
/// hart, which is running already, or no hart of this machine.
pub open spec fn hsm_start_action(cpu: ArchCpu) -> SbiAction {
    let hartid = cpu.x@[10];
    if hartid == cpu.hartid {
        SbiAction::Return { ret: SbiRet { error: SBI_ERR_ALREADY_AVAILABLE, value: 0 } }
    } else if hartid >= MAX_CPU_NUM {
        SbiAction::Return { ret: SbiRet { error: SBI_ERR_INVALID_PARAM, value: 0 } }
    } else {
        SbiAction::HsmStart {
            hartid: hartid as usize,
            start_addr: cpu.x@[11],
            opaque: cpu.x@[12],
            ipi_mask: 1u64 << hartid,
        }
    }
}

/// What a hart state management call asks for: function 0 starts a hart,
/// every other function does nothing and succeeds.
pub open spec fn hsm_action(fid: u64, cpu: ArchCpu) -> SbiAction {
    if fid == 0 {
        hsm_start_action(cpu)
    } else {
        SbiAction::Return { ret: success() }
    }
}

/// The call in the registers of `cpu`, handed on as it is.
pub open spec fn pass_through(cpu: ArchCpu) -> SbiAction {
    SbiAction::PassThrough {
        eid: cpu.x@[17],
        fid: cpu.x@[16],
        arg0: cpu.x@[10],
        arg1: cpu.x@[11],
        arg2: cpu.x@[12],
        arg3: cpu.x@[13],
        arg4: cpu.x@[14],
    }
}

/// What the call in the registers of `cpu` asks for: the extension id is in
/// `a7`, the function id in `a6`. Timer and hart state management are
/// served here; every other extension goes to the firmware.
pub open spec fn vs_action(cpu: ArchCpu) -> SbiAction {
    let eid = cpu.x@[17];
    if eid == SBI_EID_SET_TIMER {
        time_action(cpu)
    } else if eid == SBI_EID_HSM {
        hsm_action(cpu.x@[16], cpu)
    } else {
        pass_through(cpu)
    }
}

/// The return value that the guest gets when `action` is done without the
/// firmware's answer; `None` where the answer is the firmware's, as it is
/// for a call that is passed through and for a timer that the firmware
/// sets.
pub open spec fn local_result(action: SbiAction) -> Option<SbiRet> {
    match action {
        SbiAction::PassThrough { .. } => None,
        SbiAction::WriteVstimecmp { .. } => Some(success()),
        SbiAction::SetTimer { .. } => None,
        SbiAction::HsmStart { .. } => Some(success()),
        SbiAction::Return { ret } => Some(ret),
    }
}

impl SbiAction {
    /// The return value for the guest where the firmware is not asked for
    /// one.
    pub fn result(&self) -> (r: Option<SbiRet>)
        ensures
            r == local_result(*self),
    {
        match self {
            SbiAction::PassThrough { .. } => None,
            SbiAction::WriteVstimecmp { .. } => Some(SbiRet { error: SBI_SUCCESS, value: 0 }),
            SbiAction::SetTimer { .. } => None,
            SbiAction::HsmStart { .. } => Some(SbiRet { error: SBI_SUCCESS, value: 0 }),
            SbiAction::Return { ret } => Some(*ret),
        }
    }
}

/// Decides what the guest's firmware call asks for.
pub fn sbi_vs_handler(current_cpu: &ArchCpu) -> (r: SbiAction)
    ensures
        r == vs_action(*current_cpu),
{
    let eid: u64 = current_cpu.x[17];
    let fid: u64 = current_cpu.x[16];
    if eid == SBI_EID_SET_TIMER {
        sbi_time_handler(fid, current_cpu)
    } else if eid == SBI_EID_HSM {
        sbi_hsm_handler(fid, current_cpu)
    } else {
        SbiAction::PassThrough {
            eid,
            fid,
            arg0: current_cpu.x[10],
            arg1: current_cpu.x[11],
            arg2: current_cpu.x[12],
            arg3: current_cpu.x[13],
            arg4: current_cpu.x[14],
        }
    }
}

/// Puts what a firmware call returned into the guest's registers: the error
/// code in `a0`, the value in `a1`.
pub fn sbi_vs_return(current_cpu: &mut ArchCpu, ret: SbiRet)
    ensures
        final(current_cpu).x@ == old(current_cpu).x@.update(10, ret.error as u64).update(
            11,
            ret.value as u64,
        ),
        final(current_cpu).sepc == old(current_cpu).sepc,
        keeps_state(*old(current_cpu), *final(current_cpu)),
{
    current_cpu.x[10] = #[verifier::truncate] (ret.error as u64);
    current_cpu.x[11] = #[verifier::truncate] (ret.value as u64);
}

/// Decides what a timer call asks for; the deadline is in `a0`.
pub fn sbi_time_handler(fid: u64, current_cpu: &ArchCpu) -> (r: SbiAction)
    ensures
        r == time_action(*current_cpu),
{
    let stime: u64 = current_cpu.x[10];
    if current_cpu.sstc {
        SbiAction::WriteVstimecmp { stime }
    } else {
        SbiAction::SetTimer { stime }
    }
}

/// Decides what a hart state management call asks for.
pub fn sbi_hsm_handler(fid: u64, current_cpu: &ArchCpu) -> (r: SbiAction)
    ensures
        r == hsm_action(fid, *current_cpu),
{
    if fid == 0 {
        sbi_hsm_start_handler(current_cpu)
    } else {
        SbiAction::Return { ret: SbiRet { error: SBI_SUCCESS, value: 0 } }
    }
}

/// Decides what a call to start a hart asks for.
pub fn sbi_hsm_start_handler(current_cpu: &ArchCpu) -> (r: SbiAction)
    ensures
        r == hsm_start_action(*current_cpu),
{
    let hartid: u64 = current_cpu.x[10];
    if hartid == current_cpu.hartid as u64 {
        SbiAction::Return { ret: SbiRet { error: SBI_ERR_ALREADY_AVAILABLE, value: 0 } }
    } else if hartid >= MAX_CPU_NUM as u64 {
        SbiAction::Return { ret: SbiRet { error: SBI_ERR_INVALID_PARAM, value: 0 } }
    } else {
        let start_addr: u64 = current_cpu.x[11];
        let opaque: u64 = current_cpu.x[12];
        SbiAction::HsmStart { hartid: hartid as usize, start_addr, opaque, ipi_mask: 1u64 << hartid }
    }
}

/// Records in the record of the hart that is started where it enters its
/// guest and what it finds in `a1` there.
pub fn sbi_hsm_start_target(target_cpu: &mut PerCpu, start_addr: u64, opaque: u64)
    ensures
        final(target_cpu).cpu_on_entry == start_addr,
        final(target_cpu).arch_cpu.sepc == start_addr,
        final(target_cpu).arch_cpu.x@ == old(target_cpu).arch_cpu.x@.update(11, opaque),
        final(target_cpu).id == old(target_cpu).id,
        final(target_cpu).zone == old(target_cpu).zone,
        final(target_cpu).boot_cpu == old(target_cpu).boot_cpu,
        keeps_state(old(target_cpu).arch_cpu, final(target_cpu).arch_cpu),
{
    target_cpu.cpu_on_entry = start_addr;
    target_cpu.arch_cpu.sepc = start_addr;
    target_cpu.arch_cpu.x[11] = opaque;
}

} // verus!
