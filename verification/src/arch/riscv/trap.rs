//! Classification of the traps that the hypervisor takes, and the emulation
//! of a guest's faulting access to the interrupt controller.
use vstd::prelude::*;
use crate::arch::riscv::cpu::{keeps_state, ArchCpu};
use crate::arch::riscv::csr::{
    CsrAccess, CsrOp, CSR_HVIP, CSR_SIE, HSTATUS_SPV, HVIP_VSEIP, HVIP_VSTIP, SIE_STIE,
};
use crate::arch::riscv::plic::{
    claim_complete_addr, global_emul, hart_context, hart_emul, vplic_global_check,
    vplic_global_emul_handler, vplic_hart_check, vplic_hart_emul_handler, Inst, Plic, PlicAction,
    MAX_FIRST_CPU, PLIC_GLOBAL_SIZE, PLIC_MAX_CONTEXT, PLIC_TOTAL_SIZE,
};
use crate::arch::riscv::sbi::{sbi_vs_handler, sbi_vs_return, vs_action, SbiAction, SbiRet};
use crate::error::{HvError, HvResult};

verus! {

/// Cause of an environment call from virtual user mode.
pub const ECALL_VU: u64 = 8;

/// Cause of an environment call from virtual supervisor mode.
pub const ECALL_VS: u64 = 10;

/// Cause of a guest page fault on a load.
pub const LOAD_GUEST_PAGE_FAULT: u64 = 21;

/// Cause of a guest page fault on a store.
pub const STORE_GUEST_PAGE_FAULT: u64 = 23;

/// Cause of a supervisor software interrupt.
pub const INTERRUPT_SSI: u64 = 1;

/// Cause of a supervisor timer interrupt.
pub const INTERRUPT_STI: u64 = 5;

/// Cause of a supervisor external interrupt.
pub const INTERRUPT_SEI: u64 = 9;

/// What a synchronous exception from the guest asks for.
#[derive(Clone, Copy, Debug, PartialEq, Eq, Structural)]
pub enum SyncAction {
    /// The guest called the firmware: `call` is to be done, and the guest
    /// resumes behind the call.
    Ecall { call: SbiAction },
    /// The guest touched an address that is not mapped for it.
    GuestPageFault,
}

/// What an interrupt taken by the hypervisor asks for.
#[derive(Clone, Copy, Debug, PartialEq, Eq, Structural)]
pub enum IrqAction {
    /// The timer fired: the guest gets a pending timer interrupt, and the
    /// hypervisor's timer interrupt stays off until the guest sets its
    /// timer again.
    InjectTimer,
    /// A device asks for attention: the claim register at `claim_addr` is
    /// to be read, and what it gives is recorded for the guest, which gets a
    /// pending external interrupt.
    ClaimExternal { claim_addr: u64 },
}

/// Where the instruction that faulted is to be taken from.
#[derive(Clone, Copy, Debug, PartialEq, Eq, Structural)]
pub enum InstSource {
    /// The trap delivered it.
    Trap { inst: u32 },
    /// It is to be read from the guest's memory at `addr`, sixteen bits at a
    /// time.
    GuestMemory { addr: u64 },
}

/// Whether a synchronous exception with cause `scause` is one that the
/// hypervisor handles: it came from the guest, and it is an environment
/// call or a guest page fault. Any other is fatal: the caller stops on it.
pub open spec fn is_guest_trap(scause: u64, hstatus: u64) -> bool {
    hstatus & HSTATUS_SPV != 0 && (scause == ECALL_VU || scause == ECALL_VS || scause
        == LOAD_GUEST_PAGE_FAULT || scause == STORE_GUEST_PAGE_FAULT)
}

/// Tells whether the hypervisor handles the synchronous exception.
pub fn handles_sync(scause: u64, hstatus: u64) -> (r: bool)
    ensures
        r == is_guest_trap(scause, hstatus),
{
    hstatus & HSTATUS_SPV != 0 && (scause == ECALL_VU || scause == ECALL_VS || scause
        == LOAD_GUEST_PAGE_FAULT || scause == STORE_GUEST_PAGE_FAULT)
}

/// What a synchronous exception from the guest with cause `scause` asks
/// for. A call from the guest's user mode is reported as not supported and
/// not served.
pub open spec fn sync_action(cpu: ArchCpu, scause: u64) -> HvResult<SyncAction> {
    if scause == ECALL_VS {
        Ok(SyncAction::Ecall { call: vs_action(cpu) })
    } else if scause == LOAD_GUEST_PAGE_FAULT || scause == STORE_GUEST_PAGE_FAULT {
        Ok(SyncAction::GuestPageFault)
    } else {
        Err(HvError::Unsupported)
    }
}

/// Decides what a synchronous exception asks for, from the cause and the
/// hypervisor status that the trap left. The exception is to be one that
/// the hypervisor handles.
pub fn sync_exception_handler(current_cpu: &ArchCpu, scause: u64, hstatus: u64) -> (r: HvResult<
    SyncAction,
>)
    requires
        is_guest_trap(scause, hstatus),
    ensures
        r == sync_action(*current_cpu, scause),
        r is Err <==> scause == ECALL_VU,
{
    if scause == ECALL_VS {
        Ok(SyncAction::Ecall { call: sbi_vs_handler(current_cpu) })
    } else if scause == LOAD_GUEST_PAGE_FAULT || scause == STORE_GUEST_PAGE_FAULT {
        Ok(SyncAction::GuestPageFault)
    } else {
        Err(HvError::Unsupported)
    }
}

/// Ends a firmware call of the guest: the error code goes to `a0`, the
/// value to `a1`, and the guest resumes behind the call instruction.
pub fn ecall_return(current_cpu: &mut ArchCpu, ret: SbiRet)
    requires
        old(current_cpu).sepc + 4 <= u64::MAX,
    ensures
        final(current_cpu).x@ == old(current_cpu).x@.update(10, ret.error as u64).update(
            11,
            ret.value as u64,
        ),
        final(current_cpu).sepc == old(current_cpu).sepc + 4,
        keeps_state(*old(current_cpu), *final(current_cpu)),
{
    sbi_vs_return(current_cpu, ret);
    current_cpu.sepc = current_cpu.sepc + 4;
}

/// The guest physical address that faulted: `htval` holds it without its
/// two lowest bits, which are those of `stval`.
pub open spec fn fault_gpa(htval: u64, stval: u64) -> u64 {
    (htval << 2) | (stval & 0x3)
}

/// Computes the guest physical address that faulted.
pub fn fault_address(htval: u64, stval: u64) -> (r: u64)
    ensures
        r == fault_gpa(htval, stval),
{
    (htval << 2) | (stval & 0x3)
}

/// Whether the guest physical address `addr` lies in the window of the
/// interrupt controller at `base`.
pub open spec fn in_plic_window(base: u64, addr: u64) -> bool {
    base <= addr < base + PLIC_TOTAL_SIZE
}

/// Tells whether the guest physical address `addr` lies in the window of
/// the interrupt controller. A guest page fault anywhere else is fatal: the
/// caller stops on it.
pub fn in_window(plic: &Plic, addr: u64) -> (r: bool)
    requires
        plic.wf(),
    ensures
        r == in_plic_window(plic.base, addr),
{
    plic.base <= addr && addr - plic.base < PLIC_TOTAL_SIZE
}

/// Decides where the faulting instruction comes from: the trap's own copy
/// where it gave one, the guest's memory at the faulting program counter
/// where that copy is zero.
pub fn inst_source(htinst: u64, sepc: u64) -> (r: InstSource)
    ensures
        r == if htinst as u32 == 0 {
            InstSource::GuestMemory { addr: sepc }
        } else {
            InstSource::Trap { inst: htinst as u32 }
        },
{
    let inst: u32 = #[verifier::truncate] (htinst as u32);
    if inst == 0 {
        InstSource::GuestMemory { addr: sepc }
    } else {
        InstSource::Trap { inst }
    }
}

/// Whether the halfword `first` starts an instruction of 32 bits, so that
/// the halfword behind it is to be read too.
pub fn needs_second_half(first: u16) -> (r: bool)
    ensures
        r == (first & 0b11 == 0b11),
{
    first & 0b11 == 0b11
}

/// The instruction made of the halfword `first` read at the faulting
/// program counter and the halfword `second` read behind it: a compressed
/// instruction is `first` alone, any other has `second` as its upper half.
pub open spec fn stitched(first: u16, second: u16) -> u32 {
    if first & 0b11 == 0b11 {
        (first as u32) | ((second as u32) << 16)
    } else {
        first as u32
    }
}

/// Puts the faulting instruction together from the halfwords read from the
/// guest's memory. `second` is looked at only where `first` starts an
/// instruction of 32 bits.
pub fn read_inst(first: u16, second: u16) -> (r: u32)
    ensures
        r == stitched(first, second),
{
    let mut ins: u32 = first as u32;
    if needs_second_half(first) {
        ins = ins | ((second as u32) << 16);
    }
    ins
}

/// The length in bytes that `riscv_decode::instruction_length` gives for an
/// instruction that starts with the halfword `first`.
pub open spec fn encoded_length(first: u16) -> usize {
    if first & 0b11 != 0b11 {
        2
    } else if first & 0b11100 != 0b11100 {
        4
    } else if first & 0b111111 == 0b011111 {
        6
    } else if first & 0b1111111 == 0b011111 {
        8
    } else {
        (10 + 2 * ((first >> 12) & 0b111)) as usize
    }
}

/// What `riscv_decode::decode` makes of the instruction word `inst`: a load
/// or a store of a word with its register, another instruction, or `None`
/// where it knows none.
pub uninterp spec fn decoded(inst: u32) -> Option<Inst>;

/// `riscv_decode::instruction_length`: the length of an instruction from
/// its first halfword, by the length encoding of the instruction set.
#[verifier::external_body]
fn instruction_length(first: u16) -> (r: usize)
    ensures
        r == encoded_length(first),
{
    riscv_decode::instruction_length(first)
}

/// `riscv_decode::decode`, with its result reduced to what the emulation
/// reads: for a load of a word the destination register, for a store of a
/// word the source register. The crate takes both from five bits of the
/// instruction, so they are below 32.
#[verifier::external_body]
fn decode(inst: u32) -> (r: Option<Inst>)
    ensures
        r == decoded(inst),
        r matches Some(i) ==> i.wf(),
{
    match riscv_decode::decode(inst) {
        Ok(riscv_decode::Instruction::Lw(i)) => Some(Inst::LoadWord { rd: i.rd() as usize }),
        Ok(riscv_decode::Instruction::Sw(i)) => Some(Inst::StoreWord { rs2: i.rs2() as usize }),
        Ok(_) => Some(Inst::Other),
        Err(_) => None,
    }
}

/// The length in bytes of the instruction `inst`: two where its two lowest
/// bits are not both set, else four.
pub open spec fn inst_len(inst: u32) -> usize {
    if inst & 0b11 != 0b11 {
        2
    } else {
        4
    }
}

/// The part of `inst` that is the instruction: its lower half for a
/// compressed instruction, all of it otherwise.
pub open spec fn inst_word(inst: u32) -> u32 {
    if inst & 0b11 != 0b11 {
        inst & 0xffff
    } else {
        inst
    }
}

/// Decodes the instruction `inst`: returns its length in bytes, which is
/// two or four, and what the decoder makes of it.
pub fn decode_inst(inst: u32) -> (r: (usize, Option<Inst>))
    ensures
        r.0 == inst_len(inst),
        r.1 == decoded(inst_word(inst)),
        r.1 matches Some(i) ==> i.wf(),
{
    let i1: u16 = #[verifier::truncate] (inst as u16);
    assert((inst as u16) & 0b11 == (inst & 0b11) as u16) by (bit_vector);
    assert(((inst as u16) & 0b11 != 0b11) == (inst & 0b11 != 0b11)) by (bit_vector);
    assert((inst as u16) as u32 == inst & 0xffff) by (bit_vector);
    let len: usize = instruction_length(i1);
    if len == 2 {
        (2, decode(i1 as u32))
    } else {
        (4, decode(inst))
    }
}

/// What the guest's faulting access to `addr` turns into, once the
/// instruction is decoded: an access below the per-context part of the
/// window goes by the rules of the shared part, any other by those of the
/// per-context part.
pub open spec fn plic_emul(cpu: ArchCpu, base: u64, addr: u64, inst: Inst) -> HvResult<PlicAction> {
    if addr - base < PLIC_GLOBAL_SIZE {
        global_emul(cpu, base, addr - base, inst)
    } else {
        hart_emul(cpu, base, addr - base, inst)
    }
}

/// What a guest page fault in the window of the interrupt controller turns
/// into, given what the decoder made of the faulting instruction: a fault
/// that no instruction could be made of is not served; any other goes by
/// the rules of the part of the window that it lies in.
pub open spec fn page_fault_emul(cpu: ArchCpu, base: u64, addr: u64, inst: Option<Inst>) -> HvResult<
    PlicAction,
> {
    match inst {
        None => Err(HvError::Unsupported),
        Some(i) => plic_emul(cpu, base, addr, i),
    }
}

/// Emulates the guest's faulting access to the guest physical address
/// `addr`, which lies in the window of the interrupt controller, by the
/// instruction `inst` of `len` bytes. Where the access is served, the guest
/// resumes behind the instruction; where it is not, nothing changes.
pub fn emulate_access(
    current_cpu: &mut ArchCpu,
    plic: &mut Plic,
    addr: u64,
    len: usize,
    inst: Option<Inst>,
) -> (r: HvResult<PlicAction>)
    requires
        old(plic).wf(),
        inst matches Some(i) ==> i.wf(),
        old(current_cpu).first_cpu <= MAX_FIRST_CPU,
        old(current_cpu).sepc + len <= u64::MAX,
        in_plic_window(old(plic).base, addr),
    ensures
        r == page_fault_emul(*old(current_cpu), old(plic).base, addr, inst),
        final(plic).base == old(plic).base,
        final(plic).size == old(plic).size,
        final(plic).claim_complete@ == (if r matches Ok(PlicAction::Complete { .. }) {
            old(plic).claim_complete@.update(
                hart_context(*old(current_cpu), addr - old(plic).base),
                0,
            )
        } else {
            old(plic).claim_complete@
        }),
        final(current_cpu).x@ == (if r matches Ok(PlicAction::Done) {
            old(current_cpu).x@.update(
                inst->0->rd as int,
                old(plic).claim_complete@[hart_context(*old(current_cpu), addr - old(plic).base)] as u64,
            )
        } else {
            old(current_cpu).x@
        }),
        final(current_cpu).sepc == (if r is Ok {
            old(current_cpu).sepc + len
        } else {
            old(current_cpu).sepc as int
        }),
        keeps_state(*old(current_cpu), *final(current_cpu)),
{
    let i = match inst {
        None => {
            return Err(HvError::Unsupported);
        },
        Some(i) => i,
    };
    let action = if addr - plic.base < PLIC_GLOBAL_SIZE {
        match vplic_global_check(current_cpu, plic, addr, i) {
            Ok(()) => {},
            Err(e) => {
                return Err(e);
            },
        }
        vplic_global_emul_handler(current_cpu, plic, addr, i)
    } else {
        match vplic_hart_check(current_cpu, plic, addr, i) {
            Ok(()) => {},
            Err(e) => {
                return Err(e);
            },
        }
        vplic_hart_emul_handler(current_cpu, plic, addr, i)
    };
    current_cpu.sepc = current_cpu.sepc + len as u64;
    Ok(action)
}

/// Handles a guest page fault in the window of the interrupt controller:
/// the faulting address is put together from `htval` and `stval`, the
/// instruction `inst` is decoded, and the access is emulated. Where it is
/// served, the guest resumes behind the instruction, two or four bytes on
/// as the instruction's two lowest bits say.
pub fn guest_page_fault_handler(
    current_cpu: &mut ArchCpu,
    plic: &mut Plic,
    htval: u64,
    stval: u64,
    inst: u32,
) -> (r: HvResult<PlicAction>)
    requires
        old(plic).wf(),
        old(current_cpu).first_cpu <= MAX_FIRST_CPU,
        old(current_cpu).sepc + 4 <= u64::MAX,
        in_plic_window(old(plic).base, fault_gpa(htval, stval)),
    ensures
        r == page_fault_emul(
            *old(current_cpu),
            old(plic).base,
            fault_gpa(htval, stval),
            decoded(inst_word(inst)),
        ),
        final(plic).base == old(plic).base,
        final(plic).size == old(plic).size,
        final(plic).claim_complete@ == (if r matches Ok(PlicAction::Complete { .. }) {
            old(plic).claim_complete@.update(
                hart_context(*old(current_cpu), fault_gpa(htval, stval) - old(plic).base),
                0,
            )
        } else {
            old(plic).claim_complete@
        }),
        final(current_cpu).x@ == (if r matches Ok(PlicAction::Done) {
            old(current_cpu).x@.update(
                decoded(inst_word(inst))->0->rd as int,
                old(plic).claim_complete@[hart_context(
                    *old(current_cpu),
                    fault_gpa(htval, stval) - old(plic).base,
                )] as u64,
            )
        } else {
            old(current_cpu).x@
        }),
        final(current_cpu).sepc == (if r is Ok {
            old(current_cpu).sepc + inst_len(inst)
        } else {
            old(current_cpu).sepc as int
        }),
        keeps_state(*old(current_cpu), *final(current_cpu)),
{
    let addr: u64 = fault_address(htval, stval);
    let (len, decoded_inst) = decode_inst(inst);
    emulate_access(current_cpu, plic, addr, len, decoded_inst)
}

/// The controller's context through which the hypervisor claims interrupts
/// for the zone whose lowest hart is `first_cpu`: the supervisor context of
/// that hart.
pub open spec fn claim_context(first_cpu: int) -> int {
    2 * first_cpu + 1
}

/// Whether an interrupt with cause `scause` is one that the hypervisor
/// handles: the timer or the external interrupt. Any other, the software
/// interrupt among them, is fatal: the caller stops on it.
pub open spec fn is_handled_interrupt(scause: u64) -> bool {
    scause & 0xfff == INTERRUPT_STI || scause & 0xfff == INTERRUPT_SEI
}

/// Tells whether the hypervisor handles the interrupt.
pub fn handles_interrupt(scause: u64) -> (r: bool)
    ensures
        r == is_handled_interrupt(scause),
{
    let code: u64 = scause & 0xfff;
    code == INTERRUPT_STI || code == INTERRUPT_SEI
}

/// What an interrupt with cause `scause` asks for.
pub open spec fn irq_action(cpu: ArchCpu, base: u64, scause: u64) -> IrqAction {
    if scause & 0xfff == INTERRUPT_STI {
        IrqAction::InjectTimer
    } else {
        IrqAction::ClaimExternal {
            claim_addr: claim_complete_addr(base, claim_context(cpu.first_cpu as int)) as u64,
        }
    }
}

/// The register accesses that go with an interrupt's action.
pub open spec fn irq_csr_ops(action: IrqAction) -> Seq<CsrOp> {
    match action {
        IrqAction::InjectTimer => seq![
            CsrOp { access: CsrAccess::SetBits, csr: CSR_HVIP, value: HVIP_VSTIP },
            CsrOp { access: CsrAccess::ClearBits, csr: CSR_SIE, value: SIE_STIE },
        ],
        IrqAction::ClaimExternal { .. } => seq![
            CsrOp { access: CsrAccess::SetBits, csr: CSR_HVIP, value: HVIP_VSEIP },
        ],
    }
}

/// The register accesses that go with a firmware call's action: only
/// setting the timer through the firmware has any.
pub open spec fn sbi_csr_ops(action: SbiAction) -> Seq<CsrOp> {
    match action {
        SbiAction::SetTimer { .. } => seq![
            CsrOp { access: CsrAccess::ClearBits, csr: CSR_HVIP, value: HVIP_VSTIP },
            CsrOp { access: CsrAccess::SetBits, csr: CSR_SIE, value: SIE_STIE },
        ],
        _ => Seq::empty(),
    }
}

impl IrqAction {
    /// The register accesses that go with the action, in order.
    pub fn csr_ops(&self) -> (r: Vec<CsrOp>)
        ensures
            r@ == irq_csr_ops(*self),
    {
        let mut ops: Vec<CsrOp> = Vec::new();
        match self {
            IrqAction::InjectTimer => {
                ops.push(CsrOp { access: CsrAccess::SetBits, csr: CSR_HVIP, value: HVIP_VSTIP });
                ops.push(CsrOp { access: CsrAccess::ClearBits, csr: CSR_SIE, value: SIE_STIE });
            },
            IrqAction::ClaimExternal { .. } => {
                ops.push(CsrOp { access: CsrAccess::SetBits, csr: CSR_HVIP, value: HVIP_VSEIP });
            },
        }
        assert(ops@ =~= irq_csr_ops(*self));
        ops
    }
}

/// The register accesses that go with a firmware call's action, in order.
pub fn sbi_action_csr_ops(action: &SbiAction) -> (r: Vec<CsrOp>)
    ensures
        r@ == sbi_csr_ops(*action),
{
    let mut ops: Vec<CsrOp> = Vec::new();
    match action {
        SbiAction::SetTimer { .. } => {
            ops.push(CsrOp { access: CsrAccess::ClearBits, csr: CSR_HVIP, value: HVIP_VSTIP });
            ops.push(CsrOp { access: CsrAccess::SetBits, csr: CSR_SIE, value: SIE_STIE });
        },
        _ => {},
    }
    assert(ops@ =~= sbi_csr_ops(*action));
    ops
}

/// Decides what an interrupt asks for, from the cause that the trap left.
/// The interrupt is to be one that the hypervisor handles.
pub fn interrupts_arch_handle(current_cpu: &ArchCpu, plic: &Plic, scause: u64) -> (r: IrqAction)
    requires
        plic.wf(),
        current_cpu.first_cpu <= MAX_FIRST_CPU,
        is_handled_interrupt(scause),
    ensures
        r == irq_action(*current_cpu, plic.base, scause),
{
    let code: u64 = scause & 0xfff;
    if code == INTERRUPT_STI {
        IrqAction::InjectTimer
    } else {
        let context: u64 = 2 * (current_cpu.first_cpu as u64) + 1;
        IrqAction::ClaimExternal { claim_addr: plic.base + PLIC_GLOBAL_SIZE + 0x1000 * context + 4 }
    }
}

/// Records the interrupt `irq` that was claimed from the controller for the
/// zone of `current_cpu`, so that the guest finds it when it reads its claim
/// register.
pub fn handle_irq(current_cpu: &ArchCpu, plic: &mut Plic, irq: u32)
    requires
        claim_context(current_cpu.first_cpu as int) < PLIC_MAX_CONTEXT,
    ensures
        final(plic).base == old(plic).base,
        final(plic).size == old(plic).size,
        final(plic).claim_complete@ == old(plic).claim_complete@.update(
            claim_context(current_cpu.first_cpu as int),
            irq,
        ),
{
    let context_id: usize = 2 * current_cpu.first_cpu + 1;
    plic.claim_complete[context_id] = irq;
}

/// However the faulting instruction is encoded, its length is two or four
/// bytes, two exactly where its two lowest bits are not both set, and a
/// served access moves the guest's program counter on by that length.
pub proof fn lemma_inst_len(inst: u32)
    ensures
        inst & 0b11 != 0b11 ==> inst_len(inst) == 2,
        inst & 0b11 == 0b11 ==> inst_len(inst) == 4,
{
}

} // verus!
