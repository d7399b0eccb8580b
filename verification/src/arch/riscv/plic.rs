//! Trap-and-emulate of the platform-level interrupt controller.
//!
//! A zone sees contexts that count from zero; the controller's contexts of
//! the zone's harts start at twice the zone's lowest hart. An access of the
//! guest is turned into the access to the controller that stands for it.
use vstd::prelude::*;
use crate::arch::riscv::cpu::{keeps_state, ArchCpu};
use crate::arch::riscv::csr::{CsrAccess, CsrOp, CSR_HVIP, HVIP_VSEIP};
use crate::error::{HvError, HvResult};

verus! {

pub const PLIC_PRIORITY_BASE: u64 = 0x0000;

pub const PLIC_PENDING_BASE: u64 = 0x1000;

pub const PLIC_ENABLE_BASE: u64 = 0x2000;

pub const PLIC_GLOBAL_SIZE: u64 = 0x20_0000;

pub const PLIC_TOTAL_SIZE: u64 = 0x40_0000;

pub const PLIC_MAX_CONTEXT: usize = 64;

/// The largest hart id that a zone's lowest hart can have.
pub const MAX_FIRST_CPU: usize = 63;

/// What the decoder makes of an instruction: a load or a store of a word,
/// with the register that takes or gives the value, or anything else.
#[derive(Clone, Copy, Debug, PartialEq, Eq, Structural)]
pub enum Inst {
    LoadWord { rd: usize },
    StoreWord { rs2: usize },
    Other,
}

impl Inst {
    /// The register that the instruction names is one of the 32.
    pub open spec fn wf(&self) -> bool {
        match *self {
            Inst::LoadWord { rd } => rd < 32,
            Inst::StoreWord { rs2 } => rs2 < 32,
            Inst::Other => true,
        }
    }
}

/// The access to the controller that stands for the guest's access.
#[derive(Clone, Copy, Debug, PartialEq, Eq, Structural)]
pub enum PlicAction {
    /// Write the word `value` at the physical address `addr`.
    Write { addr: u64, value: u32 },
    /// Read the word at the physical address `addr`; the guest's register
    /// `rd` takes it.
    Read { addr: u64, rd: usize },
    /// Write the word `value` to the completion register at `addr` and
    /// withdraw the guest's pending external interrupt.
    Complete { addr: u64, value: u32 },
    /// Nothing: the access was served from the shadow.
    Done,
}

/// The model of the physical controller: where it lies, and for each context
/// the interrupt that was claimed for the guest and is not yet completed.
#[derive(Debug)]
pub struct Plic {
    pub base: u64,
    pub size: u64,
    pub claim_complete: [u32; 64],
}

/// The controller's context that a zone's context `vcontext` stands for,
/// where `first_cpu` is the zone's lowest hart.
pub open spec fn host_context(vcontext: int, first_cpu: int) -> int {
    vcontext + 2 * first_cpu
}

/// Address of the priority of interrupt source `irq_id`.
pub open spec fn priority_addr(base: u64, irq_id: int) -> int {
    base + PLIC_PRIORITY_BASE + irq_id * 4
}

/// Address of the enable word of `context` at the byte offset `irq_base`
/// within the context's enable bits.
pub open spec fn enable_addr(base: u64, context: int, irq_base: int) -> int {
    base + PLIC_ENABLE_BASE + context * 0x80 + irq_base
}

/// Address of the priority threshold of `context`.
pub open spec fn threshold_addr(base: u64, context: int) -> int {
    base + PLIC_GLOBAL_SIZE + context * 0x1000
}

/// Address of the claim and completion register of `context`.
pub open spec fn claim_complete_addr(base: u64, context: int) -> int {
    base + PLIC_GLOBAL_SIZE + context * 0x1000 + 4
}

/// What an access at `offset` into the part of the window that all
/// contexts share turns into.
pub open spec fn global_emul(cpu: ArchCpu, base: u64, offset: int, inst: Inst) -> HvResult<
    PlicAction,
> {
    if offset < 0 {
        Err(HvError::BadParam)
    } else if offset < PLIC_ENABLE_BASE {
        match inst {
            Inst::StoreWord { rs2 } => Ok(
                PlicAction::Write {
                    addr: priority_addr(base, offset / 4) as u64,
                    value: cpu.x@[rs2 as int] as u32,
                },
            ),
            _ => Err(HvError::Unsupported),
        }
    } else if offset < PLIC_GLOBAL_SIZE {
        let context = host_context((offset - PLIC_ENABLE_BASE) / 0x80, cpu.first_cpu as int);
        let irq_base = (offset - PLIC_ENABLE_BASE) % 0x80;
        match inst {
            Inst::LoadWord { rd } => Ok(
                PlicAction::Read { addr: enable_addr(base, context, irq_base) as u64, rd },
            ),
            Inst::StoreWord { rs2 } => Ok(
                PlicAction::Write {
                    addr: enable_addr(base, context, irq_base) as u64,
                    value: cpu.x@[rs2 as int] as u32,
                },
            ),
            Inst::Other => Err(HvError::Unsupported),
        }
    } else {
        Err(HvError::BadParam)
    }
}

/// The context of the controller that an access at `offset` into the
/// per-context part of the window means.
pub open spec fn hart_context(cpu: ArchCpu, offset: int) -> int {
    host_context((offset - PLIC_GLOBAL_SIZE) / 0x1000, cpu.first_cpu as int)
}

/// What an access at `offset` into the per-context part of the window turns
/// into. A read of the claim register and a completion are served only for
/// a context that the shadow has a slot for.
pub open spec fn hart_emul(cpu: ArchCpu, base: u64, offset: int, inst: Inst) -> HvResult<PlicAction> {
    if PLIC_GLOBAL_SIZE <= offset < PLIC_TOTAL_SIZE {
        let context = hart_context(cpu, offset);
        let index = (offset - PLIC_GLOBAL_SIZE) % 0x1000;
        if index == 0 {
            match inst {
                Inst::StoreWord { rs2 } => Ok(
                    PlicAction::Write {
                        addr: threshold_addr(base, context) as u64,
                        value: cpu.x@[rs2 as int] as u32,
                    },
                ),
                _ => Err(HvError::Unsupported),
            }
        } else if index == 4 {
            match inst {
                Inst::LoadWord { rd } => if context < PLIC_MAX_CONTEXT {
                    Ok(PlicAction::Done)
                } else {
                    Err(HvError::BadParam)
                },
                Inst::StoreWord { rs2 } => if context < PLIC_MAX_CONTEXT {
                    Ok(
                        PlicAction::Complete {
                            addr: claim_complete_addr(base, context) as u64,
                            value: cpu.x@[rs2 as int] as u32,
                        },
                    )
                } else {
                    Err(HvError::BadParam)
                },
                Inst::Other => Err(HvError::Unsupported),
            }
        } else {
            Err(HvError::BadParam)
        }
    } else {
        Err(HvError::BadParam)
    }
}

/// The register accesses that go with an action: a completion withdraws the
/// guest's pending external interrupt, the others touch no register.
pub open spec fn plic_csr_ops(action: PlicAction) -> Seq<CsrOp> {
    match action {
        PlicAction::Complete { .. } => seq![
            CsrOp { access: CsrAccess::ClearBits, csr: CSR_HVIP, value: HVIP_VSEIP },
        ],
        _ => Seq::empty(),
    }
}

impl PlicAction {
    /// The register accesses that go with the action.
    pub fn csr_ops(&self) -> (r: Vec<CsrOp>)
        ensures
            r@ == plic_csr_ops(*self),
    {
        let mut ops: Vec<CsrOp> = Vec::new();
        match self {
            PlicAction::Complete { .. } => {
                ops.push(CsrOp { access: CsrAccess::ClearBits, csr: CSR_HVIP, value: HVIP_VSEIP });
            },
            _ => {},
        }
        assert(ops@ =~= plic_csr_ops(*self));
        ops
    }
}

impl Plic {
    /// The window, and every context that a zone's access can be turned
    /// into, lie below the top of the address space.
    pub open spec fn wf(&self) -> bool {
        self.base + 2 * PLIC_TOTAL_SIZE <= u64::MAX
    }

    /// The model of a controller at `base`, with nothing claimed.
    pub fn new(base: u64, size: u64) -> (r: Self)
        ensures
            r.base == base,
            r.size == size,
            forall|i: int| 0 <= i < 64 ==> r.claim_complete@[i] == 0,
    {
        Self { base, size, claim_complete: [0u32;64] }
    }

    /// The write that sets the priority of interrupt source `irq_id`.
    pub fn set_priority(&self, irq_id: usize, priority: u32) -> (r: PlicAction)
        requires
            priority_addr(self.base, irq_id as int) <= u64::MAX,
        ensures
            r == (PlicAction::Write {
                addr: priority_addr(self.base, irq_id as int) as u64,
                value: priority,
            }),
    {
        PlicAction::Write { addr: self.base + PLIC_PRIORITY_BASE + (irq_id as u64) * 4, value: priority }
    }

    /// The address of the enable word of `context` at `irq_base`, to read.
    pub fn read_enable(&self, context: usize, irq_base: usize) -> (r: u64)
        requires
            enable_addr(self.base, context as int, irq_base as int) <= u64::MAX,
        ensures
            r == enable_addr(self.base, context as int, irq_base as int),
    {
        self.base + PLIC_ENABLE_BASE + (context as u64) * 0x80 + (irq_base as u64)
    }

    /// The write that sets the enable word of `context` at `irq_base`.
    pub fn set_enable(&self, context: usize, irq_base: usize, value: u32) -> (r: PlicAction)
        requires
            enable_addr(self.base, context as int, irq_base as int) <= u64::MAX,
        ensures
            r == (PlicAction::Write {
                addr: enable_addr(self.base, context as int, irq_base as int) as u64,
                value,
            }),
    {
        PlicAction::Write { addr: self.read_enable(context, irq_base), value }
    }

    /// The write that sets the priority threshold of `context`.
    pub fn set_threshold(&self, context: usize, value: u32) -> (r: PlicAction)
        requires
            threshold_addr(self.base, context as int) <= u64::MAX,
        ensures
            r == (PlicAction::Write { addr: threshold_addr(self.base, context as int) as u64, value }),
    {
        PlicAction::Write { addr: self.base + PLIC_GLOBAL_SIZE + (context as u64) * 0x1000, value }
    }

    /// The interrupt that was claimed for `context` and is not completed
    /// yet; zero if there is none.
    pub fn emul_claim(&self, context: usize) -> (r: u32)
        requires
            context < PLIC_MAX_CONTEXT,
        ensures
            r == self.claim_complete@[context as int],
    {
        self.claim_complete[context]
    }

    /// Completes the interrupt claimed for `context`: the shadow forgets it,
    /// and the controller is told through the write that is returned.
    pub fn emul_complete(&mut self, context: usize, irq_id: u32) -> (r: PlicAction)
        requires
            context < PLIC_MAX_CONTEXT,
            claim_complete_addr(old(self).base, context as int) <= u64::MAX,
        ensures
            r == (PlicAction::Complete {
                addr: claim_complete_addr(old(self).base, context as int) as u64,
                value: irq_id,
            }),
            final(self).base == old(self).base,
            final(self).size == old(self).size,
            final(self).claim_complete@ == old(self).claim_complete@.update(context as int, 0),
    {
        let addr: u64 = self.base + PLIC_GLOBAL_SIZE + 0x1000 * (context as u64) + 0x4;
        self.claim_complete[context] = 0;
        PlicAction::Complete { addr, value: irq_id }
    }
}

/// The model of the controller that the host's device tree describes by the
/// register range from `plic_base` on, `plic_size` bytes long.
pub fn init_plic(plic_base: u64, plic_size: u64) -> (r: Plic)
    ensures
        r.base == plic_base,
        r.size == plic_size,
        forall|i: int| 0 <= i < 64 ==> r.claim_complete@[i] == 0,
{
    Plic::new(plic_base, plic_size)
}

/// What the guest's access at `addr` in the shared part of the window turns
/// into, or why it is refused.
fn global_outcome(current_cpu: &ArchCpu, plic: &Plic, addr: u64, inst: Inst) -> (r: HvResult<
    PlicAction,
>)
    requires
        plic.wf(),
        inst.wf(),
        current_cpu.first_cpu <= MAX_FIRST_CPU,
    ensures
        r == global_emul(*current_cpu, plic.base, addr - plic.base, inst),
{
    if addr < plic.base {
        return Err(HvError::BadParam);
    }
    let offset: u64 = addr - plic.base;
    if offset < PLIC_ENABLE_BASE {
        match inst {
            Inst::StoreWord { rs2 } => {
                let irq_id: u64 = offset / 4;
                let value: u32 = #[verifier::truncate] (current_cpu.x[rs2] as u32);
                Ok(plic.set_priority(irq_id as usize, value))
            },
            _ => Err(HvError::Unsupported),
        }
    } else if offset < PLIC_GLOBAL_SIZE {
        let vcontext: u64 = (offset - PLIC_ENABLE_BASE) / 0x80;
        let context: u64 = vcontext + (current_cpu.first_cpu as u64) * 2;
        let irq_base: u64 = (offset - PLIC_ENABLE_BASE) % 0x80;
        match inst {
            Inst::LoadWord { rd } => {
                Ok(PlicAction::Read { addr: plic.read_enable(context as usize, irq_base as usize), rd })
            },
            Inst::StoreWord { rs2 } => {
                let value: u32 = #[verifier::truncate] (current_cpu.x[rs2] as u32);
                Ok(plic.set_enable(context as usize, irq_base as usize, value))
            },
            Inst::Other => Err(HvError::Unsupported),
        }
    } else {
        Err(HvError::BadParam)
    }
}

/// Tells whether the guest's access at `addr` by `inst` is one that the
/// emulation of the shared part of the window serves, and if not, why not:
/// an address outside that part is a bad parameter, an instruction of
/// another shape is not supported.
pub fn vplic_global_check(current_cpu: &ArchCpu, plic: &Plic, addr: u64, inst: Inst) -> (r: HvResult)
    requires
        plic.wf(),
        inst.wf(),
        current_cpu.first_cpu <= MAX_FIRST_CPU,
    ensures
        r is Ok <==> global_emul(*current_cpu, plic.base, addr - plic.base, inst) is Ok,
        r matches Err(e) ==> global_emul(*current_cpu, plic.base, addr - plic.base, inst) == Err::<
            PlicAction,
            HvError,
        >(e),
{
    match global_outcome(current_cpu, plic, addr, inst) {
        Ok(_) => Ok(()),
        Err(e) => Err(e),
    }
}

/// Turns the guest's access at the guest physical address `addr`, in the
/// part of the window that all contexts share, into the access to the
/// controller: a priority is written as it is; an enable word is read or
/// written for the context that the guest's context stands for. The access
/// is to be one that `vplic_global_check` accepts.
pub fn vplic_global_emul_handler(current_cpu: &ArchCpu, plic: &Plic, addr: u64, inst: Inst) -> (r:
    PlicAction)
    requires
        plic.wf(),
        inst.wf(),
        current_cpu.first_cpu <= MAX_FIRST_CPU,
        global_emul(*current_cpu, plic.base, addr - plic.base, inst) is Ok,
    ensures
        Ok::<PlicAction, HvError>(r) == global_emul(*current_cpu, plic.base, addr - plic.base, inst),
{
    match global_outcome(current_cpu, plic, addr, inst) {
        Ok(action) => action,
        Err(_) => PlicAction::Done,
    }
}

/// Tells whether the guest's access at `addr` by `inst` is one that the
/// emulation of the per-context part of the window serves, and if not, why
/// not: an address outside that part, a register other than threshold and
/// claim, or a context that the shadow has no slot for is a bad parameter;
/// an instruction of another shape is not supported.
pub fn vplic_hart_check(current_cpu: &ArchCpu, plic: &Plic, addr: u64, inst: Inst) -> (r: HvResult)
    requires
        plic.wf(),
        inst.wf(),
        current_cpu.first_cpu <= MAX_FIRST_CPU,
    ensures
        r is Ok <==> hart_emul(*current_cpu, plic.base, addr - plic.base, inst) is Ok,
        r matches Err(e) ==> hart_emul(*current_cpu, plic.base, addr - plic.base, inst) == Err::<
            PlicAction,
            HvError,
        >(e),
{
    if addr < plic.base {
        return Err(HvError::BadParam);
    }
    let offset: u64 = addr - plic.base;
    if offset < PLIC_GLOBAL_SIZE || offset >= PLIC_TOTAL_SIZE {
        return Err(HvError::BadParam);
    }
    let vcontext: u64 = (offset - PLIC_GLOBAL_SIZE) / 0x1000;
    let context: u64 = vcontext + (current_cpu.first_cpu as u64) * 2;
    let index: u64 = (offset - PLIC_GLOBAL_SIZE) % 0x1000;
    if index == 0 {
        match inst {
            Inst::StoreWord { .. } => Ok(()),
            _ => Err(HvError::Unsupported),
        }
    } else if index == 4 {
        match inst {
            Inst::Other => Err(HvError::Unsupported),
            _ => if context < PLIC_MAX_CONTEXT as u64 {
                Ok(())
            } else {
                Err(HvError::BadParam)
            },
        }
    } else {
        Err(HvError::BadParam)
    }
}

/// Turns the guest's access at the guest physical address `addr`, in the
/// per-context part of the window, into the access to the controller. A
/// threshold is written for the context that the guest's context stands
/// for. A read of the claim register gives the guest what the shadow holds
/// for that context and leaves the controller alone. A write to it
/// completes the interrupt: the shadow's slot becomes zero. The access is
/// to be one that `vplic_hart_check` accepts.
pub fn vplic_hart_emul_handler(
    current_cpu: &mut ArchCpu,
    plic: &mut Plic,
    addr: u64,
    inst: Inst,
) -> (r: PlicAction)
    requires
        old(plic).wf(),
        inst.wf(),
        old(current_cpu).first_cpu <= MAX_FIRST_CPU,
        hart_emul(*old(current_cpu), old(plic).base, addr - old(plic).base, inst) is Ok,
    ensures
        Ok::<PlicAction, HvError>(r) == hart_emul(
            *old(current_cpu),
            old(plic).base,
            addr - old(plic).base,
            inst,
        ),
        final(plic).base == old(plic).base,
        final(plic).size == old(plic).size,
        final(plic).claim_complete@ == (if r is Complete {
            old(plic).claim_complete@.update(
                hart_context(*old(current_cpu), addr - old(plic).base),
                0,
            )
        } else {
            old(plic).claim_complete@
        }),
        final(current_cpu).x@ == (if r is Done {
            old(current_cpu).x@.update(
                inst->rd as int,
                old(plic).claim_complete@[hart_context(*old(current_cpu), addr - old(plic).base)] as u64,
            )
        } else {
            old(current_cpu).x@
        }),
        final(current_cpu).sepc == old(current_cpu).sepc,
        keeps_state(*old(current_cpu), *final(current_cpu)),
{
    let offset: u64 = addr - plic.base;
    let vcontext: u64 = (offset - PLIC_GLOBAL_SIZE) / 0x1000;
    let context: u64 = vcontext + (current_cpu.first_cpu as u64) * 2;
    let index: u64 = (offset - PLIC_GLOBAL_SIZE) & 0xfff;
    assert((offset - PLIC_GLOBAL_SIZE) as u64 & 0xfff == (offset - PLIC_GLOBAL_SIZE) as u64 % 0x1000)
        by (bit_vector);
    if index == 0 {
        match inst {
            Inst::StoreWord { rs2 } => {
                let value: u32 = #[verifier::truncate] (current_cpu.x[rs2] as u32);
                plic.set_threshold(context as usize, value)
            },
            _ => PlicAction::Done,
        }
    } else {
        match inst {
            Inst::LoadWord { rd } => {
                let claimed: u32 = plic.emul_claim(context as usize);
                current_cpu.x[rd] = claimed as u64;
                PlicAction::Done
            },
            Inst::StoreWord { rs2 } => {
                let value: u32 = #[verifier::truncate] (current_cpu.x[rs2] as u32);
                plic.emul_complete(context as usize, value)
            },
            Inst::Other => PlicAction::Done,
        }
    }
}

/// Gives the guest the word that was read for it: register `rd` takes it.
pub fn vplic_read_return(current_cpu: &mut ArchCpu, rd: usize, value: u32)
    requires
        rd < 32,
    ensures
        final(current_cpu).x@ == old(current_cpu).x@.update(rd as int, value as u64),
        final(current_cpu).sepc == old(current_cpu).sepc,
        keeps_state(*old(current_cpu), *final(current_cpu)),
{
    current_cpu.x[rd] = value as u64;
}

/// The zone's contexts are the controller's contexts from twice the zone's
/// lowest hart on: whatever the guest's access to an enable word, a
/// threshold or a completion register turns into, its address is the
/// register's address for the guest's context plus twice the lowest hart.
pub proof fn lemma_context_mapping(cpu: ArchCpu, base: u64, offset: int, inst: Inst)
    requires
        base + 2 * PLIC_TOTAL_SIZE <= u64::MAX,
        cpu.first_cpu <= MAX_FIRST_CPU,
    ensures
        PLIC_ENABLE_BASE <= offset < PLIC_GLOBAL_SIZE ==> (global_emul(cpu, base, offset, inst)
            matches Ok(PlicAction::Read { addr, .. }) ==> addr == enable_addr(
            base,
            (offset - PLIC_ENABLE_BASE) / 0x80 + 2 * cpu.first_cpu,
            (offset - PLIC_ENABLE_BASE) % 0x80,
        )),
        PLIC_ENABLE_BASE <= offset < PLIC_GLOBAL_SIZE ==> (global_emul(cpu, base, offset, inst)
            matches Ok(PlicAction::Write { addr, .. }) ==> addr == enable_addr(
            base,
            (offset - PLIC_ENABLE_BASE) / 0x80 + 2 * cpu.first_cpu,
            (offset - PLIC_ENABLE_BASE) % 0x80,
        )),
        hart_emul(cpu, base, offset, inst) matches Ok(PlicAction::Write { addr, .. }) ==> addr
            == threshold_addr(base, (offset - PLIC_GLOBAL_SIZE) / 0x1000 + 2 * cpu.first_cpu),
        hart_emul(cpu, base, offset, inst) matches Ok(PlicAction::Complete { addr, .. }) ==> addr
            == claim_complete_addr(base, (offset - PLIC_GLOBAL_SIZE) / 0x1000 + 2 * cpu.first_cpu),
{
}

} // verus!
