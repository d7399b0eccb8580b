use hvisor::arch::riscv::cpu::ArchCpu;
use hvisor::arch::riscv::csr::{apply_all, CSR_HVIP, HVIP_VSEIP};
use hvisor::arch::riscv::plic::{
    init_plic, vplic_global_check, vplic_global_emul_handler, vplic_hart_check,
    vplic_hart_emul_handler, vplic_read_return, Inst, Plic, PlicAction, PLIC_ENABLE_BASE,
    PLIC_GLOBAL_SIZE,
};
use hvisor::arch::riscv::trap::{handle_irq, interrupts_arch_handle, IrqAction};
use hvisor::error::HvError;

const BASE: u64 = 0x0c00_0000;

fn cpu(first_cpu: usize) -> ArchCpu {
    let mut cpu = ArchCpu::new(first_cpu);
    cpu.first_cpu = first_cpu;
    cpu
}

#[test]
fn plic_enable_translation() {
    let plic = Plic::new(BASE, 0x60_0000);
    let mut cpu = cpu(2);
    cpu.x[12] = 0xDEAD_BEEF;
    let addr = BASE + 0x2000 + 0x80 + 0x04;
    let action = vplic_global_emul_handler(&cpu, &plic, addr, Inst::StoreWord { rs2: 12 });
    assert_eq!(vplic_global_check(&cpu, &plic, addr, Inst::StoreWord { rs2: 12 }), Ok(()));
    assert_eq!(action, PlicAction::Write { addr: BASE + 0x2000 + 5 * 0x80 + 4, value: 0xDEAD_BEEF });
    assert_eq!(plic.set_enable(5, 4, 0xDEAD_BEEF), action);
}

#[test]
fn plic_enable_read_goes_to_the_host_context() {
    let plic = Plic::new(BASE, 0x60_0000);
    let mut cpu = cpu(1);
    let addr = BASE + PLIC_ENABLE_BASE + 3 * 0x80 + 0x7c;
    let action = vplic_global_emul_handler(&cpu, &plic, addr, Inst::LoadWord { rd: 15 });
    assert_eq!(action, PlicAction::Read { addr: BASE + 0x2000 + 5 * 0x80 + 0x7c, rd: 15 });
    assert_eq!(plic.read_enable(5, 0x7c), BASE + 0x2000 + 5 * 0x80 + 0x7c);
    vplic_read_return(&mut cpu, 15, 0x8000_0001);
    assert_eq!(cpu.x[15], 0x8000_0001);
}

#[test]
fn plic_priority_is_written_as_it_is() {
    let plic = Plic::new(BASE, 0x60_0000);
    let mut cpu = cpu(3);
    cpu.x[5] = 0x1_0000_0007;
    let action = vplic_global_emul_handler(&cpu, &plic, BASE + 40, Inst::StoreWord { rs2: 5 });
    assert_eq!(action, PlicAction::Write { addr: BASE + 40, value: 7 });
    assert_eq!(plic.set_priority(10, 7), action);
}

#[test]
fn plic_threshold_goes_to_the_host_context() {
    let mut plic = Plic::new(BASE, 0x60_0000);
    let mut cpu = cpu(2);
    cpu.x[6] = 3;
    let addr = BASE + PLIC_GLOBAL_SIZE + 0x1000;
    let action = vplic_hart_emul_handler(&mut cpu, &mut plic, addr, Inst::StoreWord { rs2: 6 });
    assert_eq!(action, PlicAction::Write { addr: BASE + 0x20_0000 + 5 * 0x1000, value: 3 });
    assert_eq!(plic.set_threshold(5, 3), action);
}

#[test]
fn plic_claim_complete() {
    let mut plic = init_plic(BASE, 0x60_0000);
    let mut cpu = cpu(2);
    let host_ctx = 2 * 2 + 1;

    let irq = interrupts_arch_handle(&cpu, &plic, (1u64 << 63) | 9);
    assert_eq!(irq, IrqAction::ClaimExternal { claim_addr: BASE + 0x20_0004 + 0x1000 * 5 });
    handle_irq(&cpu, &mut plic, 10);
    assert_eq!(plic.claim_complete[host_ctx], 10);
    assert_eq!(apply_all(&irq.csr_ops(), CSR_HVIP, 0), HVIP_VSEIP);

    let claim_addr = BASE + PLIC_GLOBAL_SIZE + 0x1000 + 4;
    let read = vplic_hart_emul_handler(&mut cpu, &mut plic, claim_addr, Inst::LoadWord { rd: 10 });
    assert_eq!(vplic_hart_check(&cpu, &plic, claim_addr, Inst::LoadWord { rd: 10 }), Ok(()));
    assert_eq!(read, PlicAction::Done);
    assert_eq!(cpu.x[10], 10);
    assert_eq!(plic.claim_complete[host_ctx], 10);
    assert_eq!(plic.emul_claim(host_ctx), 10);

    cpu.x[11] = 10;
    let done = vplic_hart_emul_handler(&mut cpu, &mut plic, claim_addr, Inst::StoreWord { rs2: 11 });
    assert_eq!(done, PlicAction::Complete { addr: BASE + 0x20_0004 + 0x1000 * 5, value: 10 });
    assert_eq!(plic.claim_complete[host_ctx], 0);
    assert_eq!(apply_all(&done.csr_ops(), CSR_HVIP, HVIP_VSEIP | 0x40), 0x40);
}

#[test]
fn plic_other_accesses_are_refused() {
    let plic = Plic::new(BASE, 0x60_0000);
    let cpu = cpu(0);
    let load = Inst::LoadWord { rd: 1 };
    let store = Inst::StoreWord { rs2: 1 };
    assert_eq!(vplic_global_check(&cpu, &plic, BASE + 8, load), Err(HvError::Unsupported));
    assert_eq!(vplic_global_check(&cpu, &plic, BASE + 0x2000, Inst::Other), Err(HvError::Unsupported));
    assert_eq!(vplic_global_check(&cpu, &plic, BASE + 0x20_0000, store), Err(HvError::BadParam));
    assert_eq!(vplic_global_check(&cpu, &plic, BASE - 4, store), Err(HvError::BadParam));
    assert_eq!(vplic_global_check(&cpu, &plic, BASE + 8, store), Ok(()));
    assert_eq!(vplic_hart_check(&cpu, &plic, BASE + 0x20_0000, load), Err(HvError::Unsupported));
    assert_eq!(vplic_hart_check(&cpu, &plic, BASE + 0x20_0004, Inst::Other), Err(HvError::Unsupported));
    assert_eq!(vplic_hart_check(&cpu, &plic, BASE + 0x20_0008, load), Err(HvError::BadParam));
    assert_eq!(vplic_hart_check(&cpu, &plic, BASE + 0x40_0000, load), Err(HvError::BadParam));
    assert_eq!(vplic_hart_check(&cpu, &plic, BASE + 0x8000, store), Err(HvError::BadParam));
    assert_eq!(vplic_hart_check(&cpu, &plic, BASE - 4, store), Err(HvError::BadParam));
    assert_eq!(
        vplic_hart_check(&cpu, &plic, BASE + 0x20_0000 + 64 * 0x1000 + 4, load),
        Err(HvError::BadParam)
    );
    assert_eq!(vplic_hart_check(&cpu, &plic, BASE + 0x20_0000 + 63 * 0x1000 + 4, load), Ok(()));
    assert_eq!(vplic_hart_check(&cpu, &plic, BASE + 0x20_0000 + 64 * 0x1000, store), Ok(()));
}

#[test]
fn plic_complete_forgets_only_its_context() {
    let mut plic = Plic::new(BASE, 0x60_0000);
    let cpu = cpu(0);
    handle_irq(&cpu, &mut plic, 7);
    plic.claim_complete[3] = 9;
    let write = plic.emul_complete(1, 7);
    assert_eq!(write, PlicAction::Complete { addr: BASE + 0x20_1004, value: 7 });
    assert_eq!(plic.claim_complete[1], 0);
    assert_eq!(plic.claim_complete[3], 9);
}
