use hvisor::arch::riscv::cpu::ArchCpu;
use hvisor::arch::riscv::csr::{apply_all, CSR_HVIP, CSR_SIE, HVIP_VSTIP, SIE_STIE};
use hvisor::arch::riscv::plic::{Inst, Plic, PlicAction};
use hvisor::arch::riscv::trap::{
    decode_inst, emulate_access, fault_address, guest_page_fault_handler, handles_interrupt,
    handles_sync, in_window, inst_source, interrupts_arch_handle, needs_second_half, read_inst,
    sync_exception_handler, InstSource, IrqAction, SyncAction,
};
use hvisor::error::HvError;

const BASE: u64 = 0x0c00_0000;

#[test]
fn instruction_length_from_low_bits() {
    // lw a0, 0(a1)
    assert_eq!(decode_inst(0x0005_a503), (4, Some(Inst::LoadWord { rd: 10 })));
    // sw a2, 4(a5)
    assert_eq!(decode_inst(0x00c7_a223), (4, Some(Inst::StoreWord { rs2: 12 })));
    // c.lw a2, 64(a5)
    assert_eq!(decode_inst(0x43b0), (2, Some(Inst::LoadWord { rd: 12 })));
    // c.sw a2, 64(a5), with what follows it in memory above
    assert_eq!(decode_inst(0xffff_c3b0), (2, Some(Inst::StoreWord { rs2: 12 })));
    // add a0, a0, a1
    assert_eq!(decode_inst(0x00b5_0533), (4, Some(Inst::Other)));
    // a reserved encoding
    assert_eq!(decode_inst(0x0000_707f).0, 4);
    assert_eq!(decode_inst(0xffff_ffff), (4, None));
    for raw in [0u32, 1, 2, 3, 0x43b0, 0x0005_a503, 0x1f, 0x7f, 0xffff_fffc, 0xffff_ffff] {
        let expected = if raw & 0b11 != 0b11 { 2 } else { 4 };
        assert_eq!(decode_inst(raw).0, expected);
    }
}

#[test]
fn faulting_instruction_from_halfwords() {
    assert!(needs_second_half(0xa503));
    assert!(!needs_second_half(0x43b0));
    assert_eq!(read_inst(0xa503, 0x0005), 0x0005_a503);
    assert_eq!(read_inst(0x43b0, 0x1234), 0x43b0);
    assert_eq!(inst_source(0, 0x8020_0000), InstSource::GuestMemory { addr: 0x8020_0000 });
    assert_eq!(inst_source(0x0005_a503, 0x8020_0000), InstSource::Trap { inst: 0x0005_a503 });
    assert_eq!(inst_source(0x1_0000_0000, 0x10), InstSource::GuestMemory { addr: 0x10 });
}

#[test]
fn fault_address_from_both_registers() {
    assert_eq!(fault_address(0x0300_0000, 0x0), 0x0c00_0000);
    assert_eq!(fault_address(0x0308_0001, 0x1237), 0x0c20_0007);
}

#[test]
fn sync_exceptions_are_classified() {
    let mut cpu = ArchCpu::new(1);
    cpu.x[17] = 0x10;
    assert_eq!(sync_exception_handler(&cpu, 21, 0x80), Ok(SyncAction::GuestPageFault));
    assert_eq!(sync_exception_handler(&cpu, 23, 0x2_0000_0080), Ok(SyncAction::GuestPageFault));
    assert!(matches!(sync_exception_handler(&cpu, 10, 0x80), Ok(SyncAction::Ecall { .. })));
    assert_eq!(sync_exception_handler(&cpu, 8, 0x80), Err(HvError::Unsupported));
    for cause in [8u64, 10, 21, 23] {
        assert!(handles_sync(cause, 0x80));
        // a trap that did not come from the guest is not handled
        assert!(!handles_sync(cause, 0));
        assert!(!handles_sync(cause, 0x2_0000_0000));
    }
    for cause in [0u64, 2, 9, 12, 13, 15, 20, 22] {
        assert!(!handles_sync(cause, 0x80));
    }
}

#[test]
fn interrupts_are_classified() {
    let plic = Plic::new(BASE, 0x60_0000);
    let mut cpu = ArchCpu::new(1);
    cpu.first_cpu = 1;
    let timer = interrupts_arch_handle(&cpu, &plic, (1u64 << 63) | 5);
    assert_eq!(timer, IrqAction::InjectTimer);
    let ops = timer.csr_ops();
    assert_eq!(apply_all(&ops, CSR_HVIP, 0), HVIP_VSTIP);
    assert_eq!(apply_all(&ops, CSR_SIE, 0x222), 0x222 & !SIE_STIE);
    assert_eq!(apply_all(&ops, CSR_HVIP, 0x400), HVIP_VSTIP | 0x400);
    assert_eq!(
        interrupts_arch_handle(&cpu, &plic, (1u64 << 63) | 9),
        IrqAction::ClaimExternal { claim_addr: BASE + 0x20_0004 + 3 * 0x1000 }
    );
    assert!(handles_interrupt((1u64 << 63) | 5));
    assert!(handles_interrupt((1u64 << 63) | 9));
    // the software interrupt and unknown causes are not handled
    assert!(!handles_interrupt((1u64 << 63) | 1));
    assert!(!handles_interrupt((1u64 << 63) | 13));
}

#[test]
fn page_fault_in_the_window_is_emulated() {
    let mut plic = Plic::new(BASE, 0x60_0000);
    let mut cpu = ArchCpu::new(0);
    cpu.sepc = 0x8020_0000;
    cpu.x[12] = 0x55;
    // sw a2, 4(a5) to the enable word of context 0, sources 32 to 63
    let htval = (BASE + 0x2004) >> 2;
    let got = guest_page_fault_handler(&mut cpu, &mut plic, htval, 0, 0x00c7_a223);
    assert_eq!(got, Ok(PlicAction::Write { addr: BASE + 0x2004, value: 0x55 }));
    assert_eq!(cpu.sepc, 0x8020_0004);
    // c.lw a2, 64(a5) from the claim register of context 1
    plic.claim_complete[1] = 33;
    let htval = (BASE + 0x20_1004) >> 2;
    let got = guest_page_fault_handler(&mut cpu, &mut plic, htval, 0, 0x43b0);
    assert_eq!(got, Ok(PlicAction::Done));
    assert_eq!(cpu.x[12], 33);
    assert_eq!(cpu.sepc, 0x8020_0006);
}

#[test]
fn page_fault_elsewhere_is_not_for_the_handler() {
    let plic = Plic::new(BASE, 0x60_0000);
    assert!(in_window(&plic, BASE));
    assert!(in_window(&plic, BASE + 0x3f_fffc));
    assert!(!in_window(&plic, BASE + 0x40_0000));
    assert!(!in_window(&plic, BASE - 4));
    assert!(!in_window(&plic, 0x1000_0000));
    assert!(!in_window(&plic, fault_address(0x1000_0000 >> 2, 0)));
}

#[test]
fn page_fault_with_a_refused_access_changes_nothing() {
    let mut plic = Plic::new(BASE, 0x60_0000);
    plic.claim_complete[1] = 9;
    let mut cpu = ArchCpu::new(0);
    cpu.sepc = 0x8020_0000;
    // lw a0, 0(a1) from a priority register
    let got = guest_page_fault_handler(&mut cpu, &mut plic, (BASE + 8) >> 2, 0, 0x0005_a503);
    assert_eq!(got, Err(HvError::Unsupported));
    // sw a2, 4(a5) to a register that is neither threshold nor claim
    let got = guest_page_fault_handler(&mut cpu, &mut plic, (BASE + 0x20_1008) >> 2, 0, 0x00c7_a223);
    assert_eq!(got, Err(HvError::BadParam));
    assert_eq!(cpu.sepc, 0x8020_0000);
    assert_eq!(cpu.x, [0u64; 32]);
    assert_eq!(plic.claim_complete[1], 9);
}

#[test]
fn page_fault_with_unknown_instruction_is_refused() {
    let mut plic = Plic::new(BASE, 0x60_0000);
    let mut cpu = ArchCpu::new(0);
    cpu.sepc = 0x8020_0000;
    let got = guest_page_fault_handler(&mut cpu, &mut plic, (BASE + 0x2000) >> 2, 0, 0xffff_ffff);
    assert_eq!(got, Err(HvError::Unsupported));
    let got = emulate_access(&mut cpu, &mut plic, BASE + 0x2000, 4, None);
    assert_eq!(got, Err(HvError::Unsupported));
    let got = emulate_access(&mut cpu, &mut plic, BASE + 0x2000, 4, Some(Inst::Other));
    assert_eq!(got, Err(HvError::Unsupported));
    assert_eq!(cpu.sepc, 0x8020_0000);
}
