use hvisor::arch::riscv::cpu::ArchCpu;
use hvisor::arch::riscv::csr::{apply_all, CSR_HVIP, CSR_SIE, HVIP_VSTIP, SIE_STIE};
use hvisor::arch::riscv::sbi::{
    sbi_hsm_handler, sbi_hsm_start_handler, sbi_hsm_start_target, sbi_time_handler, sbi_vs_handler,
    sbi_vs_return, SbiAction, SbiRet, SBI_ERR_ALREADY_AVAILABLE, SBI_ERR_INVALID_PARAM,
    SBI_SUCCESS,
};
use hvisor::arch::riscv::trap::{
    ecall_return, sbi_action_csr_ops, sync_exception_handler, SyncAction,
};
use hvisor::percpu::{PerCpu, RunAction};

fn ecall(eid: u64, fid: u64, args: [u64; 5]) -> ArchCpu {
    let mut cpu = ArchCpu::new(0);
    cpu.x[17] = eid;
    cpu.x[16] = fid;
    for (i, a) in args.iter().enumerate() {
        cpu.x[10 + i] = *a;
    }
    cpu
}

#[test]
fn vs_ecall_set_timer_without_sstc() {
    let deadline: u64 = 0x1234_5678_9abc;
    let mut cpu = ecall(0x5449_4D45, 0, [deadline, 0, 0, 0, 0]);
    cpu.sepc = 0x8020_0100;
    let action = sync_exception_handler(&cpu, 10, 0x80).unwrap();
    assert_eq!(action, SyncAction::Ecall { call: SbiAction::SetTimer { stime: deadline } });
    let call = SbiAction::SetTimer { stime: deadline };
    let ops = sbi_action_csr_ops(&call);
    assert_eq!(apply_all(&ops, CSR_HVIP, HVIP_VSTIP | 0x400), 0x400);
    assert_eq!(apply_all(&ops, CSR_SIE, 0x202), 0x202 | SIE_STIE);
    // the guest gets what the firmware returned, whatever it is
    assert_eq!(call.result(), None);
    ecall_return(&mut cpu, SbiRet { error: -3, value: 77 });
    assert_eq!(cpu.sepc, 0x8020_0104);
    assert_eq!(cpu.x[10], (-3i64) as u64);
    assert_eq!(cpu.x[11], 77);
    assert_eq!(cpu.x[17], 0x5449_4D45);
    assert_eq!(cpu.hstatus, 0);
    assert_eq!(cpu.sstatus, 0);
}

#[test]
fn set_timer_with_sstc_writes_the_compare_register() {
    let mut cpu = ecall(0x5449_4D45, 0, [42, 0, 0, 0, 0]);
    cpu.sstc = true;
    let action = sbi_vs_handler(&cpu);
    assert_eq!(action, SbiAction::WriteVstimecmp { stime: 42 });
    assert_eq!(sbi_time_handler(0, &cpu), action);
    assert!(sbi_action_csr_ops(&action).is_empty());
    assert_eq!(action.result(), Some(SbiRet { error: SBI_SUCCESS, value: 0 }));
}

#[test]
fn hsm_start_wakes_secondary() {
    let entry: u64 = 0x8020_0000;
    let opaque: u64 = 0xbfe0_0000;
    let cpu = ecall(0x48_534D, 0, [3, entry, opaque, 0, 0]);
    let action = sbi_vs_handler(&cpu);
    assert_eq!(
        action,
        SbiAction::HsmStart { hartid: 3, start_addr: entry, opaque, ipi_mask: 1 << 3 }
    );
    assert_eq!(action.result(), Some(SbiRet { error: SBI_SUCCESS, value: 0 }));
    let mut target = PerCpu::new(3);
    target.arch_cpu.ssi = 5;
    target.arch_cpu.sei = 7;
    sbi_hsm_start_target(&mut target, entry, opaque);
    assert_eq!((target.arch_cpu.ssi, target.arch_cpu.sti, target.arch_cpu.sei), (5, 0, 7));
    assert_eq!(target.arch_cpu.x[10], 0);
    assert_eq!(target.id, 3);
    assert_eq!(target.cpu_on_entry, entry);
    assert_eq!(target.arch_cpu.sepc, entry);
    assert_eq!(target.arch_cpu.x[11], opaque);
    assert_eq!(target.run_vm(), RunAction::IdleThenEnter);
    assert_eq!(target.arch_cpu.sepc, entry);
}

#[test]
fn hsm_start_of_the_caller_is_refused() {
    let mut cpu = ecall(0x48_534D, 0, [2, 0x8020_0000, 0, 0, 0]);
    cpu.hartid = 2;
    let action = sbi_hsm_start_handler(&cpu);
    assert_eq!(
        action,
        SbiAction::Return { ret: SbiRet { error: SBI_ERR_ALREADY_AVAILABLE, value: 0 } }
    );
    assert_eq!(action.result(), Some(SbiRet { error: -6, value: 0 }));
}

#[test]
fn hsm_start_of_no_hart_is_refused() {
    let cpu = ecall(0x48_534D, 0, [4, 0x8020_0000, 0, 0, 0]);
    assert_eq!(
        sbi_vs_handler(&cpu),
        SbiAction::Return { ret: SbiRet { error: SBI_ERR_INVALID_PARAM, value: 0 } }
    );
}

#[test]
fn other_hsm_functions_do_nothing() {
    let cpu = ecall(0x48_534D, 2, [1, 0, 0, 0, 0]);
    let action = sbi_hsm_handler(2, &cpu);
    assert_eq!(action, SbiAction::Return { ret: SbiRet { error: 0, value: 0 } });
    assert_eq!(sbi_vs_handler(&cpu), action);
}

#[test]
fn other_extensions_pass_through() {
    for eid in [0x10u64, 0x73_5049, 0x5246_4E43, 0x50_4D55, 0xdead] {
        let cpu = ecall(eid, 6, [1, 2, 3, 4, 5]);
        let action = sbi_vs_handler(&cpu);
        assert_eq!(
            action,
            SbiAction::PassThrough { eid, fid: 6, arg0: 1, arg1: 2, arg2: 3, arg3: 4, arg4: 5 }
        );
        assert_eq!(action.result(), None);
    }
}

#[test]
fn return_values_go_to_a0_and_a1() {
    let mut cpu = ecall(0x10, 0, [9, 9, 9, 9, 9]);
    cpu.sepc = 0x100;
    sbi_vs_return(&mut cpu, SbiRet { error: -1, value: 5 });
    assert_eq!(cpu.x[10], u64::MAX);
    assert_eq!(cpu.x[11], 5);
    assert_eq!(cpu.x[12], 9);
    assert_eq!(cpu.sepc, 0x100);
}
