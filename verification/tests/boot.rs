use hvisor::arch::riscv::cpu::ArchCpu;
use hvisor::arch::riscv::csr::{apply_all, CsrAccess, CSR_HEDELEG, CSR_HIDELEG, CSR_HVIP, CSR_SIE};
use hvisor::boot::{
    per_cpu_init, primary_init_early, wait_for_counter, wakeup_secondary_cpus, BootAction,
    BootPhase, GuestImage, HartBoot, Tables,
};
use hvisor::devicetree::{DeviceTree, RegRange};
use hvisor::error::HvError;
use hvisor::percpu::{get_cpu_data, PerCpu, RunAction};

struct Shared {
    entered: u32,
    inited: u32,
    early_ok: u32,
    late_ok: u32,
    master: i32,
}

fn step(id: usize, hart: HartBoot, shared: &mut Shared) -> HartBoot {
    let observed = match hart.action() {
        BootAction::ElectMaster => {
            if shared.master == -1 {
                shared.master = id as i32;
                1
            } else {
                0
            }
        }
        BootAction::CountEntered => {
            shared.entered += 1;
            0
        }
        BootAction::LoadEntered => shared.entered,
        BootAction::PrimaryInitEarly => {
            shared.early_ok = 1;
            0
        }
        BootAction::LoadEarlyOk => shared.early_ok,
        BootAction::PerCpuInit => {
            shared.inited += 1;
            0
        }
        BootAction::LoadInited => shared.inited,
        BootAction::PrimaryInitLate => {
            shared.late_ok = 1;
            0
        }
        BootAction::LoadLateOk => shared.late_ok,
        BootAction::WakeSecondaries | BootAction::CpuInit | BootAction::RunVm => 0,
    };
    hart.next(observed)
}

fn past_activation(phase: BootPhase) -> bool {
    matches!(
        phase,
        BootPhase::PerCpuInit
            | BootPhase::WaitInited
            | BootPhase::CpuInit
            | BootPhase::LateInit
            | BootPhase::WaitLateOk
            | BootPhase::Run
    )
}

fn past_init(phase: BootPhase) -> bool {
    matches!(
        phase,
        BootPhase::CpuInit | BootPhase::LateInit | BootPhase::WaitLateOk | BootPhase::Run
    )
}

fn run(order: &[usize]) {
    let mut shared = Shared { entered: 0, inited: 0, early_ok: 0, late_ok: 0, master: -1 };
    let mut harts = vec![HartBoot::new(); 4];
    let mut rounds = 0;
    while harts.iter().any(|h| h.phase != BootPhase::Run) {
        for &id in order {
            harts[id] = step(id, harts[id], &mut shared);
            let primaries = harts.iter().filter(|h| h.is_primary).count();
            assert!(primaries <= 1);
            if harts.iter().any(|h| h.phase != BootPhase::Elect) {
                assert_eq!(primaries, 1);
            }
            for h in &harts {
                if past_activation(h.phase) {
                    assert_eq!(shared.early_ok, 1);
                    assert_eq!(shared.entered, 4);
                }
                if past_init(h.phase) {
                    assert_eq!(shared.inited, 4);
                }
                if h.phase == BootPhase::Run && !h.is_primary {
                    assert_eq!(shared.late_ok, 1);
                }
            }
        }
        rounds += 1;
        assert!(rounds < 100);
    }
    assert!(harts[shared.master as usize].is_primary);
    assert_eq!(shared.entered, 4);
    assert_eq!(shared.inited, 4);
}

#[test]
fn boot_barriers_hold_in_any_order() {
    run(&[0, 1, 2, 3]);
    run(&[3, 2, 1, 0]);
    run(&[2, 2, 2, 0, 1, 3, 3]);
    run(&[1, 1, 1, 1, 0, 0, 3, 2, 2]);
}

#[test]
fn first_hart_to_elect_is_primary() {
    let first = HartBoot::new().next(1);
    assert_eq!(first, HartBoot { phase: BootPhase::Enter, is_primary: true });
    assert_eq!(first.action(), BootAction::CountEntered);
    assert_eq!(first.next(0).phase, BootPhase::Wake);
    let later = HartBoot::new().next(0);
    assert_eq!(later, HartBoot { phase: BootPhase::Enter, is_primary: false });
    assert_eq!(later.next(0).phase, BootPhase::WaitEntered);
}

#[test]
fn waiting_harts_stay_until_the_count_is_reached() {
    let waiting = HartBoot { phase: BootPhase::WaitEntered, is_primary: false };
    assert_eq!(waiting.next(3), waiting);
    assert_eq!(waiting.next(4).phase, BootPhase::WaitEarlyOk);
    let primary = HartBoot { phase: BootPhase::WaitEntered, is_primary: true };
    assert_eq!(primary.next(4).phase, BootPhase::EarlyInit);
    let early = HartBoot { phase: BootPhase::WaitEarlyOk, is_primary: false };
    assert_eq!(early.next(0), early);
    assert_eq!(early.next(1).phase, BootPhase::PerCpuInit);
    let inited = HartBoot { phase: BootPhase::WaitInited, is_primary: false };
    assert_eq!(inited.next(3), inited);
    assert_eq!(inited.next(4).phase, BootPhase::CpuInit);
    let late = HartBoot { phase: BootPhase::WaitLateOk, is_primary: false };
    assert_eq!(late.next(0), late);
    assert_eq!(late.next(1).phase, BootPhase::Run);
    assert!(wait_for_counter(3, 4));
    assert!(!wait_for_counter(4, 4));
}

#[test]
fn primary_wakes_every_other_hart() {
    assert_eq!(wakeup_secondary_cpus(0), vec![1, 2, 3]);
    assert_eq!(wakeup_secondary_cpus(2), vec![0, 1, 3]);
    assert_eq!(wakeup_secondary_cpus(7), vec![0, 1, 2, 3]);
}

#[test]
fn hart_registers_are_prepared() {
    let base: u64 = 0x8040_0000;
    let mut cpu = PerCpu::new(1);
    cpu.cpu_on_entry = 0x8020_0000;
    let ops = cpu.cpu_init(base, 0xbfe0_0000);
    assert_eq!(cpu.arch_cpu.sepc, 0x8020_0000);
    assert_eq!(cpu.arch_cpu.hstatus, (1 << 7) | (2 << 32));
    assert_eq!(cpu.arch_cpu.sstatus, (1 << 8) | (1 << 63) | (3 << 13) | (3 << 15));
    assert_eq!(cpu.arch_cpu.x[10], 1);
    assert_eq!(cpu.arch_cpu.x[11], 0xbfe0_0000);
    assert_eq!(cpu.arch_cpu.stack_top, base + 2 * 128 * 1024 - 8);
    assert_eq!(cpu.arch_cpu.stack_top(base), base + 2 * 128 * 1024 - 8);
    assert_eq!(cpu.arch_cpu.get_hartid(), 1);
    assert_eq!(get_cpu_data(base, 3), base + 3 * 128 * 1024);
    assert_eq!(ops.len(), 16);
    assert_eq!(apply_all(&ops, CSR_HIDELEG, 0), (1 << 2) | (1 << 6) | (1 << 10));
    assert_eq!(apply_all(&ops, CSR_HEDELEG, 0), (1 << 8) | (1 << 12) | (1 << 13) | (1 << 15));
    assert_eq!(apply_all(&ops, CSR_SIE, 0), (1 << 9) | (1 << 5) | (1 << 1));
    assert_eq!(apply_all(&ops, CSR_HVIP, 0xffff), 0);
    assert_eq!(ops[0].access, CsrAccess::SetBits);
    let mut plain = ArchCpu::new(0);
    let again = plain.init(base, 0x1000, 0, 0x2000);
    assert_eq!(again, ops);
}

#[test]
fn boot_hart_enters_at_once() {
    let mut cpu = PerCpu::new(0);
    assert_eq!(cpu.run_vm(), RunAction::IdleThenEnter);
    // a hart that is bound to no zone still activates the hypervisor's table
    assert_eq!(per_cpu_init(&cpu), Tables { host: true, guest: None });
    cpu.boot_cpu = true;
    cpu.zone = Some(1);
    assert_eq!(cpu.run_vm(), RunAction::Enter);
    assert_eq!(per_cpu_init(&cpu), Tables { host: true, guest: Some(1) });
}

fn reg(start: u64, size: u64) -> Option<RegRange> {
    Some(RegRange { start, size: Some(size) })
}

fn tree(memory: u64, cpus: Vec<Option<usize>>) -> DeviceTree {
    DeviceTree {
        total_size: 0x1000,
        memory: vec![RegRange { start: memory, size: Some(0x800_0000) }],
        virtio_mmio: vec![reg(0x1000_8000, 0x1000)],
        test: vec![reg(0x10_0000, 0x1000)],
        uart: vec![reg(0x1000_0000, 0x100)],
        clint: vec![reg(0x200_0000, 0x1_0000)],
        plic: vec![reg(0xc00_0000, 0x60_0000)],
        pci: vec![],
        cpus,
    }
}

#[test]
fn primary_sets_up_the_machine() {
    let host = tree(0x8000_0000, vec![Some(0), Some(1), Some(2), Some(3)]);
    let guests = vec![
        GuestImage {
            image_paddr: 0x9000_0000,
            dtb_paddr: 0x8f00_0000,
            tree: tree(0x8020_0000, vec![Some(0), Some(1)]),
        },
        GuestImage {
            image_paddr: 0xa000_0000,
            dtb_paddr: 0x8f10_0000,
            tree: tree(0x8020_0000, vec![Some(3), Some(2)]),
        },
    ];
    let mut cpus: Vec<PerCpu> = (0..4).map(PerCpu::new).collect();
    let hv = match primary_init_early(0x8040_0000, &host, &guests, &mut cpus) {
        Ok(hv) => hv,
        Err(failure) => panic!("{:?}", failure.error),
    };
    assert_eq!(hv.hv_pt.page_table().root_paddr(), 0x8040_0000 + 4 * 128 * 1024);
    assert_eq!(hv.zones[0].gpm.page_table().root_paddr() % 0x4000, 0);
    assert_eq!(hv.zones[1].gpm.page_table().root_paddr() % 0x4000, 0);
    assert_eq!(hv.plic.base, 0xc00_0000);
    assert_eq!(hv.plic.size, 0x60_0000);
    assert_eq!(hv.hv_pt.len(), 6);
    assert_eq!(hv.zones.len(), 2);
    assert_eq!(hv.zones[0].vmid, 0);
    assert_eq!(hv.zones[1].vmid, 1);
    assert_eq!(hv.zones[0].cpu_set.iter(), vec![0, 1]);
    assert_eq!(hv.zones[1].cpu_set.iter(), vec![2, 3]);
    assert_eq!(hv.zones[1].gpm.query(0x8020_0000).map(|t| t.0), Ok(0xa000_0000));
    assert_eq!(hv.zones[0].gpm.query(0xbfe0_0000).map(|t| t.0), Ok(0x8f00_0000));
    let zones: Vec<Option<usize>> = cpus.iter().map(|c| c.zone).collect();
    assert_eq!(zones, vec![Some(0), Some(0), Some(1), Some(1)]);
    // the second guest lists hart 3 first: it boots, though hart 2 is lower
    let boots: Vec<bool> = cpus.iter().map(|c| c.boot_cpu).collect();
    assert_eq!(boots, vec![true, false, false, true]);
    let firsts: Vec<usize> = cpus.iter().map(|c| c.arch_cpu.first_cpu).collect();
    assert_eq!(firsts, vec![0, 0, 2, 2]);
    assert!(cpus.iter().all(|c| c.cpu_on_entry == 0x8020_0000));
}

#[test]
fn primary_stops_at_the_first_failure() {
    let host = tree(0x8000_0000, vec![Some(0)]);
    let mut bad = tree(0x8020_0000, vec![Some(1)]);
    bad.uart = vec![reg(0x1000_8000, 0x100)];
    let guests = vec![GuestImage { image_paddr: 0x9000_0000, dtb_paddr: 0x8f00_0000, tree: bad }];
    let mut cpus: Vec<PerCpu> = (0..4).map(PerCpu::new).collect();
    let got = primary_init_early(0x8040_0000, &host, &guests, &mut cpus);
    assert_eq!(got.err().map(|failure| failure.error), Some(HvError::Overlap));
    assert_eq!(cpus[1].zone, None);
}
