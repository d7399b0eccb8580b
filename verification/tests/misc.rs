use hvisor::arch::riscv::csr::{CsrAccess, CsrOp};
use hvisor::arch::riscv::timer::{get_time_ms, set_next_trigger};
use hvisor::error::HvError;
use hvisor::memory::addr::{align_down, align_up, is_aligned};
use hvisor::memory::{AlignedPage, MemFlags, MEM_EXECUTE, MEM_IO, MEM_READ, MEM_WRITE};

#[test]
fn page_alignment() {
    assert_eq!(align_down(0x1fff), 0x1000);
    assert_eq!(align_down(0x2000), 0x2000);
    assert_eq!(align_down(0), 0);
    assert_eq!(align_up(0x1001), 0x2000);
    assert_eq!(align_up(0x2000), 0x2000);
    assert_eq!(align_up(0), 0);
    assert_eq!(align_up(u64::MAX - 0xfff), u64::MAX - 0xfff);
    assert!(is_aligned(0x3000));
    assert!(!is_aligned(0x3001));
}

#[test]
fn timer_arithmetic() {
    assert_eq!(set_next_trigger(1_000_000), 1_125_000);
    assert_eq!(get_time_ms(12_500_000), 1000);
    assert_eq!(get_time_ms(12_499), 0);
}

#[test]
fn flags_are_sets() {
    let rw = MemFlags { bits: MEM_READ }.union(MemFlags { bits: MEM_WRITE });
    assert_eq!(rw.bits(), 3);
    assert!(rw.contains(MemFlags { bits: MEM_READ }));
    assert!(!rw.contains(MemFlags { bits: MEM_EXECUTE }));
    assert!(rw.contains(MemFlags::empty()));
    assert_eq!(MemFlags::from_bits_truncate(0xffff_fc00 | MEM_IO).bits(), MEM_IO);
}

#[test]
fn register_accesses() {
    let set = CsrOp { access: CsrAccess::SetBits, csr: 0x645, value: 0x40 };
    let clear = CsrOp { access: CsrAccess::ClearBits, csr: 0x645, value: 0x40 };
    let write = CsrOp { access: CsrAccess::Write, csr: 0x645, value: 0x7 };
    assert_eq!(set.apply(0x645, 0x400), 0x440);
    assert_eq!(clear.apply(0x645, 0x440), 0x400);
    assert_eq!(write.apply(0x645, 0x440), 0x7);
    assert_eq!(write.apply(0x104, 0x440), 0x440);
}

#[test]
fn aligned_page_is_zero() {
    let page = AlignedPage::new();
    assert_eq!(page.0.len(), 4096);
    assert!(page.0.iter().all(|b| *b == 0));
}

#[test]
fn error_kinds_are_distinct() {
    let kinds = [
        HvError::NoMem,
        HvError::BadParam,
        HvError::BadState,
        HvError::Unmapped,
        HvError::Overlap,
        HvError::Unsupported,
    ];
    for i in 0..kinds.len() {
        for j in 0..kinds.len() {
            assert_eq!(kinds[i] == kinds[j], i == j);
        }
    }
}
