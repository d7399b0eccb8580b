use hvisor::arch::riscv::csr::{CsrAccess, CSR_HGATP, CSR_SATP};
use hvisor::error::HvError;
use hvisor::memory::frame::{init, Frame, FrameAllocator};
use hvisor::memory::mm::{Fence, Mapper, MemoryRegion, MemorySet, MODE_SV39};
use hvisor::memory::paging::Stage;
use hvisor::memory::MemFlags;

fn pool() -> FrameAllocator {
    init(0x8100_0000, 16 * 1024 * 1024)
}

fn rw() -> MemFlags {
    MemFlags { bits: 0x3 }
}

fn region(start: u64, paddr: u64, size: u64) -> MemoryRegion {
    MemoryRegion::new_with_offset_mapper(start, paddr, size, rw())
}

fn starts(set: &MemorySet) -> Vec<u64> {
    (0..set.len()).map(|i| set.region(i).start).collect()
}

#[test]
fn region_is_rounded_to_pages() {
    let r = MemoryRegion::new_with_offset_mapper(0x1234, 0x8000_0567, 0x1001, rw());
    assert_eq!(r.start, 0x1000);
    assert_eq!(r.size, 0x2000);
    assert_eq!(r.mapper, Mapper::Offset { host_base: 0x8000_0000 });
    assert_eq!(r.flags, rw());
}

#[test]
fn regions_stay_in_order() {
    let mut pool = pool();
    let mut set = MemorySet::new(Stage::Stage2, &mut pool).unwrap();
    set.insert(&mut pool, region(0x3000, 0x8000_3000, 0x1000)).unwrap();
    set.insert(&mut pool, region(0x1000, 0x8000_1000, 0x1000)).unwrap();
    set.insert(&mut pool, region(0x2000, 0x8000_2000, 0x1000)).unwrap();
    set.insert(&mut pool, region(0x8000, 0x9000_0000, 0x4000)).unwrap();
    assert_eq!(starts(&set), vec![0x1000, 0x2000, 0x3000, 0x8000]);
}

#[test]
fn overlap_is_refused() {
    let mut pool = pool();
    let mut set = MemorySet::new(Stage::Stage2, &mut pool).unwrap();
    set.insert(&mut pool, region(0x4000, 0x8000_0000, 0x4000)).unwrap();
    assert_eq!(set.insert(&mut pool, region(0x7000, 0x9000_0000, 0x1000)), Err(HvError::Overlap));
    assert_eq!(set.insert(&mut pool, region(0x3000, 0x9000_0000, 0x2000)), Err(HvError::Overlap));
    assert_eq!(set.insert(&mut pool, region(0x0, 0x9000_0000, 0x10000)), Err(HvError::Overlap));
    assert_eq!(set.insert(&mut pool, region(0x5000, 0x9000_0000, 0x1000)), Err(HvError::Overlap));
    assert_eq!(set.insert(&mut pool, region(0x3000, 0x9000_0000, 0x1000)), Ok(()));
    assert_eq!(set.insert(&mut pool, region(0x8000, 0x9000_1000, 0x1000)), Ok(()));
    assert_eq!(starts(&set), vec![0x3000, 0x4000, 0x8000]);
    assert_eq!(set.query(0x7000), Ok((0x8000_3000, rw(), 0x1000)));
}

#[test]
fn region_out_of_reach_is_refused() {
    let mut pool = pool();
    let mut set = MemorySet::new(Stage::Stage1, &mut pool).unwrap();
    assert_eq!(
        set.insert(&mut pool, region(0x80_0000_0000, 0x8000_0000, 0x1000)),
        Err(HvError::BadParam)
    );
    let crooked = MemoryRegion {
        start: 0x1001,
        size: 0x1000,
        flags: rw(),
        mapper: Mapper::Offset { host_base: 0x8000_0000 },
    };
    assert_eq!(set.insert(&mut pool, crooked), Err(HvError::BadParam));
    assert_eq!(set.len(), 0);
}

#[test]
fn empty_region_changes_nothing() {
    let mut pool = pool();
    let mut set = MemorySet::new(Stage::Stage2, &mut pool).unwrap();
    assert_eq!(set.insert(&mut pool, region(0x1000, 0x8000_0000, 0)), Ok(()));
    assert_eq!(set.len(), 0);
    assert_eq!(set.query(0x1000), Err(HvError::Unmapped));
}

#[test]
fn mappings_follow_the_regions() {
    let mut pool = pool();
    let mut set = MemorySet::new(Stage::Stage2, &mut pool).unwrap();
    set.insert(&mut pool, region(0x8000_0000, 0x9000_0000, 0x40_0000)).unwrap();
    set.insert(&mut pool, region(0x1000_0000, 0x1000_0000, 0x2000)).unwrap();
    assert_eq!(set.query(0x8000_0000), Ok((0x9000_0000, rw(), 0x20_0000)));
    assert_eq!(set.query(0x803f_ffff), Ok((0x903f_ffff, rw(), 0x20_0000)));
    assert_eq!(set.query(0x8040_0000), Err(HvError::Unmapped));
    assert_eq!(set.query(0x1000_1008), Ok((0x1000_1008, rw(), 0x1000)));
    assert_eq!(set.unmap(0x8000_0000), Ok(()));
    assert_eq!(set.query(0x8000_0000), Err(HvError::Unmapped));
    assert_eq!(set.query(0x803f_ffff), Err(HvError::Unmapped));
    assert_eq!(set.query(0x1000_1008), Ok((0x1000_1008, rw(), 0x1000)));
    assert_eq!(starts(&set), vec![0x1000_0000]);
    set.insert(&mut pool, region(0x8010_0000, 0xa000_0000, 0x1000)).unwrap();
    assert_eq!(set.query(0x8010_0000), Ok((0xa000_0000, rw(), 0x1000)));
    assert_eq!(set.query(0x8000_0000), Err(HvError::Unmapped));
    assert_eq!(starts(&set), vec![0x1000_0000, 0x8010_0000]);
}

#[test]
fn unmap_wants_the_start_of_a_region() {
    let mut pool = pool();
    let mut set = MemorySet::new(Stage::Stage2, &mut pool).unwrap();
    set.insert(&mut pool, region(0x4000, 0x8000_0000, 0x4000)).unwrap();
    assert_eq!(set.unmap(0x5000), Err(HvError::Unmapped));
    assert_eq!(set.unmap(0x3000), Err(HvError::Unmapped));
    assert_eq!(set.len(), 1);
    assert_eq!(set.unmap(0x4000), Ok(()));
    assert_eq!(set.unmap(0x4000), Err(HvError::Unmapped));
    assert_eq!(set.len(), 0);
}

#[test]
fn insert_all_stops_at_the_first_refusal() {
    let mut pool = pool();
    let mut set = MemorySet::new(Stage::Stage2, &mut pool).unwrap();
    let todo = vec![
        region(0x1000, 0x8000_0000, 0x1000),
        region(0x1000, 0x9000_0000, 0x1000),
        region(0x5000, 0x9000_0000, 0x1000),
    ];
    assert_eq!(set.insert_all(&mut pool, &todo), Err(HvError::Overlap));
    assert_eq!(starts(&set), vec![0x1000]);
    assert_eq!(set.query(0x5000), Err(HvError::Unmapped));
}

#[test]
fn insert_without_frames_fails() {
    let mut pool = init(0x8100_0000, 0x1000);
    let mut set = MemorySet::new(Stage::Stage1, &mut pool).unwrap();
    assert_eq!(set.insert(&mut pool, region(0x1000, 0x8000_0000, 0x1000)), Err(HvError::NoMem));
    assert_eq!(set.len(), 0);
}

#[test]
fn activation_names_register_and_fence() {
    let mut pool = pool();
    let host = MemorySet::new(Stage::Stage1, &mut pool).unwrap();
    let guest = MemorySet::new(Stage::Stage2, &mut pool).unwrap();
    let a = host.activate();
    assert_eq!(a.write.access, CsrAccess::Write);
    assert_eq!(a.write.csr, CSR_SATP);
    assert_eq!(a.write.value, MODE_SV39 | (0x8100_0000u64 >> 12));
    assert_eq!(a.fence, Fence::SfenceVma);
    let b = guest.activate();
    assert_eq!(b.write.csr, CSR_HGATP);
    assert_eq!(b.write.value, MODE_SV39 | (0x8100_4000u64 >> 12));
    assert_eq!(b.fence, Fence::HfenceGvma);
}

#[test]
fn region_in_frames_of_the_pool() {
    let mut pool = pool();
    let mut set = MemorySet::new(Stage::Stage2, &mut pool).unwrap();
    let frames = Frame::new_contiguous(&mut pool, 3, 0).unwrap();
    let base = frames.start_paddr();
    let r = MemoryRegion::new_with_frame_mapper(0x4000_0123, &frames, rw());
    assert_eq!(r.start, 0x4000_0000);
    assert_eq!(r.size, 0x3000);
    assert_eq!(r.mapper, Mapper::Frames { start_paddr: base, frame_count: 3 });
    set.insert(&mut pool, r).unwrap();
    assert_eq!(set.query(0x4000_0000), Ok((base, rw(), 0x1000)));
    assert_eq!(set.query(0x4000_2ff8), Ok((base + 0x2ff8, rw(), 0x1000)));
    assert_eq!(set.query(0x4000_3000), Err(HvError::Unmapped));
    let short = MemoryRegion { size: 0x4000, start: 0x5000_0000, ..r };
    assert_eq!(set.insert(&mut pool, short), Err(HvError::BadParam));
}
