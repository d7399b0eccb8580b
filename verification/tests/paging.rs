use hvisor::error::HvError;
use hvisor::memory::frame::{init, Frame, FrameAllocator};
use hvisor::memory::paging::{leaf_bits, Entry, PageTable, Stage};
use hvisor::memory::MemFlags;

fn pool() -> FrameAllocator {
    init(0x8100_0000, 16 * 1024 * 1024)
}

fn rw() -> MemFlags {
    MemFlags { bits: 0x3 }
}

#[test]
fn mapped_address_resolves() {
    let mut pool = pool();
    let mut table = PageTable::new(Stage::Stage2, &mut pool).unwrap();
    table.map(&mut pool, 0x8000_0000, 0x9000_0000, 0x3000, rw()).unwrap();
    assert_eq!(table.query(0x8000_0000), Ok((0x9000_0000, rw(), 0x1000)));
    assert_eq!(table.query(0x8000_2abc), Ok((0x9000_2abc, rw(), 0x1000)));
    assert_eq!(table.query(0x8000_3000), Err(HvError::Unmapped));
    assert_eq!(table.query(0x7fff_ffff), Err(HvError::Unmapped));
}

#[test]
fn unmapped_address_is_not_present() {
    let mut pool = pool();
    let mut table = PageTable::new(Stage::Stage1, &mut pool).unwrap();
    table.map(&mut pool, 0x1000_0000, 0x1000_0000, 0x2000, rw()).unwrap();
    table.unmap(0x1000_0000, 0x2000).unwrap();
    assert_eq!(table.query(0x1000_0000), Err(HvError::Unmapped));
    assert_eq!(table.query(0x1000_1000), Err(HvError::Unmapped));
    assert_eq!(table.unmap(0x1000_0000, 0x1000), Err(HvError::Unmapped));
}

#[test]
fn large_blocks_where_they_fit() {
    let mut pool = pool();
    let mut table = PageTable::new(Stage::Stage2, &mut pool).unwrap();
    table.map(&mut pool, 0x4000_0000, 0x8000_0000, 0x4020_1000, rw()).unwrap();
    assert_eq!(table.query(0x4000_0000), Ok((0x8000_0000, rw(), 0x4000_0000)));
    assert_eq!(table.query(0x7fff_ffff), Ok((0xbfff_ffff, rw(), 0x4000_0000)));
    assert_eq!(table.query(0x8000_0000), Ok((0xc000_0000, rw(), 0x20_0000)));
    assert_eq!(table.query(0x8020_0123), Ok((0xc020_0123, rw(), 0x1000)));
    assert_eq!(table.query(0x8020_1000), Err(HvError::Unmapped));
}

#[test]
fn no_large_blocks_when_told_so() {
    let mut pool = pool();
    let mut table = PageTable::new(Stage::Stage2, &mut pool).unwrap();
    let flags = MemFlags { bits: 0x3 | 0x100 };
    table.map(&mut pool, 0x20_0000, 0x20_0000, 0x20_0000, flags).unwrap();
    assert_eq!(table.query(0x20_0000), Ok((0x20_0000, flags, 0x1000)));
    assert_eq!(table.query(0x3f_f000), Ok((0x3f_f000, flags, 0x1000)));
}

#[test]
fn map_refuses_what_is_mapped() {
    let mut pool = pool();
    let mut table = PageTable::new(Stage::Stage2, &mut pool).unwrap();
    table.map(&mut pool, 0x8000_1000, 0x9000_0000, 0x1000, rw()).unwrap();
    assert_eq!(
        table.map(&mut pool, 0x8000_0000, 0xa000_0000, 0x2000, rw()),
        Err(HvError::Overlap)
    );
    assert_eq!(table.query(0x8000_1000), Ok((0x9000_0000, rw(), 0x1000)));
}

#[test]
fn map_refuses_bad_arguments() {
    let mut pool = pool();
    let mut table = PageTable::new(Stage::Stage1, &mut pool).unwrap();
    assert_eq!(table.map(&mut pool, 0x1001, 0x2000, 0x1000, rw()), Err(HvError::BadParam));
    assert_eq!(table.map(&mut pool, 0x1000, 0x2001, 0x1000, rw()), Err(HvError::BadParam));
    assert_eq!(table.map(&mut pool, 0x1000, 0x2000, 0x1001, rw()), Err(HvError::BadParam));
    assert_eq!(
        table.map(&mut pool, 0x80_0000_0000 - 0x1000, 0x2000, 0x2000, rw()),
        Err(HvError::BadParam)
    );
    assert!(table.map(&mut pool, 0x80_0000_0000 - 0x1000, 0x2000, 0x1000, rw()).is_ok());
    assert_eq!(table.map(&mut pool, 0x1000, 0x2000, 0, rw()), Ok(()));
    assert_eq!(table.query(0x1000), Err(HvError::Unmapped));
}

#[test]
fn guest_stage_reaches_further() {
    let mut pool = pool();
    let mut guest = PageTable::new(Stage::Stage2, &mut pool).unwrap();
    let mut host = PageTable::new(Stage::Stage1, &mut pool).unwrap();
    assert_eq!(guest.node_width(0), 2048);
    assert_eq!(host.node_width(0), 512);
    assert_eq!(guest.root_paddr() % 0x4000, 0);
    assert!(guest.map(&mut pool, 0x100_0000_0000, 0x8000_0000, 0x1000, rw()).is_ok());
    assert_eq!(
        host.map(&mut pool, 0x100_0000_0000, 0x8000_0000, 0x1000, rw()),
        Err(HvError::BadParam)
    );
    assert_eq!(guest.query(0x100_0000_0000), Ok((0x8000_0000, rw(), 0x1000)));
    assert_eq!(guest.query(0x200_0000_0000), Err(HvError::Unmapped));
}

#[test]
fn map_without_frames_fails() {
    let mut pool = init(0x8100_0000, 0x1000);
    let mut table = PageTable::new(Stage::Stage1, &mut pool).unwrap();
    assert_eq!(table.map(&mut pool, 0x1000, 0x2000, 0x1000, rw()), Err(HvError::NoMem));
    assert_eq!(table.query(0x1000), Err(HvError::Unmapped));
    assert_eq!(PageTable::new(Stage::Stage1, &mut pool).err(), Some(HvError::NoMem));
}

#[test]
fn unmap_wants_whole_blocks() {
    let mut pool = pool();
    let mut table = PageTable::new(Stage::Stage2, &mut pool).unwrap();
    table.map(&mut pool, 0x20_0000, 0x8020_0000, 0x20_0000, rw()).unwrap();
    assert_eq!(table.unmap(0x20_0000, 0x1000), Err(HvError::BadParam));
    assert_eq!(table.unmap(0x20_1000, 0x1000), Err(HvError::BadParam));
    assert_eq!(table.unmap(0x20_0001, 0x1000), Err(HvError::BadParam));
    assert_eq!(table.query(0x20_0000), Ok((0x8020_0000, rw(), 0x20_0000)));
    assert_eq!(table.unmap(0x20_0000, 0x20_0000), Ok(()));
    assert_eq!(table.query(0x20_0000), Err(HvError::Unmapped));
}

#[test]
fn map_again_after_unmap() {
    let mut pool = pool();
    let mut table = PageTable::new(Stage::Stage2, &mut pool).unwrap();
    table.map(&mut pool, 0x20_0000, 0x8020_0000, 0x1000, rw()).unwrap();
    table.unmap(0x20_0000, 0x1000).unwrap();
    table.map(&mut pool, 0x20_0000, 0x9020_0000, 0x20_0000, rw()).unwrap();
    assert_eq!(table.query(0x20_0000), Ok((0x9020_0000, rw(), 0x1000)));
    assert_eq!(table.query(0x3f_ffff), Ok((0x903f_ffff, rw(), 0x1000)));
}

#[test]
fn hardware_entries() {
    let mut pool = pool();
    let mut table = PageTable::new(Stage::Stage2, &mut pool).unwrap();
    table.map(&mut pool, 0x4000_0000, 0x8000_0000, 0x4000_0000, rw()).unwrap();
    assert_eq!(table.read_entry(0, 1), Entry::Leaf { paddr: 0x8000_0000, flags: rw() });
    assert_eq!(table.read_entry(0, 0), Entry::Empty);
    assert_eq!(table.pte(0, 0), 0);
    assert_eq!(table.pte(0, 1), ((0x8000_0000u64 >> 12) << 10) | 0xd7);
    table.map(&mut pool, 0x1000, 0x9000_0000, 0x1000, MemFlags { bits: 0x5 }).unwrap();
    assert_eq!(table.nodes_len(), 3);
    assert_eq!(table.read_entry(0, 0), Entry::Table { child: 1 });
    assert_eq!(table.pte(0, 0), ((table.frame_paddr(1) >> 12) << 10) | 0x1);
    assert_eq!(table.pte(2, 1), ((0x9000_0000u64 >> 12) << 10) | 0xdb);
    assert_eq!(leaf_bits(false, MemFlags { bits: 0x1 }), 0xc3);
    assert_eq!(leaf_bits(false, MemFlags { bits: 0x201 }), 0xd3);
    assert_eq!(leaf_bits(true, MemFlags { bits: 0x7 }), 0xdf);
}

#[test]
fn release_gives_the_frames_back() {
    let mut pool = init(0x8100_0000, 8 * 0x1000);
    let mut table = PageTable::new(Stage::Stage1, &mut pool).unwrap();
    table.map(&mut pool, 0x1000, 0x2000, 0x1000, rw()).unwrap();
    assert_eq!(table.nodes_len(), 3);
    assert_eq!(Frame::new(&mut pool).unwrap().start_paddr(), 0x8100_3000);
    table.release(&mut pool);
    assert_eq!(Frame::new(&mut pool).unwrap().start_paddr(), 0x8100_0000);
}

#[test]
fn block_sizes_follow_alignment_and_room() {
    let mut pool = pool();
    let mut table = PageTable::new(Stage::Stage2, &mut pool).unwrap();
    // an unaligned start: pages up to the 2 MiB boundary, then 2 MiB blocks
    table.map(&mut pool, 0x1f_f000, 0x8000_f000, 0x40_2000, rw()).unwrap();
    assert_eq!(table.query(0x1f_f000).map(|t| t.2), Ok(0x1000));
    // the physical address is not aligned where the virtual one is
    assert_eq!(table.query(0x20_0000).map(|t| t.2), Ok(0x1000));
    let mut other = PageTable::new(Stage::Stage2, &mut pool).unwrap();
    other.map(&mut pool, 0x1f_f000, 0x801f_f000, 0x40_2000, rw()).unwrap();
    assert_eq!(other.query(0x1f_f000).map(|t| t.2), Ok(0x1000));
    assert_eq!(other.query(0x20_0000).map(|t| t.2), Ok(0x20_0000));
    assert_eq!(other.query(0x40_0000).map(|t| t.2), Ok(0x20_0000));
    assert_eq!(other.query(0x60_0000).map(|t| t.2), Ok(0x1000));
    assert_eq!(other.query(0x60_0000).map(|t| t.0), Ok(0x8060_0000));
    assert_eq!(other.query(0x60_1000), Err(HvError::Unmapped));
}
