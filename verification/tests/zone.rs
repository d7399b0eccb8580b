use hvisor::devicetree::{check_nodes, push_device_regions, DeviceTree, RegRange, Sizing};
use hvisor::error::HvError;
use hvisor::memory::frame::{init, FrameAllocator};
use hvisor::memory::mm::{Fence, Mapper, MemoryRegion};
use hvisor::memory::{host_region_list, init_hv_page_table, MemFlags};
use hvisor::percpu::PerCpu;
use hvisor::zone::{add_zone, zone_create, Zone};

fn pool() -> FrameAllocator {
    init(0x8100_0000, 16 * 1024 * 1024)
}

fn reg(start: u64, size: u64) -> Option<RegRange> {
    Some(RegRange { start, size: Some(size) })
}

fn guest_tree() -> DeviceTree {
    DeviceTree {
        total_size: 0x1801,
        memory: vec![RegRange { start: 0x8020_0000, size: Some(0x800_0000) }],
        virtio_mmio: vec![reg(0x1000_8000, 0x1000), None, reg(0x1000_7000, 0x1000)],
        test: vec![reg(0x10_0000, 0x1000)],
        uart: vec![reg(0x1000_0000, 0x100)],
        clint: vec![reg(0x200_0000, 0x1_0000)],
        plic: vec![reg(0xc00_0000, 0x60_0000)],
        pci: vec![reg(0x3000_0000, 0x1000_0000)],
        cpus: vec![Some(2), Some(3)],
    }
}

fn cpus() -> Vec<PerCpu> {
    (0..4).map(PerCpu::new).collect()
}

fn ident(start: u64, size: u64, bits: u64) -> MemoryRegion {
    MemoryRegion {
        start,
        size,
        flags: MemFlags { bits },
        mapper: Mapper::Offset { host_base: start },
    }
}

#[test]
fn guest_regions_in_order() {
    let list = Zone::guest_region_list(&guest_tree(), 0x9000_0000, 0x8f00_0000, 0xbfe0_0000);
    let expected = vec![
        MemoryRegion {
            start: 0x8020_0000,
            size: 0x800_0000,
            flags: MemFlags { bits: 7 },
            mapper: Mapper::Offset { host_base: 0x9000_0000 },
        },
        MemoryRegion {
            start: 0xbfe0_0000,
            size: 0x2000,
            flags: MemFlags { bits: 7 },
            mapper: Mapper::Offset { host_base: 0x8f00_0000 },
        },
        ident(0x1000_8000, 0x1000, 3),
        ident(0x1000_7000, 0x1000, 3),
        ident(0x10_0000, 0x2000, 7),
        ident(0x1000_0000, 0x1000, 3),
        ident(0x200_0000, 0x1_0000, 3),
        ident(0x3000_0000, 0x1000_0000, 3),
    ];
    assert_eq!(list, expected);
}

#[test]
fn zone_maps_its_guest() {
    let mut pool = pool();
    let mut zone = Zone::new(1, &mut pool).unwrap();
    assert_eq!(zone.vmid, 1);
    assert_eq!(zone.gpm.len(), 0);
    assert_eq!(zone.cpu_set.first_cpu(), None);
    let tree = guest_tree();
    zone.pt_init(&mut pool, 0x9000_0000, &tree, 0x8f00_0000, 0xbfe0_0000).unwrap();
    let starts: Vec<u64> = (0..zone.gpm.len()).map(|i| zone.gpm.region(i).start).collect();
    assert_eq!(
        starts,
        vec![
            0x10_0000,
            0x200_0000,
            0x1000_0000,
            0x1000_7000,
            0x1000_8000,
            0x3000_0000,
            0x8020_0000,
            0xbfe0_0000
        ]
    );
    let rwx = MemFlags { bits: 7 };
    let rw = MemFlags { bits: 3 };
    assert_eq!(zone.gpm.query(0x8020_0000), Ok((0x9000_0000, rwx, 0x20_0000)));
    assert_eq!(zone.gpm.query(0x8820_0000 - 1), Ok((0x9800_0000 - 1, rwx, 0x20_0000)));
    assert_eq!(zone.gpm.query(0xbfe0_1000), Ok((0x8f00_1000, rwx, 0x1000)));
    assert_eq!(zone.gpm.query(0x1000_0010), Ok((0x1000_0010, rw, 0x1000)));
    assert_eq!(zone.gpm.query(0x10_1fff), Ok((0x10_1fff, rwx, 0x1000)));
    // the interrupt controller is left to fault
    assert_eq!(zone.gpm.query(0xc00_0000), Err(HvError::Unmapped));
    assert_eq!(zone.gpm.query(0xc20_1004), Err(HvError::Unmapped));
    assert_eq!(zone.gpm_activate().fence, Fence::HfenceGvma);
}

#[test]
fn zone_refuses_overlapping_devices() {
    let mut pool = pool();
    let mut zone = Zone::new(0, &mut pool).unwrap();
    let mut tree = guest_tree();
    tree.uart = vec![reg(0x1000_7800, 0x100)];
    assert_eq!(
        zone.pt_init(&mut pool, 0x9000_0000, &tree, 0x8f00_0000, 0xbfe0_0000),
        Err(HvError::Overlap)
    );
}

#[test]
fn zone_create_binds_harts() {
    let mut pool = pool();
    let mut cpus = cpus();
    let tree = guest_tree();
    let zone =
        zone_create(&mut pool, &mut cpus, 1, 0x9000_0000, &tree, 0x8f00_0000, 0xbfe0_0000).unwrap();
    assert_eq!(zone.vmid, 1);
    assert_eq!(zone.cpu_set.iter(), vec![2, 3]);
    assert_eq!(zone.gpm.len(), 8);
    for id in [0usize, 1] {
        assert_eq!(cpus[id].zone, None);
        assert!(!cpus[id].boot_cpu);
        assert_eq!(cpus[id].cpu_on_entry, u64::MAX);
        assert_eq!(cpus[id].arch_cpu.first_cpu, 0);
    }
    for id in [2usize, 3] {
        assert_eq!(cpus[id].zone, Some(1));
        assert_eq!(cpus[id].boot_cpu, id == 2);
        assert_eq!(cpus[id].cpu_on_entry, 0x8020_0000);
        assert_eq!(cpus[id].arch_cpu.first_cpu, 2);
        assert_eq!(cpus[id].id, id);
    }
    let mut zones = Vec::new();
    add_zone(&mut zones, zone);
    assert_eq!(zones.len(), 1);
}

#[test]
fn first_listed_hart_boots() {
    let mut pool = pool();
    let mut cpus = cpus();
    let mut tree = guest_tree();
    tree.cpus = vec![Some(2), Some(1)];
    let zone =
        zone_create(&mut pool, &mut cpus, 0, 0x9000_0000, &tree, 0x8f00_0000, 0xbfe0_0000).unwrap();
    assert_eq!(zone.cpu_set.iter(), vec![1, 2]);
    assert!(cpus[2].boot_cpu);
    assert!(!cpus[1].boot_cpu);
    assert_eq!(cpus[1].arch_cpu.first_cpu, 1);
    assert_eq!(cpus[2].arch_cpu.first_cpu, 1);
    assert_eq!(cpus.iter().filter(|c| c.boot_cpu).count(), 1);
}

#[test]
fn zone_create_without_frames_fails() {
    let mut pool = init(0x8100_0000, 5 * 0x1000);
    let mut cpus = cpus();
    let tree = guest_tree();
    let got = zone_create(&mut pool, &mut cpus, 0, 0x9000_0000, &tree, 0x8f00_0000, 0xbfe0_0000);
    assert_eq!(got.err(), Some(HvError::NoMem));
    assert_eq!(cpus[2].zone, None);
}

#[test]
fn host_maps_itself() {
    let mut pool = pool();
    let mut tree = guest_tree();
    tree.memory = vec![RegRange { start: 0x8000_0000, size: Some(0x4000_0000) }];
    let list = host_region_list(&tree);
    assert_eq!(list.len(), 8);
    assert_eq!(list[0], ident(0x8000_0000, 0x4000_0000, 7));
    assert_eq!(list[6], ident(0xc00_0000, 0x60_0000, 3));
    let set = init_hv_page_table(&tree, &mut pool).unwrap();
    assert_eq!(set.len(), 8);
    assert_eq!(set.query(0x8020_0000), Ok((0x8020_0000, MemFlags { bits: 7 }, 0x4000_0000)));
    assert_eq!(set.query(0xc20_1004), Ok((0xc20_1004, MemFlags { bits: 3 }, 0x20_0000)));
    assert_eq!(set.query(0x7fff_f000), Err(HvError::Unmapped));
    assert_eq!(set.activate().fence, Fence::SfenceVma);
}

#[test]
fn device_sizes() {
    let nodes = vec![reg(0x1000_0234, 0x100), None];
    let flags = MemFlags { bits: 3 };
    let mut out = Vec::new();
    push_device_regions(&mut out, &nodes, flags, Sizing::Plain);
    push_device_regions(&mut out, &nodes, flags, Sizing::PlusPage);
    push_device_regions(&mut out, &nodes, flags, Sizing::RoundUp);
    assert_eq!(
        out,
        vec![
            ident(0x1000_0000, 0x1000, 3),
            ident(0x1000_0000, 0x2000, 3),
            ident(0x1000_0000, 0x1000, 3)
        ]
    );
}

#[test]
fn tree_is_checked() {
    assert!(guest_tree().check());
    let mut no_memory = guest_tree();
    no_memory.memory = vec![];
    assert!(!no_memory.check());
    let mut no_size = guest_tree();
    no_size.memory = vec![RegRange { start: 0x8000_0000, size: None }];
    assert!(!no_size.check());
    let mut device_without_size = guest_tree();
    device_without_size.clint = vec![Some(RegRange { start: 0x200_0000, size: None })];
    assert!(!device_without_size.check());
    let mut too_long = guest_tree();
    too_long.pci = vec![reg(0x3000_0000, u64::MAX)];
    assert!(!too_long.check());
    assert!(check_nodes(&vec![None, reg(0, 0)]));
}
