use hvisor::zone::CpuSet;

#[test]
fn cpuset_members_in_order() {
    let set = CpuSet::new(7, 0b1010_0110);
    assert_eq!(set.iter(), vec![1, 2, 5, 7]);
    assert_eq!(set.first_cpu(), Some(1));
    assert_eq!(set.iter_except(5), vec![1, 2, 7]);
    assert!(set.contains_cpu(2));
    assert!(!set.contains_cpu(3));
}

#[test]
fn cpuset_count_is_popcount() {
    let bitmap: u64 = 0b1011_0001;
    let set = CpuSet::new(7, bitmap);
    assert_eq!(set.iter().len() as u32, bitmap.count_ones());
}

#[test]
fn cpuset_ignores_bits_above_max() {
    let set = CpuSet::new(3, 0b1111_0000);
    assert_eq!(set.first_cpu(), None);
    assert!(set.iter().is_empty());
    assert!(!set.contains_cpu(4));
}

#[test]
fn cpuset_set_and_clear() {
    let mut set = CpuSet::new(4, 0);
    set.set_bit(3);
    set.set_bit(1);
    assert_eq!(set.iter(), vec![1, 3]);
    set.clear_bit(1);
    assert_eq!(set.iter(), vec![3]);
    assert_eq!(set.first_cpu(), Some(3));
}

#[test]
fn cpuset_from_slice_is_little_endian() {
    let set = CpuSet::from_cpuset_slice(&[0x01, 0x80, 0, 0, 0, 0, 0, 0x80]);
    assert_eq!(set.iter(), vec![0, 15, 63]);
}

#[test]
fn cpuset_clear_undoes_set() {
    let original = CpuSet::new(7, 0b0100_0101);
    let mut set = original;
    set.set_bit(4);
    assert_eq!(set.iter(), vec![0, 2, 4, 6]);
    set.clear_bit(4);
    assert_eq!(set.iter(), original.iter());
    assert_eq!(format!("{:?}", set), format!("{:?}", original));
}
