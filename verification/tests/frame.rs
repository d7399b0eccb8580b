use hvisor::error::HvError;
use hvisor::memory::frame::{init, release_all, Frame, FrameAllocator};
use hvisor::memory::init_frame_allocator;

const POOL_BASE: u64 = 0x8100_0000;
const POOL_SIZE: u64 = 16 * 1024 * 1024;

fn pool() -> FrameAllocator {
    init(POOL_BASE, POOL_SIZE)
}

#[test]
fn frame_round_trip() {
    let mut pool = pool();
    let mut first: Vec<u64> = Vec::new();
    let mut held: Vec<Frame> = Vec::new();
    for _ in 0..5 {
        let frame = Frame::new(&mut pool).unwrap();
        first.push(frame.start_paddr());
        held.push(frame);
    }
    release_all(&mut pool, held);
    let mut second: Vec<u64> = Vec::new();
    let mut held: Vec<Frame> = Vec::new();
    for _ in 0..5 {
        let frame = Frame::new(&mut pool).unwrap();
        second.push(frame.start_paddr());
        held.push(frame);
    }
    first.sort();
    second.sort();
    assert_eq!(first, second);
    release_all(&mut pool, held);
}

#[test]
fn frames_come_lowest_first() {
    let mut pool = pool();
    let a = Frame::new(&mut pool).unwrap();
    let b = Frame::new(&mut pool).unwrap();
    let c = Frame::new(&mut pool).unwrap();
    assert_eq!(a.start_paddr(), POOL_BASE);
    assert_eq!(b.start_paddr(), POOL_BASE + 0x1000);
    assert_eq!(c.start_paddr(), POOL_BASE + 0x2000);
    assert_eq!(a.size(), 0x1000);
    assert_eq!(a.frame_count(), 1);
    b.dealloc(&mut pool);
    let again = Frame::new(&mut pool).unwrap();
    assert_eq!(again.start_paddr(), POOL_BASE + 0x1000);
}

#[test]
fn live_frames_share_no_page() {
    let mut pool = pool();
    let single = Frame::new(&mut pool).unwrap();
    let run = Frame::new_contiguous(&mut pool, 8, 3).unwrap();
    let other = Frame::new(&mut pool).unwrap();
    let ranges = [
        (single.start_paddr(), single.start_paddr() + single.size()),
        (run.start_paddr(), run.start_paddr() + run.size()),
        (other.start_paddr(), other.start_paddr() + other.size()),
    ];
    for i in 0..ranges.len() {
        for j in 0..ranges.len() {
            if i != j {
                assert!(ranges[i].1 <= ranges[j].0 || ranges[j].1 <= ranges[i].0);
            }
        }
    }
}

#[test]
fn contiguous_alignment() {
    let mut pool = pool();
    let _hole = Frame::new(&mut pool).unwrap();
    let plain = Frame::new_contiguous(&mut pool, 4, 0).unwrap();
    assert_eq!(plain.start_paddr() % 0x1000, 0);
    assert_eq!(plain.start_paddr(), POOL_BASE + 0x1000);
    assert_eq!(plain.size(), 4 * 0x1000);
    let aligned = Frame::new_contiguous(&mut pool, 4, 4).unwrap();
    assert_eq!(aligned.start_paddr() & 0x3fff, 0);
    assert_eq!(aligned.start_paddr(), POOL_BASE + 0x10000);
    assert_eq!(aligned.frame_count(), 4);
}

#[test]
fn contiguous_run_goes_back_whole() {
    let mut pool = pool();
    let run = Frame::new_contiguous(&mut pool, 4, 0).unwrap();
    assert_eq!(run.start_paddr(), POOL_BASE);
    run.dealloc(&mut pool);
    let again = Frame::new_contiguous(&mut pool, 4, 0).unwrap();
    assert_eq!(again.start_paddr(), POOL_BASE);
}

#[test]
fn pool_runs_out() {
    let mut pool = init(POOL_BASE, 2 * 0x1000);
    let _a = Frame::new(&mut pool).unwrap();
    let _b = Frame::new(&mut pool).unwrap();
    assert_eq!(Frame::new(&mut pool).err(), Some(HvError::NoMem));
    assert_eq!(Frame::new_contiguous(&mut pool, 1, 0).err(), Some(HvError::NoMem));
}

#[test]
fn no_run_of_the_length_asked() {
    let mut pool = init(POOL_BASE, 4 * 0x1000);
    let _a = Frame::new(&mut pool).unwrap();
    assert_eq!(Frame::new_contiguous(&mut pool, 4, 0).err(), Some(HvError::NoMem));
    assert!(Frame::new_contiguous(&mut pool, 3, 0).is_ok());
}

#[test]
fn empty_allocator_gives_nothing() {
    let mut pool = FrameAllocator::empty();
    assert_eq!(pool.alloc_one(), None);
    assert_eq!(pool.alloc_contiguous(1, 0), None);
}

#[test]
fn root_of_four_pages_lies_on_boundary() {
    let mut pool = init(0x8000_1000, 64 * 0x1000);
    let root = Frame::new_16(&mut pool).unwrap();
    assert_eq!(root.frame_count(), 4);
    assert_eq!(root.start_paddr(), 0x8000_4000);
    assert_eq!(root.start_paddr() % 0x4000, 0);
    let next = Frame::new(&mut pool).unwrap();
    assert_eq!(next.start_paddr(), 0x8000_1000);
}

#[test]
fn root_of_four_pages_never_off_a_boundary() {
    let mut pool = init(POOL_BASE, 16 * 0x1000);
    let first = Frame::new(&mut pool).unwrap();
    let second = Frame::new(&mut pool).unwrap();
    first.dealloc(&mut pool);
    // pages 0 and 2 to 15 are free: four in a row from page 2 on, but the
    // first four from a boundary on start at page 4
    assert_eq!(second.start_paddr(), POOL_BASE + 0x1000);
    let root = Frame::new_16(&mut pool).unwrap();
    assert_eq!(root.start_paddr(), POOL_BASE + 0x4000);
    assert_eq!(root.start_paddr() & 0x3fff, 0);
    assert_eq!(root.size(), 0x4000);
    assert_eq!(Frame::new(&mut pool).unwrap().start_paddr(), POOL_BASE);
    assert_eq!(Frame::new(&mut pool).unwrap().start_paddr(), POOL_BASE + 0x2000);
}

#[test]
fn root_of_four_pages_wants_all_four_free() {
    let mut pool = init(POOL_BASE, 8 * 0x1000);
    let held: Vec<Frame> = (0..8).map(|_| Frame::new(&mut pool).unwrap()).collect();
    let mut keep = Vec::new();
    for (i, frame) in held.into_iter().enumerate() {
        if i == 3 || i == 6 {
            keep.push(frame);
        } else {
            frame.dealloc(&mut pool);
        }
    }
    // free: 0 1 2 4 5 7; neither boundary has four free pages behind it
    assert_eq!(Frame::new_16(&mut pool).err(), Some(HvError::NoMem));
    assert_eq!(Frame::new_contiguous(&mut pool, 3, 0).unwrap().start_paddr(), POOL_BASE);
}

#[test]
fn root_of_four_pages_needs_a_boundary() {
    let mut pool = init(0x8000_1000, 2 * 0x1000);
    assert_eq!(Frame::new_16(&mut pool).err(), Some(HvError::NoMem));
    let next = Frame::new(&mut pool).unwrap();
    assert_eq!(next.start_paddr(), 0x8000_1000);
}

#[test]
fn unmanaged_frame_owns_nothing() {
    let mut pool = pool();
    let view = Frame::from_paddr(0x9000_0000);
    assert_eq!(view.start_paddr(), 0x9000_0000);
    assert_eq!(view.size(), 0);
    view.dealloc(&mut pool);
    assert_eq!(Frame::new(&mut pool).unwrap().start_paddr(), POOL_BASE);
}

#[test]
fn pool_follows_the_per_cpu_array() {
    let core_end: u64 = 0x8040_0000;
    let mut pool = init_frame_allocator(core_end);
    let first = Frame::new(&mut pool).unwrap();
    assert_eq!(first.start_paddr(), core_end + 4 * 128 * 1024);
    assert_eq!(hvisor::consts::mem_pool_start(core_end), core_end + 4 * 128 * 1024);
    assert_eq!(hvisor::consts::hv_end(core_end), core_end + 4 * 128 * 1024 + 16 * 1024 * 1024);
}

#[test]
fn base_is_rounded_up() {
    let mut pool = init(0x8000_0001, 3 * 0x1000 + 1);
    let mut got = Vec::new();
    while let Ok(frame) = Frame::new(&mut pool) {
        got.push(frame.start_paddr());
    }
    assert_eq!(got, vec![0x8000_1000, 0x8000_2000, 0x8000_3000, 0x8000_4000]);
}

fn least_run(free: &[bool], count: usize, align_log2: usize) -> Option<usize> {
    let step = 1usize << align_log2;
    let mut start = 0;
    while start + count <= free.len() {
        if free[start..start + count].iter().all(|f| *f) {
            return Some(start);
        }
        start += step;
    }
    None
}

#[test]
fn allocator_agrees_with_a_plain_bitmap() {
    let pages = 300usize;
    let mut pool = init(POOL_BASE, pages as u64 * 0x1000);
    let mut free = vec![true; pages];
    let mut held: Vec<(usize, usize)> = Vec::new();
    let mut seed: u64 = 0x2545_f491_4f6c_dd1d;
    for _ in 0..4000 {
        seed ^= seed << 13;
        seed ^= seed >> 7;
        seed ^= seed << 17;
        let pick = (seed >> 33) % 4;
        let count = 1 + ((seed >> 20) % 9) as usize;
        let align = ((seed >> 40) % 5) as usize;
        if pick == 0 {
            let expected = free.iter().position(|f| *f);
            let got = pool.alloc_one();
            assert_eq!(got, expected.map(|i| POOL_BASE + i as u64 * 0x1000));
            if let Some(i) = expected {
                free[i] = false;
                held.push((i, 1));
            }
        } else if pick == 1 {
            let expected = least_run(&free, count, align);
            let got = pool.alloc_contiguous(count, align);
            assert_eq!(got, expected.map(|i| POOL_BASE + i as u64 * 0x1000));
            if let Some(i) = expected {
                assert_eq!(i % (1 << align), 0);
                for f in &mut free[i..i + count] {
                    *f = false;
                }
                held.push((i, count));
            }
        } else if !held.is_empty() {
            let (i, n) = held.swap_remove((seed >> 8) as usize % held.len());
            if n == 1 {
                pool.dealloc(POOL_BASE + i as u64 * 0x1000 + (seed % 0x1000));
            } else {
                pool.dealloc_contiguous(POOL_BASE + i as u64 * 0x1000, n);
            }
            for f in &mut free[i..i + n] {
                *f = true;
            }
        }
    }
}

#[test]
fn alignment_beyond_the_pool() {
    let mut pool = init(POOL_BASE, 64 * 0x1000);
    assert_eq!(pool.alloc_contiguous(4, 6), Some(POOL_BASE));
    assert_eq!(pool.alloc_contiguous(4, 6), None);
    assert_eq!(pool.alloc_contiguous(4, 5), Some(POOL_BASE + 32 * 0x1000));
    assert_eq!(pool.alloc_contiguous(0, 0), None);
    assert_eq!(pool.alloc_contiguous(1, 20), None);
    assert_eq!(pool.alloc_contiguous(1, 40), None);
}
