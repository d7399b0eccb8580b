//! Three-level page tables for the two translation stages.
//!
//! A table is a tree of nodes, each backed by a frame of its own. The root
//! indexes the address bits from 30 up: nine of them for the hypervisor's
//! own stage, eleven for a guest's, whose root takes four pages. The two
//! levels below index nine bits each. A leaf at the lowest level maps 4 KiB,
//! one level up 2 MiB, in the root 1 GiB.
use vstd::prelude::*;
use crate::error::{HvError, HvResult};
use crate::memory::frame::{release_all, Frame, FrameAllocator};
use crate::memory::{MemFlags, MEM_EXECUTE, MEM_NO_HUGEPAGES, MEM_READ, MEM_USER, MEM_WRITE};

verus! {

/// Number of entries in a node below the root.
pub const ENTRY_COUNT: usize = 512;

pub const SIZE_4K: u64 = 0x1000;

pub const SIZE_2M: u64 = 0x20_0000;

pub const SIZE_1G: u64 = 0x4000_0000;

/// Physical addresses have 56 bits.
pub const PADDR_LIMIT: u64 = 0x100_0000_0000_0000;

pub const PTE_V: u64 = 0x1;

pub const PTE_R: u64 = 0x2;

pub const PTE_W: u64 = 0x4;

pub const PTE_X: u64 = 0x8;

pub const PTE_U: u64 = 0x10;

pub const PTE_G: u64 = 0x20;

pub const PTE_A: u64 = 0x40;

pub const PTE_D: u64 = 0x80;

/// Which translation a table serves.
#[derive(Clone, Copy, Debug, PartialEq, Eq, Structural)]
pub enum Stage {
    /// The hypervisor's own: virtual to physical, 39 bits.
    Stage1,
    /// A guest's: guest physical to host physical, 41 bits.
    Stage2,
}

/// One entry of a node.
#[derive(Clone, Copy, Debug, PartialEq, Eq, Structural)]
pub enum Entry {
    /// Nothing is mapped here.
    Empty,
    /// The block that this entry stands for is mapped to the physical block
    /// at `paddr`.
    Leaf { paddr: u64, flags: MemFlags },
    /// The block is split up by the node with index `child`.
    Table { child: usize },
}

/// A node of the tree.
#[derive(Debug)]
pub struct Node {
    frame: Frame,
    level: usize,
    entries: Vec<Entry>,
}

/// Where an address goes, and with what rights.
#[derive(Clone, Copy, Debug, PartialEq, Eq, Structural)]
pub struct Translation {
    pub paddr: u64,
    pub flags: MemFlags,
}

/// A page table of one stage.
#[derive(Debug)]
pub struct PageTable {
    stage: Stage,
    nodes: Vec<Node>,
}

/// Size in bytes of the block that a leaf at `level` maps.
pub open spec fn level_size(level: int) -> int {
    if level == 0 {
        0x1000
    } else if level == 1 {
        0x20_0000
    } else {
        0x4000_0000
    }
}

/// Index into the root for address `va`.
pub open spec fn vpn2(va: int) -> int {
    va / 0x4000_0000
}

/// Index into a node of the middle level for address `va`.
pub open spec fn vpn1(va: int) -> int {
    (va / 0x20_0000) % 512
}

/// Index into a node of the lowest level for address `va`.
pub open spec fn vpn0(va: int) -> int {
    (va / 0x1000) % 512
}

/// The first address that a table of `stage` does not translate.
pub open spec fn stage_limit(stage: Stage) -> int {
    match stage {
        Stage::Stage1 => 0x80_0000_0000,
        Stage::Stage2 => 0x200_0000_0000,
    }
}

/// Number of entries in the root of a table of `stage`.
pub open spec fn root_len(stage: Stage) -> int {
    match stage {
        Stage::Stage1 => 512,
        Stage::Stage2 => 2048,
    }
}

/// The bits of a leaf's hardware entry for the rights `flags`: readable,
/// writable and executable as the flags say; accessible from user mode if
/// the flags say so, and always for a guest's table, whose accesses all
/// count as user accesses; valid, accessed and dirty.
pub open spec fn pte_flag_bits(guest: bool, flags: u64) -> u64 {
    PTE_V | PTE_A | PTE_D | (if flags & MEM_READ != 0 {
        PTE_R
    } else {
        0
    }) | (if flags & MEM_WRITE != 0 {
        PTE_W
    } else {
        0
    }) | (if flags & MEM_EXECUTE != 0 {
        PTE_X
    } else {
        0
    }) | (if flags & MEM_USER != 0 || guest {
        PTE_U
    } else {
        0
    })
}

/// The hardware entry that points at the physical page or node at `paddr`,
/// with the low bits `bits`.
pub open spec fn pte_value(paddr: u64, bits: u64) -> u64 {
    ((paddr >> 12) << 10) | bits
}

impl PageTable {
    /// The stage that the table serves.
    pub closed spec fn stage(&self) -> Stage {
        self.stage
    }

    /// Number of nodes in the tree.
    pub closed spec fn node_count(&self) -> int {
        self.nodes@.len() as int
    }

    /// Entry `i` of node `k`.
    pub closed spec fn entry(&self, k: int, i: int) -> Entry {
        self.nodes@[k].entries@[i]
    }

    /// Level of node `k`: 2 for the root, 0 for a node of leaves.
    pub closed spec fn level(&self, k: int) -> int {
        self.nodes@[k].level as int
    }

    /// Number of entries of node `k`.
    pub closed spec fn width(&self, k: int) -> int {
        self.nodes@[k].entries@.len() as int
    }

    /// The frames behind the nodes, in the order of the nodes.
    pub closed spec fn frames(&self) -> Seq<Frame> {
        Seq::new(self.nodes@.len(), |k: int| self.nodes@[k].frame)
    }

    /// Physical address of the frame behind node `k`.
    pub open spec fn node_paddr(&self, k: int) -> int {
        self.frames()[k].start()
    }

    /// Whether entry `i` of node `k` fits its place: a table entry names a
    /// node one level down, which is not the root; a leaf's block is aligned
    /// to its size and lies in physical memory.
    pub open spec fn entry_ok(&self, k: int, i: int) -> bool {
        match self.entry(k, i) {
            Entry::Empty => true,
            Entry::Leaf { paddr, flags } => paddr % (level_size(self.level(k)) as u64) == 0 && paddr
                + level_size(self.level(k)) <= PADDR_LIMIT,
            Entry::Table { child } => 1 <= child < self.node_count() && self.level(child as int) + 1
                == self.level(k),
        }
    }

    /// The tree is a tree: the root is at level 2 and as wide as the stage
    /// asks, every other node is below it and 512 entries wide, every entry
    /// fits its place, and no node is the child of two entries.
    pub open spec fn wf(&self) -> bool {
        &&& 1 <= self.node_count() <= usize::MAX
        &&& self.level(0) == 2
        &&& self.width(0) == root_len(self.stage())
        &&& forall|k: int|
            #![trigger self.level(k)]
            #![trigger self.width(k)]
            1 <= k < self.node_count() ==> self.level(k) < 2 && self.width(k) == 512
        &&& forall|k: int, i: int|
            0 <= k < self.node_count() && 0 <= i < self.width(k) ==> #[trigger] self.entry_ok(k, i)
        &&& forall|k: int, i: int, k2: int, i2: int|
            0 <= k < self.node_count() && 0 <= i < self.width(k) && 0 <= k2 < self.node_count() && 0
                <= i2 < self.width(k2) && (#[trigger] self.entry(k, i)) is Table && self.entry(k, i)
                == #[trigger] self.entry(k2, i2) ==> k == k2 && i == i2
    }

    /// Whether the frames behind the nodes are frames of `pool`.
    pub open spec fn backed_by(&self, pool: &FrameAllocator) -> bool {
        forall|k: int|
            0 <= k < self.frames().len() ==> (#[trigger] self.frames()[k]).count() >= 1
                && self.frames()[k].within(pool)
    }

    /// The leaf that the walk for address `va` ends in, with its level.
    pub open spec fn walk(&self, va: int) -> Option<(int, u64, MemFlags)> {
        match self.entry(0, vpn2(va)) {
            Entry::Empty => None,
            Entry::Leaf { paddr, flags } => Some((2, paddr, flags)),
            Entry::Table { child } => match self.entry(child as int, vpn1(va)) {
                Entry::Empty => None,
                Entry::Leaf { paddr, flags } => Some((1, paddr, flags)),
                Entry::Table { child } => match self.entry(child as int, vpn0(va)) {
                    Entry::Leaf { paddr, flags } => Some((0, paddr, flags)),
                    _ => None,
                },
            },
        }
    }

    /// The level of the leaf that the walk for `va` ends in.
    #[verifier::opaque]
    pub open spec fn leaf_level(&self, va: int) -> int {
        match self.walk(va) {
            Some((level, _, _)) => level,
            None => 0,
        }
    }

    /// Whether the root's entry for `va` is empty.
    pub open spec fn root_empty(&self, va: int) -> bool {
        self.entry(0, vpn2(va)) is Empty
    }

    /// Whether the entry for the 2 MiB block of `va` is empty, be it that
    /// the root's entry is empty or that the node it names has an empty
    /// entry there.
    pub open spec fn mid_empty(&self, va: int) -> bool {
        match self.entry(0, vpn2(va)) {
            Entry::Empty => true,
            Entry::Leaf { .. } => false,
            Entry::Table { child } => self.entry(child as int, vpn1(va)) is Empty,
        }
    }

    /// The level of the block that is mapped at `va` when `remaining` bytes
    /// from there are to go to the memory from `pa`: the largest block that
    /// the flags allow, that both addresses are aligned to, that fits into
    /// what remains, and whose entry is empty.
    pub open spec fn chosen_level(&self, va: int, pa: int, remaining: int, flags: MemFlags) -> int {
        if flags.bits & MEM_NO_HUGEPAGES == 0 && va % 0x4000_0000 == 0 && pa % 0x4000_0000 == 0
            && remaining >= 0x4000_0000 && self.root_empty(va) {
            2
        } else if flags.bits & MEM_NO_HUGEPAGES == 0 && va % 0x20_0000 == 0 && pa % 0x20_0000 == 0
            && remaining >= 0x20_0000 && self.mid_empty(va) {
            1
        } else {
            0
        }
    }

    /// Whether the table has the room for large blocks that `before` has,
    /// outside the block of `size` bytes at `vaddr` and the 2 MiB block
    /// around `vaddr`: the same entries of the root are empty, but for the
    /// one of `vaddr`, and the same entries for 2 MiB blocks.
    pub open spec fn keeps_room(&self, before: &PageTable, vaddr: int, size: int) -> bool {
        &&& forall|v: int|
            0 <= v < stage_limit(before.stage()) && vpn2(v) != vpn2(vaddr) ==> #[trigger] self.root_empty(
                v,
            ) == before.root_empty(v)
        &&& forall|v: int|
            0 <= v < stage_limit(before.stage()) && !(vpn2(v) == vpn2(vaddr) && vpn1(v) == vpn1(
                vaddr,
            )) && !(vaddr <= v < vaddr + size) ==> #[trigger] self.mid_empty(v) == before.mid_empty(v)
    }

    /// The first address of the block that maps `va`.
    pub open spec fn block_start(&self, va: int) -> int {
        va - va % level_size(self.leaf_level(va))
    }

    /// The first address behind the block that maps `va`.
    pub open spec fn block_end(&self, va: int) -> int {
        self.block_start(va) + level_size(self.leaf_level(va))
    }

    /// Whether the addresses from `lo` up to `hi` are all mapped, by blocks
    /// that lie within the range.
    pub open spec fn closed(&self, lo: int, hi: int) -> bool {
        forall|v: int|
            lo <= v < hi ==> (#[trigger] self.translate(v)) is Some && lo <= self.block_start(v)
                && self.block_end(v) <= hi
    }

    /// Whether the table maps every address outside the range from `lo` up
    /// to `hi` as `before` does, by a block of the same size.
    pub open spec fn same_outside(&self, before: &PageTable, lo: int, hi: int) -> bool {
        forall|v: int|
            !(lo <= v < hi) ==> #[trigger] self.translate(v) == before.translate(v) && (0 <= v
                < stage_limit(self.stage()) ==> self.leaf_level(v) == before.leaf_level(v))
    }

    /// Where the table sends address `va`: the leaf's block plus the offset
    /// of `va` in the block, with the leaf's rights; `None` where the walk
    /// ends in no leaf or the address is beyond the stage's reach.
    #[verifier::opaque]
    pub open spec fn translate(&self, va: int) -> Option<Translation> {
        if 0 <= va < stage_limit(self.stage()) {
            match self.walk(va) {
                Some((level, paddr, flags)) => Some(
                    Translation { paddr: (paddr + va % level_size(level)) as u64, flags },
                ),
                None => None,
            }
        } else {
            None
        }
    }
}

/// Addresses of one 1 GiB block share the root index, and no others do.
pub proof fn lemma_block_1g(va: int, v: int)
    requires
        0 <= va,
        0 <= v,
        va % 0x4000_0000 == 0,
    ensures
        (va <= v < va + 0x4000_0000) <==> vpn2(v) == vpn2(va),
        (va <= v < va + 0x4000_0000) ==> v % 0x4000_0000 == v - va,
{
}

/// Addresses of one 2 MiB block share the indices of the two upper levels,
/// and no others do.
pub proof fn lemma_block_2m(va: int, v: int)
    requires
        0 <= va,
        0 <= v,
        va % 0x20_0000 == 0,
    ensures
        (va <= v < va + 0x20_0000) <==> vpn2(v) == vpn2(va) && vpn1(v) == vpn1(va),
        (va <= v < va + 0x20_0000) ==> v % 0x20_0000 == v - va,
{
    assert(v / 0x20_0000 == (v / 0x4000_0000) * 512 + (v / 0x20_0000) % 512);
    assert(va / 0x20_0000 == (va / 0x4000_0000) * 512 + (va / 0x20_0000) % 512);
}

/// Addresses of one page share the indices of all three levels, and no
/// others do.
pub proof fn lemma_block_4k(va: int, v: int)
    requires
        0 <= va,
        0 <= v,
        va % 0x1000 == 0,
    ensures
        (va <= v < va + 0x1000) <==> vpn2(v) == vpn2(va) && vpn1(v) == vpn1(va) && vpn0(v) == vpn0(
            va,
        ),
        (va <= v < va + 0x1000) ==> v % 0x1000 == v - va,
{
    assert(v / 0x20_0000 == (v / 0x4000_0000) * 512 + (v / 0x20_0000) % 512);
    assert(va / 0x20_0000 == (va / 0x4000_0000) * 512 + (va / 0x20_0000) % 512);
    assert(v / 0x1000 == (v / 0x20_0000) * 512 + (v / 0x1000) % 512);
    assert(va / 0x1000 == (va / 0x20_0000) * 512 + (va / 0x1000) % 512);
}

/// Whether `after` has the nodes of `before`, of the same levels and
/// widths and on the same frames.
pub open spec fn same_shape(before: &PageTable, after: &PageTable) -> bool {
    &&& after.stage() == before.stage()
    &&& after.node_count() == before.node_count()
    &&& after.frames() == before.frames()
    &&& forall|k: int|
        #![trigger after.level(k)]
        #![trigger after.width(k)]
        0 <= k < before.node_count() ==> after.level(k) == before.level(k) && after.width(k)
            == before.width(k)
}

/// Whether `after` is `before` with entry `i` of node `n` replaced by `e`.
pub open spec fn replaced(before: &PageTable, after: &PageTable, n: int, i: int, e: Entry) -> bool {
    &&& same_shape(before, after)
    &&& forall|k: int, j: int|
        0 <= k < before.node_count() && 0 <= j < before.width(k) ==> #[trigger] after.entry(k, j)
            == if k == n && j == i {
            e
        } else {
            before.entry(k, j)
        }
}

/// Whether `after` is `before` with one more node, empty and one level
/// below node `n`, that entry `i` of node `n` now names.
pub open spec fn grown(before: &PageTable, after: &PageTable, n: int, i: int) -> bool {
    let c = before.node_count();
    &&& after.stage() == before.stage()
    &&& after.node_count() == c + 1
    &&& after.frames().len() == c + 1
    &&& after.frames().drop_last() == before.frames()
    &&& forall|k: int|
        #![trigger after.level(k)]
        #![trigger after.width(k)]
        0 <= k < c ==> after.level(k) == before.level(k) && after.width(k) == before.width(k)
    &&& after.level(c) + 1 == before.level(n)
    &&& after.width(c) == 512
    &&& forall|j: int| 0 <= j < 512 ==> #[trigger] after.entry(c, j) == Entry::Empty
    &&& forall|k: int, j: int|
        0 <= k < c && 0 <= j < before.width(k) ==> #[trigger] after.entry(k, j) == if k == n && j
            == i {
            Entry::Table { child: c as usize }
        } else {
            before.entry(k, j)
        }
}

/// Where a leaf or an empty entry `e` sends address `v` of the block that
/// starts at `va`.
pub open spec fn entry_translation(e: Entry, va: int, v: int) -> Option<Translation> {
    match e {
        Entry::Leaf { paddr, flags } => Some(Translation { paddr: (paddr + (v - va)) as u64, flags }),
        _ => None,
    }
}

/// Whether the walk for `va` in `table` comes to node `n` and reads its
/// entry `i` there; `c1` is the node of the middle level on the way to a
/// node of the lowest.
pub open spec fn reaches(table: &PageTable, va: int, n: int, i: int, c1: int) -> bool {
    if table.level(n) == 2 {
        n == 0 && i == vpn2(va)
    } else if table.level(n) == 1 {
        table.entry(0, vpn2(va)) == (Entry::Table { child: n as usize }) && i == vpn1(va)
    } else {
        &&& 1 <= c1 < table.node_count()
        &&& table.entry(0, vpn2(va)) == (Entry::Table { child: c1 as usize })
        &&& table.entry(c1, vpn1(va)) == (Entry::Table { child: n as usize })
        &&& i == vpn0(va)
    }
}

/// The leaf that a walk ends in when it reads the leaf or the nothing `e`
/// at `level`.
pub open spec fn entry_walk(e: Entry, level: int) -> Option<(int, u64, MemFlags)> {
    match e {
        Entry::Leaf { paddr, flags } => Some((level, paddr, flags)),
        _ => None,
    }
}

/// Replacing an entry that is no table by a leaf or by nothing keeps the
/// tree a tree.
pub proof fn lemma_replace_wf(before: &PageTable, after: &PageTable, n: int, i: int, e: Entry)
    requires
        before.wf(),
        replaced(before, after, n, i, e),
        0 <= n < before.node_count(),
        0 <= i < before.width(n),
        !(before.entry(n, i) is Table),
        !(e is Table),
        e matches Entry::Leaf { paddr, flags } ==> paddr % (level_size(before.level(n)) as u64) == 0
            && paddr + level_size(before.level(n)) <= PADDR_LIMIT,
    ensures
        after.wf(),
{
    assert forall|k: int, j: int|
        0 <= k < after.node_count() && 0 <= j < after.width(k) implies #[trigger] after.entry_ok(
        k,
        j,
    ) by {
        assert(before.entry_ok(k, j));
        assert(after.level(k) == before.level(k));
        if after.entry(k, j) is Table {
            let child = after.entry(k, j)->child as int;
            assert(after.level(child) == before.level(child));
        }
    }
    assert forall|k: int, j: int, k2: int, j2: int|
        0 <= k < after.node_count() && 0 <= j < after.width(k) && 0 <= k2 < after.node_count() && 0
            <= j2 < after.width(k2) && (#[trigger] after.entry(k, j)) is Table && after.entry(k, j)
            == #[trigger] after.entry(k2, j2) implies k == k2 && j == j2 by {
        assert(after.level(k) == before.level(k));
        assert(after.level(k2) == before.level(k2));
        assert(before.entry(k, j) == before.entry(k2, j2));
    }
    assert forall|k: int|
        #![trigger after.level(k)]
        #![trigger after.width(k)]
        1 <= k < after.node_count() implies after.level(k) < 2 && after.width(k) == 512 by {
        assert(before.level(k) < 2);
    }
    assert(after.level(0) == before.level(0));
}

/// After an entry of the root was replaced, the walk for an address of the
/// entry's block ends in the new entry, and every other walk ends where it
/// did.
pub proof fn lemma_replace_walk_root(
    before: &PageTable,
    after: &PageTable,
    i: int,
    e: Entry,
    va: int,
    v: int,
)
    requires
        before.wf(),
        replaced(before, after, 0, i, e),
        0 <= i < before.width(0),
        !(before.entry(0, i) is Table),
        !(e is Table),
        0 <= va < stage_limit(before.stage()),
        va % 0x4000_0000 == 0,
        i == vpn2(va),
        0 <= v < stage_limit(before.stage()),
    ensures
        after.walk(v) == if va <= v < va + 0x4000_0000 {
            entry_walk(e, 2)
        } else {
            before.walk(v)
        },
{
    lemma_block_1g(va, v);
    lemma_walk_entries(before, v);
    let e2 = before.entry(0, vpn2(v));
    assert(after.entry(0, vpn2(v)) == if vpn2(v) == i {
        e
    } else {
        e2
    });
    if vpn2(v) != i && e2 is Table {
        let d1 = e2->child as int;
        let e1 = before.entry(d1, vpn1(v));
        assert(after.entry(d1, vpn1(v)) == e1);
        if e1 is Table {
            let d0 = e1->child as int;
            assert(after.entry(d0, vpn0(v)) == before.entry(d0, vpn0(v)));
        }
    }
}

/// After an entry of a node of the middle level was replaced, the walk for
/// an address of the entry's block ends in the new entry, and every other
/// walk ends where it did.
pub proof fn lemma_replace_walk_mid(
    before: &PageTable,
    after: &PageTable,
    n: int,
    i: int,
    e: Entry,
    va: int,
    v: int,
)
    requires
        before.wf(),
        replaced(before, after, n, i, e),
        0 <= n < before.node_count(),
        before.level(n) == 1,
        0 <= i < before.width(n),
        !(before.entry(n, i) is Table),
        !(e is Table),
        0 <= va < stage_limit(before.stage()),
        va % 0x20_0000 == 0,
        before.entry(0, vpn2(va)) == (Entry::Table { child: n as usize }),
        i == vpn1(va),
        0 <= v < stage_limit(before.stage()),
    ensures
        after.walk(v) == if va <= v < va + 0x20_0000 {
            entry_walk(e, 1)
        } else {
            before.walk(v)
        },
{
    lemma_block_2m(va, v);
    lemma_walk_entries(before, v);
    lemma_walk_entries(before, va);
    let e2 = before.entry(0, vpn2(v));
    assert(after.entry(0, vpn2(v)) == e2);
    if e2 is Table {
        let d1 = e2->child as int;
        let e1 = before.entry(d1, vpn1(v));
        assert(after.entry(d1, vpn1(v)) == if n == d1 && vpn1(v) == i {
            e
        } else {
            e1
        });
        if d1 == n {
            assert(before.entry(0, vpn2(v)) == before.entry(0, vpn2(va)));
            assert(vpn2(v) == vpn2(va));
        }
        if !(d1 == n && vpn1(v) == i) && e1 is Table {
            let d0 = e1->child as int;
            assert(after.entry(d0, vpn0(v)) == before.entry(d0, vpn0(v)));
        }
    }
}

/// After an entry of a node of the lowest level was replaced, the walk for
/// an address of the entry's page ends in the new entry, and every other
/// walk ends where it did.
pub proof fn lemma_replace_walk_low(
    before: &PageTable,
    after: &PageTable,
    n: int,
    i: int,
    e: Entry,
    va: int,
    c1: int,
    v: int,
)
    requires
        before.wf(),
        replaced(before, after, n, i, e),
        0 <= n < before.node_count(),
        before.level(n) == 0,
        0 <= i < before.width(n),
        !(before.entry(n, i) is Table),
        !(e is Table),
        0 <= va < stage_limit(before.stage()),
        va % 0x1000 == 0,
        1 <= c1 < before.node_count(),
        before.entry(0, vpn2(va)) == (Entry::Table { child: c1 as usize }),
        before.entry(c1, vpn1(va)) == (Entry::Table { child: n as usize }),
        i == vpn0(va),
        0 <= v < stage_limit(before.stage()),
    ensures
        after.walk(v) == if va <= v < va + 0x1000 {
            entry_walk(e, 0)
        } else {
            before.walk(v)
        },
{
    lemma_block_4k(va, v);
    lemma_walk_entries(before, v);
    lemma_walk_entries(before, va);
    let e2 = before.entry(0, vpn2(v));
    assert(after.entry(0, vpn2(v)) == e2);
    if e2 is Table {
        let d1 = e2->child as int;
        let e1 = before.entry(d1, vpn1(v));
        assert(after.entry(d1, vpn1(v)) == e1);
        if e1 is Table {
            let d0 = e1->child as int;
            let e0 = before.entry(d0, vpn0(v));
            assert(after.entry(d0, vpn0(v)) == if n == d0 && vpn0(v) == i {
                e
            } else {
                e0
            });
            if d0 == n {
                assert(before.entry(d1, vpn1(v)) == before.entry(c1, vpn1(va)));
                assert(d1 == c1 && vpn1(v) == vpn1(va));
                assert(before.entry(0, vpn2(v)) == before.entry(0, vpn2(va)));
                assert(vpn2(v) == vpn2(va));
            }
        }
    }
}

/// A block that starts below the stage's reach ends within it.
pub proof fn lemma_block_in_reach(stage: Stage, va: int, level: int)
    requires
        0 <= va < stage_limit(stage),
        0 <= level <= 2,
        va % level_size(level) == 0,
    ensures
        va + level_size(level) <= stage_limit(stage),
{
    if level == 0 {
        assert(va == 0x1000 * (va / 0x1000));
    } else if level == 1 {
        assert(va == 0x20_0000 * (va / 0x20_0000));
    } else {
        assert(va == 0x4000_0000 * (va / 0x4000_0000));
    }
}

/// Replacing an entry that is no table by a leaf or by nothing changes the
/// translation of the entry's block, and of no other address.
pub proof fn lemma_replace(
    before: &PageTable,
    after: &PageTable,
    n: int,
    i: int,
    e: Entry,
    va: int,
    c1: int,
)
    requires
        before.wf(),
        replaced(before, after, n, i, e),
        0 <= n < before.node_count(),
        0 <= i < before.width(n),
        !(before.entry(n, i) is Table),
        !(e is Table),
        e matches Entry::Leaf { paddr, flags } ==> paddr % (level_size(before.level(n)) as u64) == 0
            && paddr + level_size(before.level(n)) <= PADDR_LIMIT,
        0 <= va < stage_limit(before.stage()),
        va % level_size(before.level(n)) == 0,
        reaches(before, va, n, i, c1),
    ensures
        after.wf(),
        forall|v: int| #[trigger]
            after.translate(v) == if va <= v < va + level_size(before.level(n)) {
                entry_translation(e, va, v)
            } else {
                before.translate(v)
            },
        forall|v: int|
            0 <= v < stage_limit(before.stage()) ==> #[trigger] after.leaf_level(v) == if va <= v
                < va + level_size(before.level(n)) {
                if e is Leaf {
                    before.level(n)
                } else {
                    0
                }
            } else {
                before.leaf_level(v)
            },
{
    lemma_replace_wf(before, after, n, i, e);
    let level = before.level(n);
    let size = level_size(level);
    assert(0 <= level <= 2) by {
        if n != 0 {
            assert(before.level(n) < 2);
        }
    }
    lemma_block_in_reach(before.stage(), va, level);
    assert forall|v: int| #[trigger]
        after.translate(v) == if va <= v < va + size {
            entry_translation(e, va, v)
        } else {
            before.translate(v)
        } by {
        reveal(PageTable::translate);
        if 0 <= v < stage_limit(before.stage()) {
            if level == 2 {
                lemma_replace_walk_root(before, after, i, e, va, v);
                lemma_block_1g(va, v);
            } else if level == 1 {
                lemma_replace_walk_mid(before, after, n, i, e, va, v);
                lemma_block_2m(va, v);
            } else {
                lemma_replace_walk_low(before, after, n, i, e, va, c1, v);
                lemma_block_4k(va, v);
            }
        }
    }
    assert forall|v: int| 0 <= v < stage_limit(before.stage()) implies #[trigger] after.leaf_level(v)
        == if va <= v < va + size {
        if e is Leaf {
            level
        } else {
            0
        }
    } else {
        before.leaf_level(v)
    } by {
        reveal(PageTable::leaf_level);
        if level == 2 {
            lemma_replace_walk_root(before, after, i, e, va, v);
        } else if level == 1 {
            lemma_replace_walk_mid(before, after, n, i, e, va, v);
        } else {
            lemma_replace_walk_low(before, after, n, i, e, va, c1, v);
        }
    }
}

/// The indices that a walk uses are indices of the nodes it comes to.
pub proof fn lemma_walk_entries(table: &PageTable, v: int)
    requires
        table.wf(),
        0 <= v < stage_limit(table.stage()),
    ensures
        0 <= vpn2(v) < table.width(0),
        0 <= vpn1(v) < 512,
        0 <= vpn0(v) < 512,
        table.entry_ok(0, vpn2(v)),
        table.entry(0, vpn2(v)) matches Entry::Table { child } ==> table.width(child as int) == 512
            && table.level(child as int) == 1 && table.entry_ok(child as int, vpn1(v)) && (
        table.entry(child as int, vpn1(v)) matches Entry::Table { child: low } ==> table.width(
            low as int,
        ) == 512 && table.level(low as int) == 0 && table.entry_ok(low as int, vpn0(v))),
{
    assert(table.entry_ok(0, vpn2(v)));
    if table.entry(0, vpn2(v)) is Table {
        let c = table.entry(0, vpn2(v))->child as int;
        assert(table.level(c) < 2 && table.width(c) == 512);
        assert(table.entry_ok(c, vpn1(v)));
        if table.entry(c, vpn1(v)) is Table {
            let low = table.entry(c, vpn1(v))->child as int;
            assert(table.level(low) < 2 && table.width(low) == 512);
            assert(table.entry_ok(low, vpn0(v)));
        }
    }
}

/// Hanging an empty node into an empty entry changes no translation.
pub proof fn lemma_grown(before: &PageTable, after: &PageTable, n: int, i: int)
    requires
        before.wf(),
        grown(before, after, n, i),
        0 <= n < before.node_count(),
        0 <= i < before.width(n),
        before.entry(n, i) is Empty,
        before.level(n) >= 1,
        before.node_count() < usize::MAX,
    ensures
        after.wf(),
        forall|v: int| #[trigger] after.translate(v) == before.translate(v),
        forall|v: int|
            0 <= v < stage_limit(before.stage()) ==> #[trigger] after.leaf_level(v)
                == before.leaf_level(v),
{
    reveal(PageTable::translate);
    reveal(PageTable::leaf_level);
    let c = before.node_count();
    assert forall|k: int|
        #![trigger after.level(k)]
        #![trigger after.width(k)]
        1 <= k < after.node_count() implies after.level(k) < 2 && after.width(k) == 512 by {
        if k < c {
            assert(before.level(k) < 2);
        } else {
            if n != 0 {
                assert(before.level(n) < 2);
            }
        }
    }
    assert forall|k: int, j: int|
        0 <= k < after.node_count() && 0 <= j < after.width(k) implies #[trigger] after.entry_ok(
        k,
        j,
    ) by {
        if k < c {
            assert(before.entry_ok(k, j));
            assert(after.level(k) == before.level(k));
            if after.entry(k, j) is Table {
                let child = after.entry(k, j)->child as int;
                if child < c {
                    assert(after.level(child) == before.level(child));
                }
            }
        }
    }
    assert forall|k: int, j: int, k2: int, j2: int|
        0 <= k < after.node_count() && 0 <= j < after.width(k) && 0 <= k2 < after.node_count() && 0
            <= j2 < after.width(k2) && (#[trigger] after.entry(k, j)) is Table && after.entry(k, j)
            == #[trigger] after.entry(k2, j2) implies k == k2 && j == j2 by {
        assert(k < c && k2 < c);
        assert(after.width(k) == before.width(k) && after.width(k2) == before.width(k2));
        if !(k == n && j == i) && !(k2 == n && j2 == i) {
            assert(before.entry(k, j) == before.entry(k2, j2));
        } else if !(k == n && j == i) {
            assert(before.entry_ok(k, j));
        } else if !(k2 == n && j2 == i) {
            assert(before.entry_ok(k2, j2));
        }
    }
    assert(after.level(0) == before.level(0) && after.width(0) == before.width(0));
    assert forall|v: int|
        #![trigger after.translate(v)]
        #![trigger after.leaf_level(v)]
        after.translate(v) == before.translate(v) && (0 <= v < stage_limit(before.stage())
            ==> after.leaf_level(v) == before.leaf_level(v)) by {
        if 0 <= v < stage_limit(before.stage()) {
            lemma_walk_entries(before, v);
            let e2 = before.entry(0, vpn2(v));
            assert(after.entry(0, vpn2(v)) == if n == 0 && vpn2(v) == i {
                Entry::Table { child: c as usize }
            } else {
                e2
            });
            assert(after.entry(c, vpn1(v)) == Entry::Empty);
            assert(after.entry(c, vpn0(v)) == Entry::Empty);
            if e2 is Table {
                let d1 = e2->child as int;
                let e1 = before.entry(d1, vpn1(v));
                assert(after.entry(d1, vpn1(v)) == if n == d1 && vpn1(v) == i {
                    Entry::Table { child: c as usize }
                } else {
                    e1
                });
                if e1 is Table {
                    let d0 = e1->child as int;
                    assert(before.level(d0) == 0);
                    assert(after.entry(d0, vpn0(v)) == before.entry(d0, vpn0(v)));
                }
            }
        }
    }
}

/// A node's worth of empty entries.
fn empty_entries(n: usize) -> (r: Vec<Entry>)
    ensures
        r@.len() == n,
        forall|i: int| 0 <= i < n ==> r@[i] == Entry::Empty,
{
    let mut entries: Vec<Entry> = Vec::new();
    let mut i: usize = 0;
    while i < n
        invariant
            i <= n,
            entries@.len() == i,
            forall|j: int| 0 <= j < i ==> entries@[j] == Entry::Empty,
        decreases n - i,
    {
        entries.push(Entry::Empty);
        i = i + 1;
    }
    entries
}

impl PageTable {
    /// A table of `stage` that maps nothing: one node, the root, on a frame
    /// from `pool`; four pages of it for a guest's table.
    pub fn new(stage: Stage, pool: &mut FrameAllocator) -> (r: HvResult<Self>)
        requires
            old(pool).wf(),
        ensures
            final(pool).wf(),
            final(pool).base() == old(pool).base(),
            final(pool).page_count() == old(pool).page_count(),
            r is Ok <==> root_available(old(pool), stage),
            final(pool).free().subset_of(old(pool).free()),
            r matches Ok(table) ==> table.wf() && table.stage() == stage && table.backed_by(
                final(pool),
            ) && table.node_count() == 1 && (stage == Stage::Stage2 ==> table.node_paddr(0)
                % 0x4000 == 0) && forall|v: int| #[trigger] table.translate(v) is None,
            r matches Err(e) ==> e == HvError::NoMem && final(pool).free() == old(pool).free(),
    {
        proof {
            reveal(PageTable::translate);
            reveal(PageTable::leaf_level);
        }
        let got = match stage {
            Stage::Stage1 => Frame::new(pool),
            Stage::Stage2 => Frame::new_16(pool),
        };
        let frame = match got {
            Ok(frame) => frame,
            Err(_) => {
                return Err(HvError::NoMem);
            },
        };
        let width: usize = match stage {
            Stage::Stage1 => 512,
            Stage::Stage2 => 2048,
        };
        let mut nodes: Vec<Node> = Vec::new();
        nodes.push(Node { frame, level: 2, entries: empty_entries(width) });
        let table = PageTable { stage, nodes };
        proof {
            assert(table.frames()[0] == frame);
            assert forall|k: int, i: int|
                0 <= k < table.node_count() && 0 <= i < table.width(k) implies #[trigger] table.entry_ok(
                k,
                i,
            ) by {
                assert(table.entry(k, i) == Entry::Empty);
            }
            assert forall|v: int| #[trigger] table.translate(v) is None by {
                if 0 <= v < stage_limit(stage) {
                    assert(table.entry(0, vpn2(v)) == Entry::Empty);
                }
            }
        }
        Ok(table)
    }

    /// The stage that the table serves.
    pub fn stage_of(&self) -> (r: Stage)
        ensures
            r == self.stage(),
    {
        self.stage
    }

    /// Number of nodes in the tree.
    pub fn nodes_len(&self) -> (r: usize)
        ensures
            r == self.node_count(),
    {
        self.nodes.len()
    }

    /// Physical address of the root: what the address translation register
    /// of the stage is to point at.
    pub fn root_paddr(&self) -> (r: u64)
        requires
            self.wf(),
        ensures
            r == self.node_paddr(0),
    {
        self.nodes[0].frame.start_paddr()
    }

    /// Physical address of the frame behind node `k`.
    pub fn frame_paddr(&self, k: usize) -> (r: u64)
        requires
            k < self.node_count(),
        ensures
            r == self.node_paddr(k as int),
    {
        self.nodes[k].frame.start_paddr()
    }

    /// Number of entries of node `k`.
    pub fn node_width(&self, k: usize) -> (r: usize)
        requires
            k < self.node_count(),
        ensures
            r == self.width(k as int),
    {
        self.nodes[k].entries.len()
    }

    /// Entry `i` of node `k`.
    pub fn read_entry(&self, k: usize, i: usize) -> (r: Entry)
        requires
            k < self.node_count(),
            i < self.width(k as int),
        ensures
            r == self.entry(k as int, i as int),
    {
        self.nodes[k].entries[i]
    }

    fn write_entry(&mut self, k: usize, i: usize, e: Entry)
        requires
            k < old(self).node_count(),
            i < old(self).width(k as int),
        ensures
            replaced(old(self), final(self), k as int, i as int, e),
    {
        self.nodes[k].entries[i] = e;
        proof {
            assert(self.frames() =~= old(self).frames());
        }
    }

    /// Hangs a new, empty node into the empty entry `i` of node `n`.
    fn grow(&mut self, pool: &mut FrameAllocator, n: usize, i: usize) -> (r: HvResult<usize>)
        requires
            old(self).wf(),
            old(self).backed_by(old(pool)),
            old(pool).wf(),
            n < old(self).node_count(),
            i < old(self).width(n as int),
            old(self).entry(n as int, i as int) is Empty,
            old(self).level(n as int) >= 1,
        ensures
            final(pool).wf(),
            final(pool).base() == old(pool).base(),
            final(pool).page_count() == old(pool).page_count(),
            final(pool).free().subset_of(old(pool).free()),
            r matches Err(e) ==> (e == HvError::NoMem ==> exhausted(final(pool))),
            final(self).wf(),
            final(self).backed_by(final(pool)),
            final(self).stage() == old(self).stage(),
            forall|v: int| #[trigger] final(self).translate(v) == old(self).translate(v),
            forall|v: int|
                0 <= v < stage_limit(old(self).stage()) ==> #[trigger] final(self).leaf_level(v)
                    == old(self).leaf_level(v),
            r matches Ok(c) ==> c == old(self).node_count() && grown(
                old(self),
                final(self),
                n as int,
                i as int,
            ),
            r matches Err(e) ==> e == HvError::NoMem && *final(self) == *old(self),
    {
        let frame = match Frame::new(pool) {
            Ok(frame) => frame,
            Err(_) => {
                return Err(HvError::NoMem);
            },
        };
        let c: usize = self.nodes.len();
        let level: usize = self.nodes[n].level - 1;
        self.nodes.push(Node { frame, level, entries: empty_entries(512) });
        let total: usize = self.nodes.len();
        self.nodes[n].entries[i] = Entry::Table { child: c };
        proof {
            assert(self.frames().drop_last() =~= old(self).frames());
            assert(self.frames()[c as int] == frame);
            assert(grown(old(self), self, n as int, i as int));
            lemma_grown(old(self), self, n as int, i as int);
            assert forall|k: int| 0 <= k < self.frames().len() implies (#[trigger] self.frames()[k]).count()
                >= 1 && self.frames()[k].within(pool) by {
                if k < c {
                    assert(self.frames()[k] == old(self).frames()[k]);
                }
            }
        }
        Ok(c)
    }

    /// The node that entry `i` of node `n` names, made where the entry is
    /// empty.
    fn descend(&mut self, pool: &mut FrameAllocator, n: usize, i: usize) -> (r: HvResult<usize>)
        requires
            old(self).wf(),
            old(self).backed_by(old(pool)),
            old(pool).wf(),
            n < old(self).node_count(),
            i < old(self).width(n as int),
            old(self).level(n as int) >= 1,
        ensures
            final(pool).wf(),
            final(pool).base() == old(pool).base(),
            final(pool).page_count() == old(pool).page_count(),
            final(pool).free().subset_of(old(pool).free()),
            r matches Err(e) ==> (e == HvError::NoMem ==> exhausted(final(pool))),
            final(self).wf(),
            final(self).backed_by(final(pool)),
            final(self).stage() == old(self).stage(),
            forall|v: int| #[trigger] final(self).translate(v) == old(self).translate(v),
            forall|v: int|
                0 <= v < stage_limit(old(self).stage()) ==> #[trigger] final(self).leaf_level(v)
                    == old(self).leaf_level(v),
            final(self).node_count() >= old(self).node_count(),
            r is Ok ==> !(old(self).entry(n as int, i as int) is Leaf),
            r matches Ok(c) ==> forall|j: int|
                0 <= j < 512 && old(self).entry(n as int, i as int) is Empty ==> (
                #[trigger] final(self).entry(c as int, j)) is Empty,
            r matches Ok(c) ==> (old(self).entry(n as int, i as int) is Table ==> final(self).entry(
                n as int,
                i as int,
            ) == old(self).entry(n as int, i as int)),
            r matches Ok(c) ==> final(self).entry(n as int, i as int) == (Entry::Table { child: c })
                && c < final(self).node_count() && final(self).level(c as int) + 1 == old(
                self,
            ).level(n as int) && final(self).width(c as int) == 512 && (forall|k: int, j: int|
                0 <= k < old(self).node_count() && 0 <= j < old(self).width(k) && !(k == n && j == i)
                    ==> #[trigger] final(self).entry(k, j) == old(self).entry(k, j)) && (forall|
                k: int,
            |
                #![trigger final(self).level(k)]
                #![trigger final(self).width(k)]
                0 <= k < old(self).node_count() ==> final(self).level(k) == old(self).level(k)
                    && final(self).width(k) == old(self).width(k)),
            r matches Err(e) ==> *final(self) == *old(self) && (e == HvError::Overlap || e
                == HvError::NoMem) && (e == HvError::Overlap <==> old(self).entry(
                n as int,
                i as int,
            ) is Leaf) && (e == HvError::NoMem <==> old(self).entry(
                n as int,
                i as int,
            ) is Empty),
    {
        match self.read_entry(n, i) {
            Entry::Table { child } => {
                proof {
                    assert(self.entry_ok(n as int, i as int));
                }
                Ok(child)
            },
            Entry::Leaf { .. } => Err(HvError::Overlap),
            Entry::Empty => self.grow(pool, n, i),
        }
    }
}

/// Every address of the block that maps `v` is mapped by the same leaf.
pub proof fn lemma_same_block(table: &PageTable, v: int, u: int)
    requires
        table.wf(),
        0 <= v < stage_limit(table.stage()),
        0 <= u < stage_limit(table.stage()),
        table.walk(v) is Some,
        table.block_start(v) <= u < table.block_end(v),
    ensures
        table.walk(u) == table.walk(v),
{
    reveal(PageTable::leaf_level);
    lemma_walk_entries(table, v);
    lemma_walk_entries(table, u);
    let level = table.leaf_level(v);
    let start = table.block_start(v);
    if level == 2 {
        lemma_block_1g(start, v);
        lemma_block_1g(start, u);
    } else if level == 1 {
        lemma_block_2m(start, v);
        lemma_block_2m(start, u);
    } else {
        lemma_block_4k(start, v);
        lemma_block_4k(start, u);
    }
}

/// Only the lowest level has blocks of one page.
pub proof fn lemma_level_of_size(level: int)
    ensures
        level_size(level) == 0x1000 ==> level == 0,
{
}

/// A mapped address lies within the stage's reach, and its walk ends in a
/// leaf at one of the three levels.
pub proof fn lemma_mapped_level(table: &PageTable, v: int)
    requires
        table.wf(),
        table.translate(v) is Some,
    ensures
        0 <= v < stage_limit(table.stage()),
        table.walk(v) is Some,
        0 <= table.leaf_level(v) <= 2,
{
    reveal(PageTable::translate);
    reveal(PageTable::leaf_level);
}

/// A multiple of a block size is a multiple of every smaller block size.
pub proof fn lemma_multiples(x: int)
    requires
        0 <= x,
    ensures
        x % 0x20_0000 == 0 ==> x % 0x1000 == 0,
        x % 0x4000_0000 == 0 ==> x % 0x20_0000 == 0 && x % 0x1000 == 0,
{
    if x % 0x20_0000 == 0 {
        let q = x / 0x20_0000;
        assert(x == (512 * q) * 0x1000);
        vstd::arithmetic::div_mod::lemma_mod_multiples_basic(512 * q, 0x1000);
    }
    if x % 0x4000_0000 == 0 {
        let q = x / 0x4000_0000;
        assert(x == (512 * q) * 0x20_0000);
        vstd::arithmetic::div_mod::lemma_mod_multiples_basic(512 * q, 0x20_0000);
        assert(x == (262144 * q) * 0x1000);
        vstd::arithmetic::div_mod::lemma_mod_multiples_basic(262144 * q, 0x1000);
    }
}

/// Rounding down to a block boundary does not go below a boundary that is
/// not above the address.
pub proof fn lemma_floor(end: int, v: int)
    requires
        0 <= end <= v,
    ensures
        end % 0x1000 == 0 ==> end <= v - v % 0x1000,
        end % 0x20_0000 == 0 ==> end <= v - v % 0x20_0000,
        end % 0x4000_0000 == 0 ==> end <= v - v % 0x4000_0000,
{
}

/// Of two boundaries of one block size, one that lies less than a block
/// above the other does not lie above it.
pub proof fn lemma_boundaries(a: int, b: int)
    requires
        0 <= a,
        0 <= b,
    ensures
        a % 0x1000 == 0 && b % 0x1000 == 0 && a < b + 0x1000 ==> a <= b,
        a % 0x20_0000 == 0 && b % 0x20_0000 == 0 && a < b + 0x20_0000 ==> a <= b,
{
}

/// A block that is no larger than a block before it starts behind that
/// block.
pub proof fn lemma_aligned_apart(va: int, la: int, v: int, lv: int)
    requires
        0 <= lv <= la <= 2,
        0 <= va,
        va % level_size(la) == 0,
        va + level_size(la) <= v,
    ensures
        va + level_size(la) <= v - v % level_size(lv),
{
    let end = va + level_size(la);
    lemma_multiples(va);
    lemma_floor(end, v);
    if la == 0 {
        assert(end % 0x1000 == 0);
    } else if la == 1 {
        assert(end % 0x20_0000 == 0);
        lemma_multiples(end);
    } else {
        assert(end % 0x4000_0000 == 0);
        lemma_multiples(end);
    }
}

/// A larger block that starts before the end of a smaller one holds the
/// smaller one's start.
pub proof fn lemma_larger_holds(va: int, la: int, v: int, lv: int)
    requires
        0 <= la < lv <= 2,
        0 <= va,
        va % level_size(la) == 0,
        va + level_size(la) <= v,
        v - v % level_size(lv) < va + level_size(la),
    ensures
        v - v % level_size(lv) <= va < v - v % level_size(lv) + level_size(lv),
{
    let start = v - v % level_size(lv);
    if lv == 1 {
        assert(start % 0x20_0000 == 0);
    } else {
        assert(start % 0x4000_0000 == 0);
    }
    lemma_multiples(start);
    lemma_boundaries(start, va);
}

/// A block that maps an address behind another block starts behind it.
pub proof fn lemma_blocks_apart(table: &PageTable, va: int, v: int)
    requires
        table.wf(),
        table.translate(va) is Some,
        table.translate(v) is Some,
        table.block_start(va) == va,
        table.block_end(va) <= v,
    ensures
        table.block_end(va) <= table.block_start(v),
{
    lemma_mapped_level(table, va);
    lemma_mapped_level(table, v);
    let la = table.leaf_level(va);
    let lv = table.leaf_level(v);
    assert(va % level_size(la) == 0);
    if lv <= la {
        lemma_aligned_apart(va, la, v, lv);
    } else if table.block_start(v) < table.block_end(va) {
        lemma_larger_holds(va, la, v, lv);
        lemma_same_block(table, v, va);
        assert(table.leaf_level(va) == table.leaf_level(v)) by {
            reveal(PageTable::leaf_level);
        }
    }
}

/// Whether `pool` has the frame for the root of a table of `stage`: any
/// free page for the hypervisor's own stage; for a guest's, four free pages
/// in a row from a 16 KiB boundary on.
pub open spec fn root_available(pool: &FrameAllocator, stage: Stage) -> bool {
    match stage {
        Stage::Stage1 => pool.free() != Set::<int>::empty(),
        Stage::Stage2 => exists|k: int| crate::memory::frame::is_root_run(pool, k),
    }
}

/// A pool without a free page has no frame for a root, and a pool without
/// a page for a root of one page has no run for a root of four.
pub proof fn lemma_root_needs_pages(pool: &FrameAllocator)
    ensures
        exhausted(pool) ==> !root_available(pool, Stage::Stage1),
        !root_available(pool, Stage::Stage1) ==> !root_available(pool, Stage::Stage2),
{
    if root_available(pool, Stage::Stage2) {
        let k = choose|k: int| crate::memory::frame::is_root_run(pool, k);
        assert(pool.free().contains(k));
    }
}

/// Pools with the same base and the same free pages have the same frames
/// for a root.
pub proof fn lemma_root_same(a: &FrameAllocator, b: &FrameAllocator, stage: Stage)
    requires
        a.base() == b.base(),
        a.free() == b.free(),
    ensures
        root_available(a, stage) == root_available(b, stage),
{
    if root_available(a, Stage::Stage2) {
        let k = choose|k: int| crate::memory::frame::is_root_run(a, k);
        assert(crate::memory::frame::is_root_run(b, k));
    }
    if root_available(b, Stage::Stage2) {
        let k = choose|k: int| crate::memory::frame::is_root_run(b, k);
        assert(crate::memory::frame::is_root_run(a, k));
    }
}

/// Whether the pool has no free page left.
pub open spec fn exhausted(pool: &FrameAllocator) -> bool {
    pool.free() =~= Set::<int>::empty()
}

/// Putting a leaf into an empty entry that the walk for `vaddr` reads
/// leaves the room for large blocks as it is, outside the leaf's block and
/// the 2 MiB block around `vaddr`.
pub proof fn lemma_room_after_leaf(
    before: &PageTable,
    after: &PageTable,
    n: int,
    i: int,
    e: Entry,
    vaddr: int,
    c1: int,
)
    requires
        before.wf(),
        replaced(before, after, n, i, e),
        0 <= n < before.node_count(),
        0 <= i < before.width(n),
        0 <= vaddr < stage_limit(before.stage()),
        vaddr % level_size(before.level(n)) == 0,
        reaches(before, vaddr, n, i, c1),
    ensures
        after.keeps_room(before, vaddr, level_size(before.level(n))),
{
    lemma_walk_entries(before, vaddr);
    assert(after.stage() == before.stage());
    assert forall|v: int|
        0 <= v < stage_limit(before.stage()) && vpn2(v) != vpn2(vaddr) implies #[trigger] after.root_empty(
        v,
    ) == before.root_empty(v) by {
        lemma_walk_entries(before, v);
        assert(after.entry(0, vpn2(v)) == before.entry(0, vpn2(v)));
    }
    assert forall|v: int|
        0 <= v < stage_limit(before.stage()) && !(vpn2(v) == vpn2(vaddr) && vpn1(v) == vpn1(vaddr))
            && !(vaddr <= v < vaddr + level_size(before.level(n))) implies #[trigger] after.mid_empty(
        v,
    ) == before.mid_empty(v) by {
        lemma_walk_entries(before, v);
        let e2 = before.entry(0, vpn2(v));
        if n == 0 {
            lemma_block_1g(vaddr, v);
        }
        assert(after.entry(0, vpn2(v)) == e2);
        if e2 is Table {
            let d = e2->child as int;
            if d == n {
                assert(before.entry(0, vpn2(v)) == before.entry(0, vpn2(vaddr)));
            }
            assert(after.entry(d, vpn1(v)) == before.entry(d, vpn1(v)));
        }
    }
}

/// Room that is kept in two steps is kept over both.
pub proof fn lemma_room_chain(
    before: &PageTable,
    mid: &PageTable,
    after: &PageTable,
    vaddr: int,
    first: int,
    second: int,
)
    requires
        mid.stage() == before.stage(),
        mid.keeps_room(before, vaddr, first),
        after.keeps_room(mid, vaddr, second),
        0 <= first <= second,
    ensures
        after.keeps_room(before, vaddr, second),
{
    assert forall|v: int|
        0 <= v < stage_limit(before.stage()) && vpn2(v) != vpn2(vaddr) implies #[trigger] after.root_empty(
        v,
    ) == before.root_empty(v) by {
        assert(mid.root_empty(v) == before.root_empty(v));
    }
    assert forall|v: int|
        0 <= v < stage_limit(before.stage()) && !(vpn2(v) == vpn2(vaddr) && vpn1(v) == vpn1(vaddr))
            && !(vaddr <= v < vaddr + second) implies #[trigger] after.mid_empty(v) == before.mid_empty(
        v,
    ) by {
        assert(mid.mid_empty(v) == before.mid_empty(v));
    }
}

/// Going down from an entry that the walk for `vaddr` reads, through a
/// node that is there or through a new, empty one, leaves the room for
/// large blocks as it is outside the 2 MiB block around `vaddr`.
pub proof fn lemma_room_after_descend(
    before: &PageTable,
    after: &PageTable,
    n: int,
    i: int,
    c: int,
    vaddr: int,
)
    requires
        before.wf(),
        after.wf(),
        after.stage() == before.stage(),
        0 <= n < before.node_count(),
        0 <= i < before.width(n),
        before.level(n) >= 1,
        !(before.entry(n, i) is Leaf),
        0 <= vaddr < stage_limit(before.stage()),
        before.level(n) == 2 ==> n == 0 && i == vpn2(vaddr),
        before.level(n) == 1 ==> before.entry(0, vpn2(vaddr)) == (Entry::Table { child: n as usize })
            && i == vpn1(vaddr),
        after.node_count() >= before.node_count(),
        0 <= c < after.node_count(),
        after.entry(n, i) == (Entry::Table { child: c as usize }),
        before.entry(n, i) is Table ==> after.entry(n, i) == before.entry(n, i),
        forall|j: int|
            0 <= j < 512 && before.entry(n, i) is Empty ==> (#[trigger] after.entry(c, j)) is Empty,
        forall|k: int, j: int|
            0 <= k < before.node_count() && 0 <= j < before.width(k) && !(k == n && j == i)
                ==> #[trigger] after.entry(k, j) == before.entry(k, j),
    ensures
        after.keeps_room(before, vaddr, 0),
{
    lemma_walk_entries(before, vaddr);
    assert forall|v: int|
        0 <= v < stage_limit(before.stage()) && vpn2(v) != vpn2(vaddr) implies #[trigger] after.root_empty(
        v,
    ) == before.root_empty(v) by {
        lemma_walk_entries(before, v);
        assert(after.entry(0, vpn2(v)) == before.entry(0, vpn2(v)));
    }
    assert forall|v: int|
        0 <= v < stage_limit(before.stage()) && !(vpn2(v) == vpn2(vaddr) && vpn1(v) == vpn1(vaddr))
            && !(vaddr <= v < vaddr + 0) implies #[trigger] after.mid_empty(v) == before.mid_empty(
        v,
    ) by {
        lemma_walk_entries(before, v);
        let e2 = before.entry(0, vpn2(v));
        if n == 0 && vpn2(v) == i {
            assert(after.entry(0, vpn2(v)) == (Entry::Table { child: c as usize }));
            if e2 is Empty {
                assert(after.entry(c, vpn1(v)) is Empty);
            } else {
                assert(before.entry_ok(0, i));
                let d = e2->child as int;
                assert(after.entry(d, vpn1(v)) == before.entry(d, vpn1(v)));
                assert(after.entry(0, i) == before.entry(0, i));
            }
        } else {
            assert(after.entry(0, vpn2(v)) == e2);
            if e2 is Table {
                let d = e2->child as int;
                if d == n {
                    assert(before.entry(0, vpn2(v)) == before.entry(0, vpn2(vaddr)));
                }
                assert(after.entry(d, vpn1(v)) == before.entry(d, vpn1(v)));
            }
        }
    }
}

/// Whether the blocks that map the first `done` bytes of the range from
/// `vaddr` in `cur` are those that the policy chooses on `start`, block by
/// block, and the room for large blocks behind them is as it is in `start`.
pub open spec fn follows_policy(
    start: &PageTable,
    cur: &PageTable,
    vaddr: u64,
    paddr: u64,
    size: u64,
    flags: MemFlags,
    done: int,
) -> bool {
    &&& forall|v: int|
        vaddr <= v < vaddr + done ==> #[trigger] cur.leaf_level(v) == start.chosen_level(
            cur.block_start(v),
            paddr + (cur.block_start(v) - vaddr),
            vaddr + size - cur.block_start(v),
            flags,
        )
    &&& forall|v: int|
        0 <= v < stage_limit(start.stage()) && v >= vaddr + done && v % 0x4000_0000 == 0
            ==> #[trigger] cur.root_empty(v) == start.root_empty(v)
    &&& forall|v: int|
        0 <= v < stage_limit(start.stage()) && v >= vaddr + done && v % 0x20_0000 == 0
            ==> #[trigger] cur.mid_empty(v) == start.mid_empty(v)
}

/// A block behind the frontier lies in another 1 GiB region, if it starts
/// on a 1 GiB boundary, and in another 2 MiB block, if it starts on a 2 MiB
/// boundary.
pub proof fn lemma_behind_frontier(va: int, v: int)
    requires
        0 <= va < v,
    ensures
        v % 0x4000_0000 == 0 ==> vpn2(v) != vpn2(va),
        v % 0x20_0000 == 0 ==> !(vpn2(v) == vpn2(va) && vpn1(v) == vpn1(va)),
{
    if v % 0x20_0000 == 0 && vpn2(v) == vpn2(va) && vpn1(v) == vpn1(va) {
        let a = va - va % 0x20_0000;
        lemma_block_2m(a, va);
        lemma_block_2m(a, v);
        lemma_boundaries(v, a);
    }
}

/// Mapping the block that the policy chooses at the frontier keeps the
/// table following the policy.
pub proof fn lemma_policy_step(
    start: &PageTable,
    before: &PageTable,
    after: &PageTable,
    vaddr: u64,
    paddr: u64,
    size: u64,
    flags: MemFlags,
    done: int,
    step: int,
)
    requires
        before.wf(),
        after.wf(),
        before.stage() == start.stage(),
        after.stage() == start.stage(),
        map_args_ok(start.stage(), vaddr, paddr, size),
        0 <= done,
        done + step <= size,
        done % 0x1000 == 0,
        step == 0x1000 || step == 0x20_0000 || step == 0x4000_0000,
        follows_policy(start, before, vaddr, paddr, size, flags, done),
        block_mapped(before, after, (vaddr + done) as u64, (paddr + done) as u64, flags, step as u64),
        after.keeps_room(before, vaddr + done, step),
        step == level_size(before.chosen_level(vaddr + done, paddr + done, size - done, flags)),
    ensures
        follows_policy(start, after, vaddr, paddr, size, flags, done + step),
{
    let va = vaddr + done;
    let level = before.chosen_level(va, paddr + done, size - done, flags);
    assert(level == start.chosen_level(va, paddr + done, size - done, flags)) by {
        assert(before.root_empty(va) == start.root_empty(va) || va % 0x4000_0000 != 0);
        assert(before.mid_empty(va) == start.mid_empty(va) || va % 0x20_0000 != 0);
    }
    assert(0 <= level <= 2);
    assert forall|v: int| vaddr <= v < vaddr + done + step implies #[trigger] after.leaf_level(v)
        == start.chosen_level(
        after.block_start(v),
        paddr + (after.block_start(v) - vaddr),
        vaddr + size - after.block_start(v),
        flags,
    ) by {
        if va <= v {
            assert(after.translate(v) is Some);
            lemma_mapped_level(after, v);
            assert(level_size(after.leaf_level(v)) == step);
            assert(after.leaf_level(v) == level);
            if step == 0x1000 {
                lemma_block_4k(va, v);
            } else if step == 0x20_0000 {
                lemma_block_2m(va, v);
            } else {
                lemma_block_1g(va, v);
            }
            assert(after.block_start(v) == va);
        } else {
            assert(after.leaf_level(v) == before.leaf_level(v));
            assert(after.block_start(v) == before.block_start(v));
        }
    }
    assert forall|v: int|
        0 <= v < stage_limit(start.stage()) && v >= vaddr + done + step && v % 0x4000_0000
            == 0 implies #[trigger] after.root_empty(v) == start.root_empty(v) by {
        lemma_behind_frontier(va, v);
        assert(before.root_empty(v) == start.root_empty(v));
    }
    assert forall|v: int|
        0 <= v < stage_limit(start.stage()) && v >= vaddr + done + step && v % 0x20_0000
            == 0 implies #[trigger] after.mid_empty(v) == start.mid_empty(v) by {
        lemma_behind_frontier(va, v);
        assert(before.mid_empty(v) == start.mid_empty(v));
    }
}

/// Whether a request to map `size` bytes from `vaddr` to `paddr` can be
/// served by a table of `stage`: all three lie on page boundaries, the
/// virtual range within the stage's reach, the physical range within
/// physical memory.
pub open spec fn map_args_ok(stage: Stage, vaddr: u64, paddr: u64, size: u64) -> bool {
    &&& vaddr % 0x1000 == 0
    &&& paddr % 0x1000 == 0
    &&& size % 0x1000 == 0
    &&& vaddr + size <= stage_limit(stage)
    &&& paddr + size <= PADDR_LIMIT
}

/// Whether `after` is `before` with one more block: the `size` bytes from
/// `vaddr`, which start on a boundary of that size, go to the memory from
/// `paddr` by one leaf, and every other address is mapped as before.
pub open spec fn block_mapped(
    before: &PageTable,
    after: &PageTable,
    vaddr: u64,
    paddr: u64,
    flags: MemFlags,
    size: u64,
) -> bool {
    &&& vaddr % size == 0
    &&& forall|v: int| #[trigger]
        after.translate(v) == if vaddr <= v < vaddr + size {
            mapped_to(vaddr, paddr, flags, v)
        } else {
            before.translate(v)
        }
    &&& forall|v: int|
        0 <= v < stage_limit(before.stage()) ==> (if vaddr <= v < vaddr + size {
            level_size(#[trigger] after.leaf_level(v)) == size
        } else {
            after.leaf_level(v) == before.leaf_level(v)
        })
}

/// Whether `after` is `before` without the block of `size` bytes at
/// `vaddr`: the block was mapped by one leaf, its addresses are mapped no
/// more, and every other address is mapped as before.
pub open spec fn block_unmapped(before: &PageTable, after: &PageTable, vaddr: u64, size: u64) -> bool {
    &&& vaddr % size == 0
    &&& level_size(before.leaf_level(vaddr as int)) == size
    &&& forall|v: int| #[trigger]
        after.translate(v) == if vaddr <= v < vaddr + size {
            None
        } else {
            before.translate(v)
        }
    &&& forall|v: int|
        0 <= v < stage_limit(before.stage()) && !(vaddr <= v < vaddr + size) ==> #[trigger] after.leaf_level(
            v,
        ) == before.leaf_level(v)
}

/// Whether `after` is `before` with the first `done` bytes of the range
/// from `vaddr` mapped to the memory from `paddr`, and nothing else
/// changed.
pub open spec fn mapped_up_to(
    before: &PageTable,
    after: &PageTable,
    vaddr: u64,
    paddr: u64,
    flags: MemFlags,
    done: int,
) -> bool {
    forall|v: int| #[trigger]
        after.translate(v) == if vaddr <= v < vaddr + done {
            mapped_to(vaddr, paddr, flags, v)
        } else {
            before.translate(v)
        }
}

/// Whether `after` is `before` with the first `done` bytes of the range
/// from `vaddr` unmapped, and nothing else changed.
pub open spec fn unmapped_up_to(before: &PageTable, after: &PageTable, vaddr: u64, done: int) -> bool {
    forall|v: int| #[trigger]
        after.translate(v) == if vaddr <= v < vaddr + done {
            None
        } else {
            before.translate(v)
        }
}

/// Whether `after` maps every address as `before` does.
pub open spec fn unchanged(before: &PageTable, after: &PageTable) -> bool {
    &&& forall|v: int| #[trigger] after.translate(v) == before.translate(v)
    &&& forall|v: int|
        0 <= v < stage_limit(before.stage()) ==> #[trigger] after.leaf_level(v) == before.leaf_level(
            v,
        )
}

/// Where the mapping of the range from `vaddr` to `paddr` sends `v`.
pub open spec fn mapped_to(vaddr: u64, paddr: u64, flags: MemFlags, v: int) -> Option<Translation> {
    Some(Translation { paddr: (paddr + (v - vaddr)) as u64, flags })
}

impl PageTable {
    /// Puts the leaf or the nothing `e` into entry `i` of node `n`, which
    /// the walk for `va` reads and which names no node.
    fn install(&mut self, n: usize, i: usize, e: Entry, va: u64, c1: usize)
        requires
            old(self).wf(),
            n < old(self).node_count(),
            i < old(self).width(n as int),
            !(old(self).entry(n as int, i as int) is Table),
            !(e is Table),
            e matches Entry::Leaf { paddr, flags } ==> paddr % (level_size(
                old(self).level(n as int),
            ) as u64) == 0 && paddr + level_size(old(self).level(n as int)) <= PADDR_LIMIT,
            va < stage_limit(old(self).stage()),
            va % (level_size(old(self).level(n as int)) as u64) == 0,
            reaches(old(self), va as int, n as int, i as int, c1 as int),
        ensures
            final(self).wf(),
            final(self).frames() == old(self).frames(),
            final(self).stage() == old(self).stage(),
            replaced(old(self), final(self), n as int, i as int, e),
            forall|v: int| #[trigger]
                final(self).translate(v) == if va <= v < va + level_size(
                    old(self).level(n as int),
                ) {
                    entry_translation(e, va as int, v)
                } else {
                    old(self).translate(v)
                },
            forall|v: int|
                0 <= v < stage_limit(old(self).stage()) ==> #[trigger] final(self).leaf_level(v)
                    == if va <= v < va + level_size(old(self).level(n as int)) {
                    if e is Leaf {
                        old(self).level(n as int)
                    } else {
                        0
                    }
                } else {
                    old(self).leaf_level(v)
                },
    {
        self.write_entry(n, i, e);
        proof {
            lemma_replace(old(self), self, n as int, i as int, e, va as int, c1 as int);
        }
    }

    /// Maps the page at `vaddr` in the node `c0` of the lowest level, which
    /// the walk for `vaddr` comes to through the node `c1`.
    fn map_low(&mut self, c1: usize, c0: usize, vaddr: u64, paddr: u64, flags: MemFlags) -> (r:
        HvResult<u64>)
        requires
            old(self).wf(),
            vaddr % 0x1000 == 0,
            paddr % 0x1000 == 0,
            vaddr + 0x1000 <= stage_limit(old(self).stage()),
            paddr + 0x1000 <= PADDR_LIMIT,
            1 <= c1 < old(self).node_count(),
            c0 < old(self).node_count(),
            old(self).entry(0, vpn2(vaddr as int)) == (Entry::Table { child: c1 }),
            old(self).entry(c1 as int, vpn1(vaddr as int)) == (Entry::Table { child: c0 }),
        ensures
            final(self).wf(),
            final(self).frames() == old(self).frames(),
            final(self).stage() == old(self).stage(),
            r matches Ok(size) ==> size == SIZE_4K && block_mapped(
                old(self),
                final(self),
                vaddr,
                paddr,
                flags,
                size,
            ) && final(self).keeps_room(old(self), vaddr as int, 0x1000),
            r matches Err(e) ==> e == HvError::Overlap && old(self).translate(vaddr as int) is Some
                && unchanged(old(self), final(self)),
    {
        proof {
            reveal(PageTable::translate);
            reveal(PageTable::leaf_level);
        }
        let s0: u64 = (vaddr >> 12) & 0x1ff;
        proof {
            assert((vaddr >> 12) & 0x1ff == (vaddr / 0x1000) % 512) by (bit_vector);
            lemma_walk_entries(old(self), vaddr as int);
        }
        let i0: usize = s0 as usize;
        match self.read_entry(c0, i0) {
            Entry::Empty => {
                let leaf = Entry::Leaf { paddr, flags };
                self.install(c0, i0, leaf, vaddr, c1);
                proof {
                    lemma_room_after_leaf(
                        old(self),
                        self,
                        c0 as int,
                        i0 as int,
                        leaf,
                        vaddr as int,
                        c1 as int,
                    );
                }
                Ok(SIZE_4K)
            },
            _ => Err(HvError::Overlap),
        }
    }

    /// Maps the largest block that starts at `vaddr` and fits, at or below
    /// the node `c1` of the middle level, which the walk for `vaddr` comes
    /// to.
    fn map_mid(
        &mut self,
        pool: &mut FrameAllocator,
        c1: usize,
        vaddr: u64,
        paddr: u64,
        remaining: u64,
        flags: MemFlags,
    ) -> (r: HvResult<u64>)
        requires
            old(self).wf(),
            old(self).backed_by(old(pool)),
            old(pool).wf(),
            map_args_ok(old(self).stage(), vaddr, paddr, remaining),
            remaining >= 0x1000,
            1 <= c1 < old(self).node_count(),
            old(self).entry(0, vpn2(vaddr as int)) == (Entry::Table { child: c1 }),
        ensures
            final(pool).wf(),
            final(pool).base() == old(pool).base(),
            final(pool).page_count() == old(pool).page_count(),
            final(pool).free().subset_of(old(pool).free()),
            r matches Err(e) ==> (e == HvError::NoMem ==> exhausted(final(pool))),
            final(self).wf(),
            final(self).backed_by(final(pool)),
            final(self).stage() == old(self).stage(),
            r matches Ok(size) ==> (size == SIZE_4K || size == SIZE_2M) && size <= remaining
                && block_mapped(old(self), final(self), vaddr, paddr, flags, size) && (flags.bits
                & MEM_NO_HUGEPAGES != 0 ==> size == SIZE_4K) && final(self).keeps_room(
                old(self),
                vaddr as int,
                size as int,
            ) && (size == SIZE_2M <==> flags.bits & MEM_NO_HUGEPAGES == 0 && vaddr % 0x20_0000 == 0
                && paddr % 0x20_0000 == 0 && remaining >= 0x20_0000 && old(self).entry(
                c1 as int,
                vpn1(vaddr as int),
            ) is Empty),
            r matches Err(e) ==> (e == HvError::Overlap || e == HvError::NoMem) && (e
                == HvError::Overlap <==> old(self).translate(vaddr as int) is Some) && unchanged(
                old(self),
                final(self),
            ),
    {
        proof {
            reveal(PageTable::translate);
            reveal(PageTable::leaf_level);
        }
        let huge: bool = flags.bits & MEM_NO_HUGEPAGES == 0;
        let s1: u64 = (vaddr >> 21) & 0x1ff;
        proof {
            assert((vaddr >> 21) & 0x1ff == (vaddr / 0x20_0000) % 512) by (bit_vector);
            lemma_walk_entries(old(self), vaddr as int);
        }
        let i1: usize = s1 as usize;
        if huge && vaddr % SIZE_2M == 0 && paddr % SIZE_2M == 0 && remaining >= SIZE_2M {
            match self.read_entry(c1, i1) {
                Entry::Empty => {
                    let leaf = Entry::Leaf { paddr, flags };
                    self.install(c1, i1, leaf, vaddr, 0);
                    proof {
                        lemma_room_after_leaf(
                            old(self),
                            self,
                            c1 as int,
                            i1 as int,
                            leaf,
                            vaddr as int,
                            0,
                        );
                    }
                    return Ok(SIZE_2M);
                },
                _ => {},
            }
        }
        let ghost start = old(self).translate(vaddr as int);
        let c0: usize = match self.descend(pool, c1, i1) {
            Ok(c0) => c0,
            Err(e) => {
                return Err(e);
            },
        };
        let ghost mid = *self;
        proof {
            assert(self.entry(0, vpn2(vaddr as int)) == old(self).entry(0, vpn2(vaddr as int)));
            assert(self.translate(vaddr as int) == start);
            lemma_room_after_descend(
                old(self),
                self,
                c1 as int,
                i1 as int,
                c0 as int,
                vaddr as int,
            );
        }
        let r = self.map_low(c1, c0, vaddr, paddr, flags);
        proof {
            if r is Ok {
                lemma_room_chain(old(self), &mid, self, vaddr as int, 0, 0x1000);
            }
        }
        r
    }

    /// Maps the largest block that starts at `vaddr`, fits into `remaining`
    /// bytes and into the tree as it is, and returns its size.
    fn map_one(
        &mut self,
        pool: &mut FrameAllocator,
        vaddr: u64,
        paddr: u64,
        remaining: u64,
        flags: MemFlags,
    ) -> (r: HvResult<u64>)
        requires
            old(self).wf(),
            old(self).backed_by(old(pool)),
            old(pool).wf(),
            map_args_ok(old(self).stage(), vaddr, paddr, remaining),
            remaining >= 0x1000,
        ensures
            final(pool).wf(),
            final(pool).base() == old(pool).base(),
            final(pool).page_count() == old(pool).page_count(),
            final(pool).free().subset_of(old(pool).free()),
            r matches Err(e) ==> (e == HvError::NoMem ==> exhausted(final(pool))),
            final(self).wf(),
            final(self).backed_by(final(pool)),
            final(self).stage() == old(self).stage(),
            r matches Ok(size) ==> (size == SIZE_4K || size == SIZE_2M || size == SIZE_1G) && size
                <= remaining && block_mapped(old(self), final(self), vaddr, paddr, flags, size) && (
            flags.bits & MEM_NO_HUGEPAGES != 0 ==> size == SIZE_4K) && final(self).keeps_room(
                old(self),
                vaddr as int,
                size as int,
            ) && size == level_size(
                old(self).chosen_level(vaddr as int, paddr as int, remaining as int, flags),
            ),
            r matches Err(e) ==> (e == HvError::Overlap || e == HvError::NoMem) && (e
                == HvError::Overlap <==> old(self).translate(vaddr as int) is Some) && unchanged(
                old(self),
                final(self),
            ),
    {
        proof {
            reveal(PageTable::translate);
            reveal(PageTable::leaf_level);
        }
        let huge: bool = flags.bits & MEM_NO_HUGEPAGES == 0;
        let s2: u64 = vaddr >> 30;
        proof {
            assert(vaddr >> 30 == vaddr / 0x4000_0000) by (bit_vector);
            lemma_walk_entries(old(self), vaddr as int);
        }
        let i2: usize = s2 as usize;
        if huge && vaddr % SIZE_1G == 0 && paddr % SIZE_1G == 0 && remaining >= SIZE_1G {
            match self.read_entry(0, i2) {
                Entry::Empty => {
                    let leaf = Entry::Leaf { paddr, flags };
                    self.install(0, i2, leaf, vaddr, 0);
                    proof {
                        lemma_room_after_leaf(old(self), self, 0, i2 as int, leaf, vaddr as int, 0);
                    }
                    return Ok(SIZE_1G);
                },
                _ => {},
            }
        }
        let ghost start = old(self).translate(vaddr as int);
        let c1: usize = match self.descend(pool, 0, i2) {
            Ok(c1) => c1,
            Err(e) => {
                return Err(e);
            },
        };
        let ghost mid = *self;
        proof {
            assert(self.entry_ok(0, i2 as int));
            assert(self.translate(vaddr as int) == start);
            lemma_room_after_descend(old(self), self, 0, i2 as int, c1 as int, vaddr as int);
            assert(mid.entry(c1 as int, vpn1(vaddr as int)) is Empty == old(self).mid_empty(
                vaddr as int,
            )) by {
                lemma_walk_entries(&mid, vaddr as int);
                if old(self).entry(0, i2 as int) is Empty {
                    assert(mid.entry(c1 as int, vpn1(vaddr as int)) is Empty);
                } else {
                    assert(old(self).entry_ok(0, i2 as int));
                    assert(old(self).entry(0, i2 as int) == (Entry::Table { child: c1 }));
                    assert(old(self).width(c1 as int) == 512);
                    assert(0 <= vpn1(vaddr as int) < 512);
                    assert(mid.entry(c1 as int, vpn1(vaddr as int)) == old(self).entry(
                        c1 as int,
                        vpn1(vaddr as int),
                    ));
                }
            }
        }
        let r = self.map_mid(pool, c1, vaddr, paddr, remaining, flags);
        proof {
            if r is Ok {
                lemma_room_chain(old(self), &mid, self, vaddr as int, 0, r->Ok_0 as int);
            }
        }
        r
    }

    /// Maps the `size` bytes from `vaddr` to the `size` bytes from `paddr`
    /// with the rights `flags`, in blocks as large as alignment, size and
    /// flags allow. Nothing in the range may be mapped already.
    ///
    /// When a frame for a node is wanted and none is left, the request
    /// fails with what was mapped up to there in place; outside the range
    /// nothing changes in any case.
    pub fn map(
        &mut self,
        pool: &mut FrameAllocator,
        vaddr: u64,
        paddr: u64,
        size: u64,
        flags: MemFlags,
    ) -> (r: HvResult)
        requires
            old(self).wf(),
            old(self).backed_by(old(pool)),
            old(pool).wf(),
        ensures
            final(pool).wf(),
            final(pool).base() == old(pool).base(),
            final(pool).page_count() == old(pool).page_count(),
            final(pool).free().subset_of(old(pool).free()),
            r matches Err(e) ==> (e == HvError::NoMem ==> exhausted(final(pool))),
            final(self).wf(),
            final(self).backed_by(final(pool)),
            final(self).stage() == old(self).stage(),
            r == Err::<(), HvError>(HvError::BadParam) <==> !map_args_ok(
                old(self).stage(),
                vaddr,
                paddr,
                size,
            ),
            r matches Err(e) ==> e == HvError::BadParam || e == HvError::Overlap || e
                == HvError::NoMem,
            r == Err::<(), HvError>(HvError::Overlap) ==> exists|v: int|
                vaddr <= v < vaddr + size && (#[trigger] old(self).translate(v)) is Some,
            r == Err::<(), HvError>(HvError::BadParam) ==> forall|v: int| #[trigger]
                final(self).translate(v) == old(self).translate(v),
            r is Ok ==> forall|v: int| #[trigger]
                final(self).translate(v) == if vaddr <= v < vaddr + size {
                    mapped_to(vaddr, paddr, flags, v)
                } else {
                    old(self).translate(v)
                },
            r is Err ==> forall|v: int|
                !(vaddr <= v < vaddr + size) ==> #[trigger] final(self).translate(v) == old(
                    self,
                ).translate(v),
            final(self).same_outside(old(self), vaddr as int, vaddr + size),
            r is Ok ==> final(self).closed(vaddr as int, vaddr + size),
            r is Ok && flags.bits & MEM_NO_HUGEPAGES != 0 ==> forall|v: int|
                vaddr <= v < vaddr + size ==> #[trigger] final(self).leaf_level(v) == 0,
            r is Ok ==> follows_policy(old(self), final(self), vaddr, paddr, size, flags, size as int),
            r is Err ==> exists|done: int|
                0 <= done <= size && mapped_up_to(
                    old(self),
                    final(self),
                    vaddr,
                    paddr,
                    flags,
                    done,
                ),
    {
        let limit: u64 = match self.stage {
            Stage::Stage1 => 0x80_0000_0000,
            Stage::Stage2 => 0x200_0000_0000,
        };
        if vaddr % SIZE_4K != 0 || paddr % SIZE_4K != 0 || size % SIZE_4K != 0 || vaddr > limit
            || size > limit - vaddr || paddr > PADDR_LIMIT || size > PADDR_LIMIT - paddr {
            proof {
                assert(mapped_up_to(old(self), self, vaddr, paddr, flags, 0));
            }
            return Err(HvError::BadParam);
        }
        let mut done: u64 = 0;
        while done < size
            invariant
                old(self).wf(),
                pool.wf(),
                pool.base() == old(pool).base(),
                pool.page_count() == old(pool).page_count(),
                pool.free().subset_of(old(pool).free()),
                self.wf(),
                self.backed_by(pool),
                self.stage() == old(self).stage(),
                map_args_ok(old(self).stage(), vaddr, paddr, size),
                done <= size,
                done % 0x1000 == 0,
                forall|v: int| #[trigger]
                    self.translate(v) == if vaddr <= v < vaddr + done {
                        mapped_to(vaddr, paddr, flags, v)
                    } else {
                        old(self).translate(v)
                    },
                forall|v: int|
                    0 <= v < stage_limit(old(self).stage()) ==> (if vaddr <= v < vaddr + done {
                        vaddr <= v - v % level_size(#[trigger] self.leaf_level(v)) && v - v
                            % level_size(self.leaf_level(v)) + level_size(self.leaf_level(v)) <= vaddr
                            + done
                    } else {
                        self.leaf_level(v) == old(self).leaf_level(v)
                    }),
                flags.bits & MEM_NO_HUGEPAGES != 0 ==> forall|v: int|
                    vaddr <= v < vaddr + done ==> #[trigger] self.leaf_level(v) == 0,
                follows_policy(old(self), self, vaddr, paddr, size, flags, done as int),
            decreases size - done,
        {
            let ghost before = *self;
            match self.map_one(pool, vaddr + done, paddr + done, size - done, flags) {
                Ok(step) => {
                    proof {
                        lemma_policy_step(
                            old(self),
                            &before,
                            self,
                            vaddr,
                            paddr,
                            size,
                            flags,
                            done as int,
                            step as int,
                        );
                        let va = vaddr + done;
                        assert forall|v: int|
                            0 <= v < stage_limit(old(self).stage()) implies (if vaddr <= v < vaddr
                            + done + step {
                            vaddr <= v - v % level_size(#[trigger] self.leaf_level(v)) && v - v
                                % level_size(self.leaf_level(v)) + level_size(self.leaf_level(v))
                                <= vaddr + done + step
                        } else {
                            self.leaf_level(v) == old(self).leaf_level(v)
                        }) by {
                            if va <= v < va + step {
                                assert(level_size(self.leaf_level(v)) == step);
                                lemma_level_of_size(self.leaf_level(v));
                                if step == 0x1000 {
                                    lemma_block_4k(va, v);
                                } else if step == 0x20_0000 {
                                    lemma_block_2m(va, v);
                                } else {
                                    lemma_block_1g(va, v);
                                }
                            } else {
                                assert(self.leaf_level(v) == before.leaf_level(v));
                            }
                        }
                        assert forall|v: int| #[trigger]
                            self.translate(v) == if vaddr <= v < vaddr + done + step {
                                mapped_to(vaddr, paddr, flags, v)
                            } else {
                                old(self).translate(v)
                            } by {
                            assert(self.translate(v) == if vaddr + done <= v < vaddr + done + step {
                                mapped_to((vaddr + done) as u64, (paddr + done) as u64, flags, v)
                            } else {
                                before.translate(v)
                            });
                        }
                    }
                    done = done + step;
                },
                Err(e) => {
                    proof {
                        assert forall|v: int| !(vaddr <= v < vaddr + size) implies #[trigger] self.translate(
                            v,
                        ) == old(self).translate(v) by {
                            assert(self.translate(v) == before.translate(v));
                        }
                        if e == HvError::Overlap {
                            assert(before.translate(vaddr + done) is Some);
                            assert(old(self).translate(vaddr + done) is Some);
                        }
                        assert(mapped_up_to(old(self), self, vaddr, paddr, flags, done as int));
                    }
                    return Err(e);
                },
            }
        }
        Ok(())
    }

    /// Takes out the leaf that maps the block at `vaddr`, if the block
    /// starts at `vaddr` and ends within `remaining` bytes, and returns the
    /// block's size.
    fn unmap_one(&mut self, vaddr: u64, remaining: u64) -> (r: HvResult<u64>)
        requires
            old(self).wf(),
            vaddr % 0x1000 == 0,
            remaining % 0x1000 == 0,
            remaining >= 0x1000,
            vaddr + remaining <= stage_limit(old(self).stage()),
        ensures
            final(self).wf(),
            final(self).frames() == old(self).frames(),
            final(self).stage() == old(self).stage(),
            r matches Ok(size) ==> (size == SIZE_4K || size == SIZE_2M || size == SIZE_1G) && size
                <= remaining && block_unmapped(old(self), final(self), vaddr, size),
            r matches Err(e) ==> (e == HvError::Unmapped || e == HvError::BadParam) && (e
                == HvError::Unmapped <==> old(self).translate(vaddr as int) is None) && (e
                == HvError::BadParam ==> vaddr % (level_size(
                old(self).leaf_level(vaddr as int),
            ) as u64) != 0 || level_size(old(self).leaf_level(vaddr as int)) > remaining)
                && unchanged(old(self), final(self)),
    {
        proof {
            reveal(PageTable::translate);
            reveal(PageTable::leaf_level);
        }
        let s2: u64 = vaddr >> 30;
        let s1: u64 = (vaddr >> 21) & 0x1ff;
        let s0: u64 = (vaddr >> 12) & 0x1ff;
        proof {
            assert(vaddr >> 30 == vaddr / 0x4000_0000) by (bit_vector);
            assert((vaddr >> 21) & 0x1ff == (vaddr / 0x20_0000) % 512) by (bit_vector);
            assert((vaddr >> 12) & 0x1ff == (vaddr / 0x1000) % 512) by (bit_vector);
            lemma_walk_entries(old(self), vaddr as int);
        }
        let i2: usize = s2 as usize;
        let i1: usize = s1 as usize;
        let i0: usize = s0 as usize;
        let c1: usize = match self.read_entry(0, i2) {
            Entry::Empty => {
                return Err(HvError::Unmapped);
            },
            Entry::Leaf { .. } => {
                if vaddr % SIZE_1G != 0 || remaining < SIZE_1G {
                    return Err(HvError::BadParam);
                }
                self.install(0, i2, Entry::Empty, vaddr, 0);
                return Ok(SIZE_1G);
            },
            Entry::Table { child } => child,
        };
        let c0: usize = match self.read_entry(c1, i1) {
            Entry::Empty => {
                return Err(HvError::Unmapped);
            },
            Entry::Leaf { .. } => {
                if vaddr % SIZE_2M != 0 || remaining < SIZE_2M {
                    return Err(HvError::BadParam);
                }
                self.install(c1, i1, Entry::Empty, vaddr, 0);
                return Ok(SIZE_2M);
            },
            Entry::Table { child } => child,
        };
        match self.read_entry(c0, i0) {
            Entry::Leaf { .. } => {
                self.install(c0, i0, Entry::Empty, vaddr, c1);
                Ok(SIZE_4K)
            },
            _ => Err(HvError::Unmapped),
        }
    }

    /// Takes out the mappings of the `size` bytes from `vaddr`. The range
    /// is to be made of whole blocks that are mapped: where an address in it
    /// is not mapped the request fails as unmapped, where a block reaches
    /// out of the range it fails as a bad parameter; in both cases what was
    /// taken out up to there stays out, and outside the range nothing
    /// changes.
    pub fn unmap(&mut self, vaddr: u64, size: u64) -> (r: HvResult)
        requires
            old(self).wf(),
        ensures
            final(self).wf(),
            final(self).frames() == old(self).frames(),
            final(self).stage() == old(self).stage(),
            r matches Err(e) ==> e == HvError::BadParam || e == HvError::Unmapped,
            r == Err::<(), HvError>(HvError::Unmapped) ==> exists|v: int|
                vaddr <= v < vaddr + size && (#[trigger] old(self).translate(v)) is None,
            !(vaddr % 0x1000 == 0 && size % 0x1000 == 0 && vaddr + size <= stage_limit(
                old(self).stage(),
            )) ==> r == Err::<(), HvError>(HvError::BadParam) && forall|v: int| #[trigger]
                final(self).translate(v) == old(self).translate(v),
            r is Ok ==> forall|v: int| #[trigger]
                final(self).translate(v) == if vaddr <= v < vaddr + size {
                    None
                } else {
                    old(self).translate(v)
                },
            r is Err ==> forall|v: int|
                !(vaddr <= v < vaddr + size) ==> #[trigger] final(self).translate(v) == old(
                    self,
                ).translate(v),
            final(self).same_outside(old(self), vaddr as int, vaddr + size),
            vaddr % 0x1000 == 0 && size % 0x1000 == 0 && vaddr + size <= stage_limit(
                old(self).stage(),
            ) && old(self).closed(vaddr as int, vaddr + size) ==> r is Ok,
            r is Err ==> exists|done: int|
                0 <= done <= size && unmapped_up_to(old(self), final(self), vaddr, done),
    {
        let limit: u64 = match self.stage {
            Stage::Stage1 => 0x80_0000_0000,
            Stage::Stage2 => 0x200_0000_0000,
        };
        if vaddr % SIZE_4K != 0 || size % SIZE_4K != 0 || vaddr > limit || size > limit - vaddr {
            proof {
                assert(unmapped_up_to(old(self), self, vaddr, 0));
            }
            return Err(HvError::BadParam);
        }
        let mut done: u64 = 0;
        while done < size
            invariant
                old(self).wf(),
                self.wf(),
                self.frames() == old(self).frames(),
                self.stage() == old(self).stage(),
                vaddr % 0x1000 == 0,
                size % 0x1000 == 0,
                vaddr + size <= stage_limit(old(self).stage()),
                done <= size,
                done % 0x1000 == 0,
                forall|v: int| #[trigger]
                    self.translate(v) == if vaddr <= v < vaddr + done {
                        None
                    } else {
                        old(self).translate(v)
                    },
                forall|v: int|
                    0 <= v < stage_limit(old(self).stage()) && !(vaddr <= v < vaddr + done)
                        ==> #[trigger] self.leaf_level(v) == old(self).leaf_level(v),
                old(self).closed(vaddr as int, vaddr + size) ==> self.closed(
                    vaddr + done,
                    vaddr + size,
                ),
            decreases size - done,
        {
            let ghost before = *self;
            proof {
                if old(self).closed(vaddr as int, vaddr + size) {
                    let va = vaddr + done;
                    assert(before.translate(va) is Some);
                    lemma_mapped_level(&before, va);
                    assert(before.block_start(va) == va);
                    assert(before.block_end(va) <= vaddr + size);
                    if before.leaf_level(va) == 0 {
                        assert(va % 0x1000 == 0);
                    } else if before.leaf_level(va) == 1 {
                        assert(va % 0x20_0000 == 0);
                    } else {
                        assert(va % 0x4000_0000 == 0);
                    }
                }
            }
            match self.unmap_one(vaddr + done, size - done) {
                Ok(step) => {
                    proof {
                        let va = vaddr + done;
                        if old(self).closed(vaddr as int, vaddr + size) {
                            assert forall|v: int| va + step <= v < vaddr + size implies (
                            #[trigger] self.translate(v)) is Some && va + step <= self.block_start(v)
                                && self.block_end(v) <= vaddr + size by {
                                assert(before.translate(v) is Some);
                                assert(self.leaf_level(v) == before.leaf_level(v));
                                assert(before.block_start(va) == va);
                                lemma_blocks_apart(&before, va, v);
                            }
                        }
                        assert forall|v: int| #[trigger]
                            self.translate(v) == if vaddr <= v < vaddr + done + step {
                                None
                            } else {
                                old(self).translate(v)
                            } by {
                            assert(self.translate(v) == if vaddr + done <= v < vaddr + done + step {
                                None
                            } else {
                                before.translate(v)
                            });
                        }
                    }
                    done = done + step;
                },
                Err(e) => {
                    proof {
                        assert forall|v: int| !(vaddr <= v < vaddr + size) implies #[trigger] self.translate(
                            v,
                        ) == old(self).translate(v) by {
                            assert(self.translate(v) == before.translate(v));
                        }
                        if e == HvError::Unmapped {
                            assert(before.translate(vaddr + done) is None);
                            assert(old(self).translate(vaddr + done) is None);
                        }
                        assert(unmapped_up_to(old(self), self, vaddr, done as int));
                    }
                    return Err(e);
                },
            }
        }
        Ok(())
    }

    /// Walks the table for `vaddr`: returns where the address goes, with
    /// what rights, and the size of the block that maps it; or that it is
    /// not mapped.
    pub fn query(&self, vaddr: u64) -> (r: HvResult<(u64, MemFlags, u64)>)
        requires
            self.wf(),
        ensures
            r is Ok <==> self.translate(vaddr as int) is Some,
            r matches Err(e) ==> e == HvError::Unmapped,
            r matches Ok((paddr, flags, size)) ==> self.translate(vaddr as int) == Some(
                Translation { paddr, flags },
            ) && size == level_size(self.leaf_level(vaddr as int)),
    {
        proof {
            reveal(PageTable::translate);
            reveal(PageTable::leaf_level);
        }
        let limit: u64 = match self.stage {
            Stage::Stage1 => 0x80_0000_0000,
            Stage::Stage2 => 0x200_0000_0000,
        };
        if vaddr >= limit {
            return Err(HvError::Unmapped);
        }
        let s2: u64 = vaddr >> 30;
        let s1: u64 = (vaddr >> 21) & 0x1ff;
        let s0: u64 = (vaddr >> 12) & 0x1ff;
        proof {
            assert(vaddr >> 30 == vaddr / 0x4000_0000) by (bit_vector);
            assert((vaddr >> 21) & 0x1ff == (vaddr / 0x20_0000) % 512) by (bit_vector);
            assert((vaddr >> 12) & 0x1ff == (vaddr / 0x1000) % 512) by (bit_vector);
            lemma_walk_entries(self, vaddr as int);
        }
        let i2: usize = s2 as usize;
        let i1: usize = s1 as usize;
        let i0: usize = s0 as usize;
        match self.read_entry(0, i2) {
            Entry::Empty => Err(HvError::Unmapped),
            Entry::Leaf { paddr, flags } => Ok((paddr + vaddr % SIZE_1G, flags, SIZE_1G)),
            Entry::Table { child: c1 } => match self.read_entry(c1, i1) {
                Entry::Empty => Err(HvError::Unmapped),
                Entry::Leaf { paddr, flags } => Ok((paddr + vaddr % SIZE_2M, flags, SIZE_2M)),
                Entry::Table { child: c0 } => match self.read_entry(c0, i0) {
                    Entry::Leaf { paddr, flags } => Ok((paddr + vaddr % SIZE_4K, flags, SIZE_4K)),
                    _ => Err(HvError::Unmapped),
                },
            },
        }
    }
}

/// Computes the low bits of a leaf's hardware entry.
pub fn leaf_bits(guest: bool, flags: MemFlags) -> (r: u64)
    ensures
        r == pte_flag_bits(guest, flags.bits),
{
    let mut bits: u64 = PTE_V | PTE_A | PTE_D;
    let f: u64 = flags.bits;
    let r_bit: u64 = if f & MEM_READ != 0 {
        PTE_R
    } else {
        0
    };
    let w_bit: u64 = if f & MEM_WRITE != 0 {
        PTE_W
    } else {
        0
    };
    let x_bit: u64 = if f & MEM_EXECUTE != 0 {
        PTE_X
    } else {
        0
    };
    let u_bit: u64 = if f & MEM_USER != 0 || guest {
        PTE_U
    } else {
        0
    };
    bits = bits | r_bit | w_bit | x_bit | u_bit;
    bits
}

/// A leaf's hardware entry holds the block's page number and the rights that
/// were asked for: it is valid, its page number is that of `paddr`, and it
/// is readable, writable or executable exactly where `flags` says so.
pub proof fn lemma_leaf_pte(guest: bool, paddr: u64, flags: u64)
    requires
        paddr % 0x1000 == 0,
        paddr < PADDR_LIMIT,
    ensures
        ({
            let pte = pte_value(paddr, pte_flag_bits(guest, flags));
            &&& pte & PTE_V != 0
            &&& ((pte >> 10) << 12) == paddr
            &&& (pte & PTE_R != 0) == (flags & MEM_READ != 0)
            &&& (pte & PTE_W != 0) == (flags & MEM_WRITE != 0)
            &&& (pte & PTE_X != 0) == (flags & MEM_EXECUTE != 0)
        }),
{
    let bits = pte_flag_bits(guest, flags);
    assert(bits < 0x100 && bits & 1 != 0 && (bits & 2 != 0) == (flags & 1 != 0) && (bits & 4 != 0) == (
    flags & 2 != 0) && (bits & 8 != 0) == (flags & 4 != 0)) by (bit_vector)
        requires
            bits == 1u64 | 0x40u64 | 0x80u64 | (if flags & 1 != 0 {
                2u64
            } else {
                0u64
            }) | (if flags & 2 != 0 {
                4u64
            } else {
                0u64
            }) | (if flags & 4 != 0 {
                8u64
            } else {
                0u64
            }) | (if flags & 0x200 != 0 || guest {
                0x10u64
            } else {
                0u64
            }),
    ;
    let pte = pte_value(paddr, bits);
    assert(pte & 1 != 0 && ((pte >> 10) << 12) == paddr && (pte & 2 != 0) == (bits & 2 != 0) && (pte
        & 4 != 0) == (bits & 4 != 0) && (pte & 8 != 0) == (bits & 8 != 0)) by (bit_vector)
        requires
            pte == ((paddr >> 12) << 10) | bits,
            bits < 0x100,
            bits & 1 != 0,
            paddr % 0x1000 == 0,
            paddr < 0x100_0000_0000_0000u64,
    ;
}

impl PageTable {
    /// The hardware entry that stands for entry `i` of node `k`: zero for
    /// an empty entry, the block's page number with the leaf's bits for a
    /// leaf, and the page number of the child's frame, valid and with no
    /// right set, for a table.
    pub open spec fn pte_spec(&self, k: int, i: int) -> u64 {
        match self.entry(k, i) {
            Entry::Empty => 0,
            Entry::Leaf { paddr, flags } => pte_value(
                paddr,
                pte_flag_bits(self.stage() == Stage::Stage2, flags.bits),
            ),
            Entry::Table { child } => pte_value(self.node_paddr(child as int) as u64, PTE_V),
        }
    }

    /// The hardware entry for entry `i` of node `k`, for the caller to
    /// store in the node's frame.
    pub fn pte(&self, k: usize, i: usize) -> (r: u64)
        requires
            self.wf(),
            k < self.node_count(),
            i < self.width(k as int),
        ensures
            r == self.pte_spec(k as int, i as int),
    {
        match self.read_entry(k, i) {
            Entry::Empty => 0,
            Entry::Leaf { paddr, flags } => {
                let guest: bool = match self.stage {
                    Stage::Stage1 => false,
                    Stage::Stage2 => true,
                };
                ((paddr >> 12) << 10) | leaf_bits(guest, flags)
            },
            Entry::Table { child } => {
                proof {
                    assert(self.entry_ok(k as int, i as int));
                }
                let paddr: u64 = self.nodes[child].frame.start_paddr();
                ((paddr >> 12) << 10) | PTE_V
            },
        }
    }

    /// Gives the frames of all nodes back to `pool`.
    pub fn release(self, pool: &mut FrameAllocator)
        requires
            self.backed_by(old(pool)),
            old(pool).wf(),
        ensures
            final(pool).wf(),
            final(pool).base() == old(pool).base(),
            final(pool).page_count() == old(pool).page_count(),
            final(pool).free() == old(pool).free().union(
                crate::memory::frame::pages_of(old(pool), self.frames()),
            ),
    {
        let ghost whole = self.frames();
        let mut nodes = self.nodes;
        let mut frames: Vec<Frame> = Vec::new();
        while nodes.len() > 0
            invariant
                whole.len() == nodes@.len() + frames@.len(),
                forall|k: int| 0 <= k < nodes@.len() ==> (#[trigger] nodes@[k]).frame == whole[k],
                forall|j: int|
                    0 <= j < frames@.len() ==> #[trigger] frames@[j] == whole[whole.len() - 1 - j],
            decreases nodes@.len(),
        {
            let ghost n = nodes@.len();
            let node = nodes.pop().unwrap();
            frames.push(node.frame);
        }
        proof {
            assert forall|i: int| 0 <= i < frames@.len() implies (#[trigger] frames@[i]).count() >= 1
                && frames@[i].within(old(pool)) by {
                assert(frames@[i] == whole[whole.len() - 1 - i]);
            }
            assert forall|p: int|
                crate::memory::frame::pages_of(old(pool), frames@).contains(p)
                    <==> crate::memory::frame::pages_of(old(pool), whole).contains(p) by {
                if crate::memory::frame::pages_of(old(pool), frames@).contains(p) {
                    let i = choose|i: int|
                        0 <= i < frames@.len() && (#[trigger] frames@[i]).pages(old(pool)).contains(p);
                    assert(frames@[i] == whole[whole.len() - 1 - i]);
                }
                if crate::memory::frame::pages_of(old(pool), whole).contains(p) {
                    let i = choose|i: int|
                        0 <= i < whole.len() && (#[trigger] whole[i]).pages(old(pool)).contains(p);
                    assert(frames@[whole.len() - 1 - i] == whole[i]);
                }
            }
            assert(crate::memory::frame::pages_of(old(pool), frames@)
                =~= crate::memory::frame::pages_of(old(pool), whole));
        }
        release_all(pool, frames);
    }
}

/// What was mapped resolves, and what was unmapped does not: after a range
/// was mapped with success, the walk for each of its addresses yields the
/// physical address as far behind `paddr` as the address lies behind
/// `vaddr`, with rights that include `flags`; and after the range was then
/// unmapped with success, the walk for each of its addresses finds nothing.
/// `mapped` and `unmapped` are the table after the one and after the other.
pub proof fn lemma_walk_after_map_and_unmap(
    before: &PageTable,
    mapped: &PageTable,
    unmapped: &PageTable,
    vaddr: u64,
    paddr: u64,
    size: u64,
    flags: MemFlags,
    v: int,
)
    requires
        forall|u: int| #[trigger]
            mapped.translate(u) == if vaddr <= u < vaddr + size {
                mapped_to(vaddr, paddr, flags, u)
            } else {
                before.translate(u)
            },
        forall|u: int| #[trigger]
            unmapped.translate(u) == if vaddr <= u < vaddr + size {
                None
            } else {
                mapped.translate(u)
            },
        vaddr <= v < vaddr + size,
    ensures
        mapped.translate(v) matches Some(t) && t.paddr == (paddr + (v - vaddr)) as u64 && t.flags.has(
            flags,
        ),
        unmapped.translate(v) is None,
{
    let bits = flags.bits;
    assert(bits & bits == bits) by (bit_vector);
}

} // verus!
